//! Character and sequence helpers: ASCII lower-casing, whitespace
//! trimming and substring search, with their specification-level models.

use vstd::prelude::*;

verus! {

/// ASCII lower-casing of one character; anything outside `'A'..='Z'`
/// is left unchanged.
pub open spec fn lower_char(c: char) -> char {
    if 'A' <= c && c <= 'Z' {
        (((c as u8) + 32) as char)
    } else {
        c
    }
}

/// Executable ASCII lower-casing, exactly `lower_char`.
pub fn ascii_lower(c: char) -> (r: char)
    ensures
        r == lower_char(c),
{
    if 'A' <= c && c <= 'Z' {
        ((c as u8) + 32) as char
    } else {
        c
    }
}

/// A sequence with every character ASCII lower-cased.
pub open spec fn lower_seq(s: Seq<char>) -> Seq<char> {
    s.map_values(|c: char| lower_char(c))
}

pub proof fn lemma_lower_seq_push(s: Seq<char>, c: char)
    ensures
        lower_seq(s.push(c)) == lower_seq(s).push(lower_char(c)),
{
    assert(lower_seq(s.push(c)) =~= lower_seq(s).push(lower_char(c)));
}

/// Relies on `String::push`: appends exactly the given character.
/// vstd gives `String` no specification for it.
#[verifier::external_body]
pub fn push_char(s: &mut String, c: char)
    ensures
        final(s)@ == old(s)@.push(c),
{
    s.push(c);
}

/// The whitespace characters that surrounding-trim removes.
pub open spec fn is_space(c: char) -> bool {
    c == ' ' || c == '\t' || c == '\n' || c == '\r'
}

/// Executable test for `is_space`.
pub fn is_space_char(c: char) -> (r: bool)
    ensures
        r == is_space(c),
{
    c == ' ' || c == '\t' || c == '\n' || c == '\r'
}

/// The sequence with its leading whitespace removed.
pub open spec fn trim_front(s: Seq<char>) -> Seq<char>
    decreases s.len(),
{
    if s.len() > 0 && is_space(s[0]) {
        trim_front(s.drop_first())
    } else {
        s
    }
}

/// The sequence with its trailing whitespace removed.
pub open spec fn trim_back(s: Seq<char>) -> Seq<char>
    decreases s.len(),
{
    if s.len() > 0 && is_space(s.last()) {
        trim_back(s.drop_last())
    } else {
        s
    }
}

/// The sequence with surrounding whitespace removed.
pub open spec fn trim_ws(s: Seq<char>) -> Seq<char> {
    trim_back(trim_front(s))
}

proof fn lemma_trim_front_props(s: Seq<char>)
    ensures
        trim_front(s).len() > 0 ==> !is_space(trim_front(s)[0]),
        trim_front(s).len() > 0 ==> trim_front(s).last() == s.last(),
        trim_front(s).len() <= s.len(),
    decreases s.len(),
{
    if s.len() > 0 && is_space(s[0]) {
        lemma_trim_front_props(s.drop_first());
    }
}

proof fn lemma_trim_back_props(s: Seq<char>)
    ensures
        trim_back(s).len() > 0 ==> !is_space(trim_back(s).last()),
        trim_back(s).len() > 0 ==> trim_back(s)[0] == s[0],
        trim_back(s).len() <= s.len(),
    decreases s.len(),
{
    if s.len() > 0 && is_space(s.last()) {
        lemma_trim_back_props(s.drop_last());
    }
}

/// A trimmed sequence neither starts nor ends with whitespace.
pub proof fn lemma_trim_ws_no_edge_space(s: Seq<char>)
    ensures
        trim_ws(s).len() > 0 ==> !is_space(trim_ws(s)[0]),
        trim_ws(s).len() > 0 ==> !is_space(trim_ws(s).last()),
{
    lemma_trim_front_props(s);
    lemma_trim_back_props(trim_front(s));
}

/// `needle` occurs in `hay` starting at position `k`.
pub open spec fn matches_at(hay: Seq<char>, needle: Seq<char>, k: int) -> bool {
    0 <= k && k + needle.len() <= hay.len() && hay.subrange(k, k + needle.len()) == needle
}

/// `needle` occurs somewhere in `hay`.
pub open spec fn is_substring(needle: Seq<char>, hay: Seq<char>) -> bool {
    exists|k: int| matches_at(hay, needle, k)
}

/// Whether the lower-cased `needle` occurs in `hay`; with `fold_hay` the
/// haystack is lower-cased as well before the comparison.
pub fn contains_token(hay: &str, needle: &str, fold_hay: bool) -> (r: bool)
    ensures
        r == is_substring(
            lower_seq(needle@),
            if fold_hay {
                lower_seq(hay@)
            } else {
                hay@
            },
        ),
{
    let ghost target: Seq<char> = if fold_hay {
        lower_seq(hay@)
    } else {
        hay@
    };
    let ghost ln: Seq<char> = lower_seq(needle@);
    let nlen = needle.unicode_len();
    let hlen = hay.unicode_len();
    if nlen == 0 {
        proof {
            assert(target.subrange(0, 0) =~= ln);
            assert(matches_at(target, ln, 0));
        }
        return true;
    }
    if nlen > hlen {
        return false;
    }
    let mut k: usize = 0;
    while k <= hlen - nlen
        invariant
            0 < nlen <= hlen,
            nlen == needle@.len(),
            hlen == hay@.len(),
            k <= hlen - nlen + 1,
            target == (if fold_hay {
                lower_seq(hay@)
            } else {
                hay@
            }),
            ln == lower_seq(needle@),
            target.len() == hlen,
            ln.len() == nlen,
            forall|kk: int| 0 <= kk < k ==> !matches_at(target, ln, kk),
        decreases hlen - nlen + 1 - k,
    {
        let mut j: usize = 0;
        let mut matched = true;
        while matched && j < nlen
            invariant
                0 < nlen <= hlen,
                nlen == needle@.len(),
                hlen == hay@.len(),
                k + nlen <= hlen,
                j <= nlen,
                target == (if fold_hay {
                    lower_seq(hay@)
                } else {
                    hay@
                }),
                ln == lower_seq(needle@),
                target.len() == hlen,
                ln.len() == nlen,
                matched ==> forall|jj: int| 0 <= jj < j ==> target[k + jj] == ln[jj],
                !matched ==> !matches_at(target, ln, k as int),
            decreases nlen - j,
        {
            let hc = hay.get_char(k + j);
            let hc = if fold_hay {
                ascii_lower(hc)
            } else {
                hc
            };
            let nc = ascii_lower(needle.get_char(j));
            if hc != nc {
                proof {
                    assert(target[k + j] != ln[j as int]);
                    assert(!matches_at(target, ln, k as int)) by {
                        if matches_at(target, ln, k as int) {
                            assert(target.subrange(k as int, k + nlen)[j as int] == ln[j as int]);
                        }
                    }
                }
                matched = false;
            }
            j = j + 1;
        }
        if matched {
            proof {
                assert(target.subrange(k as int, k + nlen) =~= ln);
                assert(matches_at(target, ln, k as int));
            }
            return true;
        }
        k = k + 1;
    }
    proof {
        assert forall|kk: int| !matches_at(target, ln, kk) by {
            if 0 <= kk < k {
            } else if kk + ln.len() <= target.len() && kk >= 0 {
                assert(kk <= hlen - nlen);
                assert(kk < k);
            }
        }
    }
    false
}

} // verus!
