//! Relevance of an extracted pair to the typed name fragment.
//!
//! The fragment is split on spaces into tokens; a pair is relevant when
//! every token occurs (case-insensitively) in the address, or every
//! token occurs in the display name. A pair whose address contains the
//! literal `reply` is never relevant: a heuristic exclusion of no-reply
//! and auto-reply senders, at an accepted false-positive risk for
//! legitimate addresses containing that substring.

use vstd::prelude::*;

use crate::extract::AddressPair;
use crate::extract::PairView;
use crate::text::contains_token;
use crate::text::is_substring;
use crate::text::lower_seq;

verus! {

/// The index of the first space in `s`, or its length.
pub open spec fn first_space(s: Seq<char>) -> int
    decreases s.len(),
{
    if s.len() == 0 {
        0
    } else if s[0] == ' ' {
        0
    } else {
        1 + first_space(s.drop_first())
    }
}

/// The fragment split on single spaces; consecutive spaces yield empty
/// tokens, which match everything and are harmless.
pub open spec fn split_spaces(s: Seq<char>) -> Seq<Seq<char>>
    decreases s.len(),
{
    let k = first_space(s);
    if 0 <= k < s.len() {
        seq![s.subrange(0, k)] + split_spaces(s.subrange(k + 1, s.len() as int))
    } else {
        seq![s]
    }
}

proof fn lemma_first_space_is(s: Seq<char>, k: int)
    requires
        0 <= k <= s.len(),
        forall|j: int| 0 <= j < k ==> s[j] != ' ',
        k < s.len() ==> s[k] == ' ',
    ensures
        first_space(s) == k,
    decreases s.len(),
{
    if k > 0 {
        lemma_first_space_is(s.drop_first(), k - 1);
    }
}

/// Every token's lower-casing occurs in the haystack; with `fold_hay`
/// the haystack is lower-cased first.
pub open spec fn all_tokens_match(toks: Seq<Seq<char>>, hay: Seq<char>, fold_hay: bool) -> bool {
    forall|i: int|
        0 <= i < toks.len() ==> is_substring(
            lower_seq(toks[i]),
            if fold_hay {
                lower_seq(hay)
            } else {
                hay
            },
        )
}

/// The excluded marker: addresses containing it are never relevant.
pub open spec fn reply_marker() -> Seq<char> {
    seq!['r', 'e', 'p', 'l', 'y']
}

/// Whether a pair matches the typed fragment: every token in the
/// (already lower-case) address, or every token in the lower-cased
/// display name — and the address never contains the reply marker.
pub open spec fn relevant(p: PairView, name: Seq<char>) -> bool {
    &&& !is_substring(reply_marker(), p.address)
    &&& {
        let toks = split_spaces(name);
        all_tokens_match(toks, p.address, false) || all_tokens_match(toks, p.display_name, true)
    }
}

/// Split the fragment on spaces into tokens.
pub fn split_name<'a>(name: &'a str) -> (toks: Vec<&'a str>)
    ensures
        toks.deep_view() == split_spaces(name@),
    decreases name@.len(),
{
    let n = name.unicode_len();
    let mut k: usize = 0;
    while k < n && name.get_char(k) != ' '
        invariant
            k <= n,
            n == name@.len(),
            forall|j: int| 0 <= j < k ==> name@[j] != ' ',
        decreases n - k,
    {
        k = k + 1;
    }
    proof {
        lemma_first_space_is(name@, k as int);
    }
    if k == n {
        let mut toks: Vec<&str> = Vec::new();
        toks.push(name);
        proof {
            assert(toks.deep_view() =~= split_spaces(name@));
        }
        toks
    } else {
        let head = name.substring_char(0, k);
        let tail = name.substring_char(k + 1, n);
        let mut toks = split_name(tail);
        let ghost rest = toks.deep_view();
        toks.insert(0, head);
        proof {
            assert(toks.deep_view() =~= seq![head@] + rest);
        }
        toks
    }
}

/// Whether every entry of `tests`, lower-cased, occurs in `query`.
pub fn contains_any(query: &str, tests: &Vec<&str>) -> (r: bool)
    ensures
        r == all_tokens_match(tests.deep_view(), query@, false),
{
    let n = tests.len();
    let mut i: usize = 0;
    while i < n
        invariant
            i <= n,
            n == tests@.len(),
            forall|j: int|
                0 <= j < i ==> is_substring(lower_seq(tests.deep_view()[j]), query@),
        decreases n - i,
    {
        if !contains_token(query, tests[i], false) {
            proof {
                assert(tests.deep_view()[i as int] == tests@[i as int]@);
                assert(!all_tokens_match(tests.deep_view(), query@, false));
            }
            return false;
        }
        i = i + 1;
    }
    true
}

fn all_match_folded(hay: &str, tests: &Vec<&str>) -> (r: bool)
    ensures
        r == all_tokens_match(tests.deep_view(), hay@, true),
{
    let n = tests.len();
    let mut i: usize = 0;
    while i < n
        invariant
            i <= n,
            n == tests@.len(),
            forall|j: int|
                0 <= j < i ==> is_substring(lower_seq(tests.deep_view()[j]), lower_seq(hay@)),
        decreases n - i,
    {
        if !contains_token(hay, tests[i], true) {
            proof {
                assert(tests.deep_view()[i as int] == tests@[i as int]@);
                assert(!all_tokens_match(tests.deep_view(), hay@, true));
            }
            return false;
        }
        i = i + 1;
    }
    true
}

/// Decide whether an extracted pair matches the typed fragment.
pub fn is_relevant(pair: &AddressPair, target_name: &str) -> (r: bool)
    ensures
        r == relevant(pair@, target_name@),
{
    let has_reply = contains_token(pair.address.as_str(), "reply", false);
    proof {
        reveal_strlit("reply");
        assert(lower_seq("reply"@) =~= reply_marker());
    }
    if has_reply {
        return false;
    }
    let toks = split_name(target_name);
    if contains_any(pair.address.as_str(), &toks) {
        true
    } else {
        all_match_folded(pair.display_name.as_str(), &toks)
    }
}

/// An address containing the reply marker is never relevant, whatever
/// its tokens match.
pub proof fn lemma_reply_never_relevant(p: PairView, name: Seq<char>)
    requires
        is_substring(reply_marker(), p.address),
    ensures
        !relevant(p, name),
{
}

} // verus!
