//! Extraction of `(address, display name)` pairs from one raw header
//! value, and their normalization.
//!
//! The raw header is a comma-separated mailbox list; splitting it — which
//! must not break on commas inside quoted display names — is delegated to
//! the `mailparse` crate behind a trusted wrapper. Everything after the
//! split is verified: addresses are trimmed and lower-cased and must have
//! a minimal `local@domain` shape; display names lose quoting characters
//! and are dropped when they look like a second address.

use vstd::prelude::*;

use crate::text::ascii_lower;
use crate::text::is_space;
use crate::text::is_space_char;
use crate::text::lemma_lower_seq_push;
use crate::text::lower_char;
use crate::text::lower_seq;
use crate::text::push_char;
use crate::text::trim_back;
use crate::text::trim_front;
use crate::text::trim_ws;

verus! {

/// One extracted mailbox: a normalized address and a cleaned display
/// name, which may be empty.
#[derive(Debug)]
pub struct AddressPair {
    pub address: String,
    pub display_name: String,
}

/// The mathematical value of an `AddressPair`.
pub struct PairView {
    pub address: Seq<char>,
    pub display_name: Seq<char>,
}

impl View for AddressPair {
    type V = PairView;

    open spec fn view(&self) -> PairView {
        PairView { address: self.address@, display_name: self.display_name@ }
    }
}

impl DeepView for AddressPair {
    type V = PairView;

    open spec fn deep_view(&self) -> PairView {
        self@
    }
}

/// A trimmed, ASCII lower-cased address.
pub open spec fn normalize_addr(s: Seq<char>) -> Seq<char> {
    lower_seq(trim_ws(s))
}

/// The characters removed from display names: quotes, backslashes, tabs.
pub open spec fn is_stripped_char(c: char) -> bool {
    c == '"' || c == '\\' || c == '\t' || c == '\''
}

/// The sequence with every stripped character removed.
pub open spec fn keep_chars(s: Seq<char>) -> Seq<char>
    decreases s.len(),
{
    if s.len() == 0 {
        Seq::empty()
    } else if is_stripped_char(s.last()) {
        keep_chars(s.drop_last())
    } else {
        keep_chars(s.drop_last()).push(s.last())
    }
}

/// `c` occurs in `s`.
pub open spec fn contains_char(s: Seq<char>, c: char) -> bool {
    exists|i: int| 0 <= i < s.len() && s[i] == c
}

/// A cleaned display name: quoting characters removed, surrounding
/// whitespace trimmed; a "name" that still holds an `@` is really a
/// second address and is dropped entirely.
pub open spec fn clean_name(s: Seq<char>) -> Seq<char> {
    let t = trim_ws(keep_chars(s));
    if contains_char(t, '@') {
        Seq::empty()
    } else {
        t
    }
}

/// Minimal `local@domain` shape: an `@` with at least one character on
/// each side.
pub open spec fn addr_shape(s: Seq<char>) -> bool {
    exists|i: int| 0 < i && i + 1 < s.len() && s[i] == '@'
}

proof fn lemma_contains_char_push(s: Seq<char>, c: char, x: char)
    ensures
        contains_char(s.push(c), x) == (contains_char(s, x) || c == x),
{
    if contains_char(s, x) {
        let i = choose|i: int| 0 <= i < s.len() && s[i] == x;
        assert(s.push(c)[i] == x);
    }
    if c == x {
        assert(s.push(c)[s.len() as int] == x);
    }
    if contains_char(s.push(c), x) {
        let i = choose|i: int| 0 <= i < s.push(c).len() && s.push(c)[i] == x;
        if i < s.len() {
            assert(s[i] == x);
        }
    }
}

/// Trim surrounding whitespace and ASCII lower-case an address.
pub fn normalized_address(addr: &str) -> (r: String)
    ensures
        r@ == normalize_addr(addr@),
{
    let n = addr.unicode_len();
    proof {
        assert(addr@.subrange(0, n as int) =~= addr@);
    }
    let mut a: usize = 0;
    while a < n && is_space_char(addr.get_char(a))
        invariant
            a <= n,
            n == addr@.len(),
            trim_front(addr@.subrange(a as int, n as int)) == trim_front(addr@),
        decreases n - a,
    {
        proof {
            assert(addr@.subrange(a as int, n as int).drop_first() =~= addr@.subrange(
                a + 1,
                n as int,
            ));
        }
        a = a + 1;
    }
    proof {
        assert(addr@.subrange(a as int, n as int) == trim_front(addr@));
    }
    let mut b: usize = n;
    while b > a && is_space_char(addr.get_char(b - 1))
        invariant
            a <= b <= n,
            n == addr@.len(),
            trim_back(addr@.subrange(a as int, b as int)) == trim_ws(addr@),
        decreases b,
    {
        proof {
            assert(addr@.subrange(a as int, b as int).drop_last() =~= addr@.subrange(
                a as int,
                b - 1,
            ));
        }
        b = b - 1;
    }
    proof {
        assert(addr@.subrange(a as int, b as int) == trim_ws(addr@));
    }
    let mut out = String::new();
    let mut i: usize = a;
    while i < b
        invariant
            a <= i <= b <= n,
            n == addr@.len(),
            out@ == lower_seq(addr@.subrange(a as int, i as int)),
            addr@.subrange(a as int, b as int) == trim_ws(addr@),
        decreases b - i,
    {
        let c = ascii_lower(addr.get_char(i));
        push_char(&mut out, c);
        proof {
            assert(addr@.subrange(a as int, i + 1) =~= addr@.subrange(a as int, i as int).push(
                addr@[i as int],
            ));
            lemma_lower_seq_push(addr@.subrange(a as int, i as int), addr@[i as int]);
        }
        i = i + 1;
    }
    out
}

/// Remove quoting characters, trim, and drop a display name that still
/// holds an `@`.
pub fn clean_display_name(name: &str) -> (r: String)
    ensures
        r@ == clean_name(name@),
{
    let n = name.unicode_len();
    let mut kept: Vec<char> = Vec::new();
    let mut i: usize = 0;
    while i < n
        invariant
            i <= n,
            n == name@.len(),
            kept@ == keep_chars(name@.subrange(0, i as int)),
        decreases n - i,
    {
        let c = name.get_char(i);
        proof {
            assert(name@.subrange(0, i + 1).drop_last() =~= name@.subrange(0, i as int));
            assert(name@.subrange(0, i + 1).last() == name@[i as int]);
        }
        if !(c == '"' || c == '\\' || c == '\t' || c == '\'') {
            kept.push(c);
        }
        i = i + 1;
    }
    proof {
        assert(name@.subrange(0, n as int) =~= name@);
    }
    let m = kept.len();
    proof {
        assert(kept@.subrange(0, m as int) =~= kept@);
    }
    let mut a: usize = 0;
    while a < m && is_space_char(kept[a])
        invariant
            a <= m,
            m == kept@.len(),
            trim_front(kept@.subrange(a as int, m as int)) == trim_front(kept@),
        decreases m - a,
    {
        proof {
            assert(kept@.subrange(a as int, m as int).drop_first() =~= kept@.subrange(
                a + 1,
                m as int,
            ));
        }
        a = a + 1;
    }
    proof {
        assert(kept@.subrange(a as int, m as int) == trim_front(kept@));
    }
    let mut b: usize = m;
    while b > a && is_space_char(kept[b - 1])
        invariant
            a <= b <= m,
            m == kept@.len(),
            trim_back(kept@.subrange(a as int, b as int)) == trim_ws(kept@),
        decreases b,
    {
        proof {
            assert(kept@.subrange(a as int, b as int).drop_last() =~= kept@.subrange(
                a as int,
                b - 1,
            ));
        }
        b = b - 1;
    }
    proof {
        assert(kept@.subrange(a as int, b as int) == trim_ws(kept@));
    }
    let mut has_at = false;
    let mut j: usize = a;
    while j < b
        invariant
            a <= j <= b <= m,
            m == kept@.len(),
            has_at == contains_char(kept@.subrange(a as int, j as int), '@'),
        decreases b - j,
    {
        proof {
            assert(kept@.subrange(a as int, j + 1) =~= kept@.subrange(a as int, j as int).push(
                kept@[j as int],
            ));
            lemma_contains_char_push(kept@.subrange(a as int, j as int), kept@[j as int], '@');
        }
        if kept[j] == '@' {
            has_at = true;
        }
        j = j + 1;
    }
    if has_at {
        String::new()
    } else {
        let mut out = String::new();
        let mut k: usize = a;
        while k < b
            invariant
                a <= k <= b <= m,
                m == kept@.len(),
                out@ == kept@.subrange(a as int, k as int),
            decreases b - k,
        {
            push_char(&mut out, kept[k]);
            proof {
                assert(kept@.subrange(a as int, k + 1) =~= kept@.subrange(a as int, k as int).push(
                    kept@[k as int],
                ));
            }
            k = k + 1;
        }
        out
    }
}

/// Every character is its own ASCII lower-casing.
pub open spec fn is_lower_seq(s: Seq<char>) -> bool {
    forall|i: int| 0 <= i < s.len() ==> s[i] == lower_char(s[i])
}

/// A normalized pair: the address is lower-case and has no leading or
/// trailing whitespace.
pub open spec fn pair_normalized(p: PairView) -> bool {
    &&& is_lower_seq(p.address)
    &&& p.address.len() > 0 ==> !is_space(p.address[0]) && !is_space(p.address.last())
}

proof fn lemma_lower_char_props(c: char)
    ensures
        lower_char(lower_char(c)) == lower_char(c),
        is_space(lower_char(c)) == is_space(c),
{
}

proof fn lemma_normalize_addr_normalized(s: Seq<char>)
    ensures
        pair_normalized(PairView { address: normalize_addr(s), display_name: Seq::empty() }),
{
    crate::text::lemma_trim_ws_no_edge_space(s);
    let t = trim_ws(s);
    assert forall|i: int| 0 <= i < normalize_addr(s).len() implies normalize_addr(s)[i]
        == lower_char(normalize_addr(s)[i]) by {
        assert(normalize_addr(s)[i] == lower_char(t[i]));
        lemma_lower_char_props(t[i]);
    }
    if t.len() > 0 {
        lemma_lower_char_props(t[0]);
        lemma_lower_char_props(t.last());
        assert(normalize_addr(s)[0] == lower_char(t[0]));
        assert(normalize_addr(s).last() == lower_char(t.last()));
    }
}

proof fn lemma_pairs_of_normalized(mbs: Seq<MailboxView>)
    ensures
        forall|i: int|
            0 <= i < pairs_of(mbs).len() ==> #[trigger] pair_normalized(pairs_of(mbs)[i]),
    decreases mbs.len(),
{
    if mbs.len() > 0 {
        lemma_pairs_of_normalized(mbs.drop_last());
        match mbs.last() {
            MailboxView::Single { display_name, address } => {
                lemma_normalize_addr_normalized(address);
            },
            MailboxView::Group => {},
        }
        let prev = pairs_of(mbs.drop_last());
        let tailp = pair_of(mbs.last());
        assert forall|i: int| 0 <= i < pairs_of(mbs).len() implies #[trigger] pair_normalized(
            pairs_of(mbs)[i],
        ) by {
            if i < prev.len() {
                assert(pairs_of(mbs)[i] == prev[i]);
            } else {
                assert(pairs_of(mbs)[i] == tailp[i - prev.len()]);
            }
        }
    }
}

/// Every extracted pair has a lower-case address free of surrounding
/// whitespace.
pub proof fn lemma_extract_normalized(s: Seq<char>)
    ensures
        forall|i: int|
            0 <= i < extract_model(s).len() ==> #[trigger] pair_normalized(extract_model(s)[i]),
{
    match split_mailboxes(s) {
        None => {},
        Some(mbs) => {
            lemma_pairs_of_normalized(mbs);
        },
    }
}

/// One entry of a parsed mailbox list, as the splitting step hands it
/// over: either a single mailbox or a named group of mailboxes.
pub enum Mailbox {
    Single { display_name: Option<String>, address: String },
    Group { name: String, members: Vec<(Option<String>, String)> },
}

/// The mathematical value of a `Mailbox`. Groups carry no data here:
/// extraction ignores them, as only single mailboxes name a contact.
pub enum MailboxView {
    Single { display_name: Option<Seq<char>>, address: Seq<char> },
    Group,
}

impl View for Mailbox {
    type V = MailboxView;

    open spec fn view(&self) -> MailboxView {
        match self {
            Mailbox::Single { display_name, address } => MailboxView::Single {
                display_name: match display_name {
                    Some(d) => Some(d@),
                    None => None,
                },
                address: address@,
            },
            Mailbox::Group { .. } => MailboxView::Group,
        }
    }
}

impl DeepView for Mailbox {
    type V = MailboxView;

    open spec fn deep_view(&self) -> MailboxView {
        self@
    }
}

/// What splitting a raw header value into a mailbox list yields: `None`
/// when the value cannot be parsed at all, otherwise the entries in
/// order. The result depends on the header text alone.
pub uninterp spec fn split_mailboxes(s: Seq<char>) -> Option<Seq<MailboxView>>;

/// Relies on `mailparse::addrparse`: splits a comma-separated mailbox
/// list without breaking on commas inside quoted display names, and
/// yields each entry's address and optional display name.
#[verifier::external_body]
fn parse_mailbox_list(raw: &str) -> (r: Option<Vec<Mailbox>>)
    ensures
        r.deep_view() == split_mailboxes(raw@),
{
    match mailparse::addrparse(raw) {
        Err(_) => None,
        Ok(list) => Some(list.into_inner().into_iter().map(|entry| match entry {
            mailparse::MailAddr::Single(s) => Mailbox::Single {
                display_name: s.display_name,
                address: s.addr,
            },
            mailparse::MailAddr::Group(g) => Mailbox::Group {
                name: g.group_name,
                members: g.addrs.into_iter().map(|m| (m.display_name, m.addr)).collect(),
            },
        }).collect()),
    }
}

/// The pairs one parsed entry contributes: none for a group or for an
/// address without the minimal shape, else the normalized pair.
pub open spec fn pair_of(mb: MailboxView) -> Seq<PairView> {
    match mb {
        MailboxView::Group => Seq::empty(),
        MailboxView::Single { display_name, address } => {
            let a = normalize_addr(address);
            if addr_shape(a) {
                seq![
                    PairView {
                        address: a,
                        display_name: clean_name(
                            match display_name {
                                Some(d) => d,
                                None => Seq::empty(),
                            },
                        ),
                    },
                ]
            } else {
                Seq::empty()
            }
        },
    }
}

/// The pairs a whole parsed mailbox list contributes, in order.
pub open spec fn pairs_of(mbs: Seq<MailboxView>) -> Seq<PairView>
    decreases mbs.len(),
{
    if mbs.len() == 0 {
        Seq::empty()
    } else {
        pairs_of(mbs.drop_last()) + pair_of(mbs.last())
    }
}

/// What `extract` returns for a raw header value: nothing when the
/// value cannot be parsed, else the normalized pairs in header order.
pub open spec fn extract_model(s: Seq<char>) -> Seq<PairView> {
    match split_mailboxes(s) {
        None => Seq::empty(),
        Some(mbs) => pairs_of(mbs),
    }
}

/// Parse a raw header value into its normalized `(address, display
/// name)` pairs. Unparsable headers and malformed addresses yield no
/// pairs rather than an error.
pub fn extract(raw_header: &str) -> (pairs: Vec<AddressPair>)
    ensures
        pairs.deep_view() == extract_model(raw_header@),
{
    let parsed = parse_mailbox_list(raw_header);
    let mut pairs: Vec<AddressPair> = Vec::new();
    match parsed {
        None => {
            proof {
                assert(pairs.deep_view() =~= extract_model(raw_header@));
            }
            pairs
        },
        Some(mbs) => {
            let n = mbs.len();
            let mut i: usize = 0;
            while i < n
                invariant
                    i <= n,
                    n == mbs@.len(),
                    split_mailboxes(raw_header@) == Some(mbs.deep_view()),
                    pairs.deep_view() =~= pairs_of(mbs.deep_view().subrange(0, i as int)),
                decreases n - i,
            {
                let ghost prefix = mbs.deep_view().subrange(0, i as int);
                let ghost next = mbs.deep_view().subrange(0, i + 1);
                proof {
                    assert(next.drop_last() =~= prefix);
                    assert(next.last() == mbs.deep_view()[i as int]);
                }
                match &mbs[i] {
                    Mailbox::Single { display_name, address } => {
                        let a = normalized_address(address.as_str());
                        if addr_shape_ok(&a) {
                            let dn = match display_name {
                                Some(s) => clean_display_name(s.as_str()),
                                None => String::new(),
                            };
                            pairs.push(AddressPair { address: a, display_name: dn });
                        }
                    },
                    Mailbox::Group { .. } => {},
                }
                proof {
                    assert(pairs.deep_view() =~= pairs_of(next));
                }
                i = i + 1;
            }
            proof {
                assert(mbs.deep_view().subrange(0, n as int) =~= mbs.deep_view());
            }
            pairs
        },
    }
}

/// Test the minimal `local@domain` shape.
pub fn addr_shape_ok(addr: &String) -> (r: bool)
    ensures
        r == addr_shape(addr@),
{
    let n = addr.as_str().unicode_len();
    if n < 3 {
        return false;
    }
    let mut i: usize = 1;
    while i + 1 < n
        invariant
            1 <= i < n,
            n == addr@.len(),
            forall|k: int| 0 < k < i ==> addr@[k] != '@',
        decreases n - i,
    {
        if addr.as_str().get_char(i) == '@' {
            return true;
        }
        i = i + 1;
    }
    false
}

} // verus!
