//! Per-address aggregation of relevant pairs.
//!
//! Each distinct address gets one entry holding how often it occurred
//! and a histogram of the display-name variants seen with it. Entries
//! are kept in first-sighting order in a vector with unique addresses,
//! which stands in for a mapping keyed by address.

use vstd::prelude::*;

use crate::extract::AddressPair;
use crate::extract::PairView;
use crate::relevance::is_relevant;
use crate::relevance::relevant;

verus! {

/// One aggregated contact: an address, how often it occurred, and how
/// often each display-name variant occurred with it.
#[derive(Debug)]
pub struct MailEntry {
    pub address: String,
    pub count: u64,
    pub display_names: Vec<(String, u64)>,
}

/// The mathematical value of a `MailEntry`.
#[verifier::ext_equal]
pub struct EntryView {
    pub address: Seq<char>,
    pub count: int,
    pub display_names: Seq<(Seq<char>, int)>,
}

/// The mathematical value of a histogram vector.
pub open spec fn hist_view(h: Seq<(String, u64)>) -> Seq<(Seq<char>, int)> {
    h.map_values(|p: (String, u64)| (p.0@, p.1 as int))
}

impl View for MailEntry {
    type V = EntryView;

    open spec fn view(&self) -> EntryView {
        EntryView {
            address: self.address@,
            count: self.count as int,
            display_names: hist_view(self.display_names@),
        }
    }
}

impl DeepView for MailEntry {
    type V = EntryView;

    open spec fn deep_view(&self) -> EntryView {
        self@
    }
}

/// The index of `name` in the histogram, or its length when absent.
pub open spec fn hist_index(h: Seq<(Seq<char>, int)>, name: Seq<char>) -> int
    decreases h.len(),
{
    if h.len() == 0 {
        0
    } else if h[0].0 == name {
        0
    } else {
        1 + hist_index(h.drop_first(), name)
    }
}

/// Whether the histogram has a bucket for `name`.
pub open spec fn hist_has(h: Seq<(Seq<char>, int)>, name: Seq<char>) -> bool
    decreases h.len(),
{
    if h.len() == 0 {
        false
    } else if h[0].0 == name {
        true
    } else {
        hist_has(h.drop_first(), name)
    }
}

/// The sum of all histogram buckets.
pub open spec fn hist_sum(h: Seq<(Seq<char>, int)>) -> int
    decreases h.len(),
{
    if h.len() == 0 {
        0
    } else {
        hist_sum(h.drop_last()) + h.last().1
    }
}

/// The histogram after one more sighting of `name`: its bucket grows by
/// one, or starts at one.
pub open spec fn bump_hist(h: Seq<(Seq<char>, int)>, name: Seq<char>) -> Seq<(Seq<char>, int)> {
    if hist_has(h, name) {
        let i = hist_index(h, name);
        h.update(i, (name, h[i].1 + 1))
    } else {
        h.push((name, 1))
    }
}

/// The index of `addr` among the entries, or their number when absent.
pub open spec fn addr_index(s: Seq<EntryView>, addr: Seq<char>) -> int
    decreases s.len(),
{
    if s.len() == 0 {
        0
    } else if s[0].address == addr {
        0
    } else {
        1 + addr_index(s.drop_first(), addr)
    }
}

/// Whether some entry holds `addr`.
pub open spec fn addr_has(s: Seq<EntryView>, addr: Seq<char>) -> bool
    decreases s.len(),
{
    if s.len() == 0 {
        false
    } else if s[0].address == addr {
        true
    } else {
        addr_has(s.drop_first(), addr)
    }
}

/// The entries after one relevant sighting of `p`: the entry for its
/// address grows by one (the histogram too, when the display name is
/// non-empty), or a fresh entry with count one is appended.
pub open spec fn record_model(s: Seq<EntryView>, p: PairView) -> Seq<EntryView> {
    if addr_has(s, p.address) {
        let j = addr_index(s, p.address);
        s.update(
            j,
            EntryView {
                address: s[j].address,
                count: s[j].count + 1,
                display_names: if p.display_name.len() == 0 {
                    s[j].display_names
                } else {
                    bump_hist(s[j].display_names, p.display_name)
                },
            },
        )
    } else {
        s.push(
            EntryView {
                address: p.address,
                count: 1,
                display_names: if p.display_name.len() == 0 {
                    Seq::empty()
                } else {
                    seq![(p.display_name, 1)]
                },
            },
        )
    }
}

/// The entries after aggregating every relevant pair, in order.
pub open spec fn aggregate_model(pairs: Seq<PairView>, name: Seq<char>) -> Seq<EntryView>
    decreases pairs.len(),
{
    if pairs.len() == 0 {
        Seq::empty()
    } else {
        let prev = aggregate_model(pairs.drop_last(), name);
        if relevant(pairs.last(), name) {
            record_model(prev, pairs.last())
        } else {
            prev
        }
    }
}

/// How many of the pairs are relevant and carry `addr`.
pub open spec fn count_rel(pairs: Seq<PairView>, name: Seq<char>, addr: Seq<char>) -> int
    decreases pairs.len(),
{
    if pairs.len() == 0 {
        0
    } else {
        count_rel(pairs.drop_last(), name, addr) + if relevant(pairs.last(), name)
            && pairs.last().address == addr {
            1int
        } else {
            0int
        }
    }
}

/// A well-formed histogram: unique, non-empty keys and positive counts.
pub open spec fn hist_wf(h: Seq<(Seq<char>, int)>) -> bool {
    &&& forall|i: int, j: int| 0 <= i < j < h.len() ==> h[i].0 != h[j].0
    &&& forall|i: int| 0 <= i < h.len() ==> (#[trigger] h[i]).0.len() > 0 && h[i].1 >= 1
}

/// A well-formed entry: it was sighted at least once, its histogram is
/// well formed, no variant outnumbers the address, and the histogram
/// counts sum to at most the address count.
pub open spec fn entry_wf(e: EntryView) -> bool {
    &&& e.count >= 1
    &&& hist_wf(e.display_names)
    &&& forall|t: int|
        0 <= t < e.display_names.len() ==> (#[trigger] e.display_names[t]).1 <= e.count
    &&& hist_sum(e.display_names) <= e.count
}

/// Well-formed entries: unique addresses, each entry well formed.
pub open spec fn entries_wf(s: Seq<EntryView>) -> bool {
    &&& forall|i: int, j: int| 0 <= i < j < s.len() ==> s[i].address != s[j].address
    &&& forall|i: int| 0 <= i < s.len() ==> entry_wf(#[trigger] s[i])
}

proof fn lemma_hist_index_props(h: Seq<(Seq<char>, int)>, name: Seq<char>)
    ensures
        0 <= hist_index(h, name) <= h.len(),
        hist_has(h, name) <==> hist_index(h, name) < h.len(),
        hist_has(h, name) ==> h[hist_index(h, name)].0 == name,
        forall|k: int| 0 <= k < hist_index(h, name) ==> (#[trigger] h[k]).0 != name,
    decreases h.len(),
{
    if h.len() > 0 && h[0].0 != name {
        lemma_hist_index_props(h.drop_first(), name);
        assert forall|k: int| 0 <= k < hist_index(h, name) implies (#[trigger] h[k]).0 != name by {
            if k > 0 {
                assert(h.drop_first()[k - 1] == h[k]);
            }
        }
    }
}

pub proof fn lemma_addr_index_props(s: Seq<EntryView>, addr: Seq<char>)
    ensures
        0 <= addr_index(s, addr) <= s.len(),
        addr_has(s, addr) <==> addr_index(s, addr) < s.len(),
        addr_has(s, addr) ==> s[addr_index(s, addr)].address == addr,
        forall|k: int| 0 <= k < addr_index(s, addr) ==> (#[trigger] s[k]).address != addr,
    decreases s.len(),
{
    if s.len() > 0 && s[0].address != addr {
        lemma_addr_index_props(s.drop_first(), addr);
        assert forall|k: int| 0 <= k < addr_index(s, addr) implies (#[trigger] s[k]).address
            != addr by {
            if k > 0 {
                assert(s.drop_first()[k - 1] == s[k]);
            }
        }
    }
}

proof fn lemma_addr_index_congruence(s1: Seq<EntryView>, s2: Seq<EntryView>, addr: Seq<char>)
    requires
        s1.len() == s2.len(),
        forall|i: int| 0 <= i < s1.len() ==> (#[trigger] s1[i]).address == s2[i].address,
    ensures
        addr_index(s1, addr) == addr_index(s2, addr),
        addr_has(s1, addr) == addr_has(s2, addr),
    decreases s1.len(),
{
    if s1.len() > 0 {
        lemma_addr_index_congruence(s1.drop_first(), s2.drop_first(), addr);
    }
}

pub proof fn lemma_addr_index_push(s: Seq<EntryView>, e: EntryView, addr: Seq<char>)
    ensures
        addr_has(s.push(e), addr) == (addr_has(s, addr) || e.address == addr),
        addr_index(s.push(e), addr) == if addr_has(s, addr) {
            addr_index(s, addr)
        } else if e.address == addr {
            s.len() as int
        } else {
            s.len() + 1int
        },
    decreases s.len(),
{
    if s.len() == 0 {
        assert(s.push(e).len() == 1);
        assert(s.push(e)[0] == e);
        assert(s.push(e).drop_first() =~= Seq::<EntryView>::empty());
        assert(!addr_has(Seq::<EntryView>::empty(), addr));
        assert(addr_index(Seq::<EntryView>::empty(), addr) == 0);
    } else {
        assert(s.push(e)[0] == s[0]);
        assert(s.push(e).drop_first() =~= s.drop_first().push(e));
        lemma_addr_index_push(s.drop_first(), e, addr);
    }
}

proof fn lemma_hist_sum_update(h: Seq<(Seq<char>, int)>, i: int, v: (Seq<char>, int))
    requires
        0 <= i < h.len(),
    ensures
        hist_sum(h.update(i, v)) == hist_sum(h) - h[i].1 + v.1,
    decreases h.len(),
{
    if i == h.len() - 1 {
        assert(h.update(i, v).drop_last() =~= h.drop_last());
        assert(h.update(i, v).last() == v);
    } else {
        assert(h.update(i, v).drop_last() =~= h.drop_last().update(i, v));
        assert(h.update(i, v).last() == h.last());
        lemma_hist_sum_update(h.drop_last(), i, v);
    }
}

proof fn lemma_record_effects(s: Seq<EntryView>, p: PairView)
    requires
        entries_wf(s),
    ensures
        entries_wf(record_model(s, p)),
        forall|a: Seq<char>|
            #[trigger] addr_has(record_model(s, p), a) == (addr_has(s, a) || a == p.address),
        addr_has(record_model(s, p), p.address),
        record_model(s, p)[addr_index(record_model(s, p), p.address)].count == (if addr_has(
            s,
            p.address,
        ) {
            s[addr_index(s, p.address)].count + 1
        } else {
            1int
        }),
        forall|a: Seq<char>|
            a != p.address && #[trigger] addr_has(s, a) ==> addr_index(record_model(s, p), a)
                == addr_index(s, a) && record_model(s, p)[addr_index(s, a)] == s[addr_index(
                s,
                a,
            )],
        record_model(s, p).len() <= s.len() + 1,
        forall|k: int|
            0 <= k < s.len() ==> (#[trigger] record_model(s, p)[k]).count <= s[k].count + 1,
        forall|k: int|
            s.len() <= k < record_model(s, p).len() ==> (#[trigger] record_model(s, p)[k]).count
                == 1,
{
    lemma_addr_index_props(s, p.address);
    let n = record_model(s, p);
    if addr_has(s, p.address) {
        let j = addr_index(s, p.address);
        let e = s[j];
        assert(forall|i: int| 0 <= i < n.len() ==> (#[trigger] n[i]).address == s[i].address);
        assert forall|a: Seq<char>|
            #[trigger] addr_index(n, a) == addr_index(s, a) && addr_has(n, a) == addr_has(
            s,
            a,
        ) by {
            lemma_addr_index_congruence(n, s, a);
        }
        assert forall|a: Seq<char>|
            #[trigger] addr_has(n, a) == (addr_has(s, a) || a == p.address) by {
            lemma_addr_index_congruence(n, s, a);
        }
        assert forall|a: Seq<char>|
            a != p.address && #[trigger] addr_has(s, a) implies addr_index(n, a) == addr_index(
            s,
            a,
        ) && n[addr_index(s, a)] == s[addr_index(s, a)] by {
            lemma_addr_index_congruence(n, s, a);
            lemma_addr_index_props(s, a);
            assert(s[addr_index(s, a)].address == a);
            assert(addr_index(s, a) != j);
        }
        let h = e.display_names;
        let h2 = n[j].display_names;
        if p.display_name.len() > 0 {
            lemma_hist_index_props(h, p.display_name);
            if hist_has(h, p.display_name) {
                let t = hist_index(h, p.display_name);
                lemma_hist_sum_update(h, t, (p.display_name, h[t].1 + 1));
                assert(hist_wf(h2));
            } else {
                assert(h2 =~= h.push((p.display_name, 1)));
                assert(h2.drop_last() =~= h);
                assert(hist_sum(h2) == hist_sum(h) + 1);
                assert forall|i: int, k: int| 0 <= i < k < h2.len() implies h2[i].0 != h2[k].0 by {
                    if k < h.len() {
                    } else {
                        assert(h2[k].0 == p.display_name);
                        assert(h[i].0 != p.display_name);
                    }
                }
                assert(hist_wf(h2));
            }
        }
        assert(entry_wf(n[j]));
        assert forall|i: int| 0 <= i < n.len() implies entry_wf(#[trigger] n[i]) by {
            if i != j {
                assert(n[i] == s[i]);
            }
        }
    } else {
        let e = n[s.len() as int];
        assert forall|a: Seq<char>|
            #[trigger] addr_has(n, a) == (addr_has(s, a) || a == p.address) by {
            lemma_addr_index_push(s, e, a);
        }
        assert forall|a: Seq<char>|
            a != p.address && #[trigger] addr_has(s, a) implies addr_index(n, a) == addr_index(
            s,
            a,
        ) && n[addr_index(s, a)] == s[addr_index(s, a)] by {
            lemma_addr_index_push(s, e, a);
            lemma_addr_index_props(s, a);
        }
        lemma_addr_index_push(s, e, p.address);
        if p.display_name.len() > 0 {
            assert(e.display_names =~= seq![(p.display_name, 1int)]);
            assert(e.display_names.len() == 1);
            assert(e.display_names.last() == (p.display_name, 1int));
            assert(e.display_names.drop_last() =~= Seq::<(Seq<char>, int)>::empty());
            assert(hist_sum(e.display_names.drop_last()) == 0);
            assert(hist_sum(e.display_names) == 1);
        } else {
            assert(hist_sum(e.display_names) == 0);
        }
        assert(entry_wf(e));
        assert forall|i: int, k: int| 0 <= i < k < n.len() implies n[i].address != n[k].address by {
            if k < s.len() {
            } else {
                assert(n[k].address == p.address);
                assert(s[i].address != p.address);
            }
        }
        assert forall|i: int| 0 <= i < n.len() implies entry_wf(#[trigger] n[i]) by {
            if i < s.len() {
                assert(n[i] == s[i]);
            }
        }
    }
}

proof fn lemma_aggregate_props(pairs: Seq<PairView>, name: Seq<char>)
    ensures
        entries_wf(aggregate_model(pairs, name)),
        forall|a: Seq<char>|
            !addr_has(aggregate_model(pairs, name), a) ==> #[trigger] count_rel(pairs, name, a)
                == 0,
        forall|a: Seq<char>|
            #[trigger] addr_has(aggregate_model(pairs, name), a) ==> aggregate_model(
                pairs,
                name,
            )[addr_index(aggregate_model(pairs, name), a)].count == count_rel(pairs, name, a),
        forall|k: int|
            0 <= k < aggregate_model(pairs, name).len() ==> (#[trigger] aggregate_model(
                pairs,
                name,
            )[k]).count <= pairs.len(),
    decreases pairs.len(),
{
    if pairs.len() > 0 {
        lemma_aggregate_props(pairs.drop_last(), name);
        let prev = aggregate_model(pairs.drop_last(), name);
        let p = pairs.last();
        let agg = aggregate_model(pairs, name);
        if relevant(p, name) {
            assert(agg == record_model(prev, p));
            lemma_record_effects(prev, p);
            assert forall|a: Seq<char>|
                !addr_has(agg, a) implies #[trigger] count_rel(pairs, name, a) == 0 by {
                assert(!addr_has(prev, a) && a != p.address);
                assert(count_rel(pairs, name, a) == count_rel(pairs.drop_last(), name, a));
            }
            assert forall|a: Seq<char>| #[trigger] addr_has(agg, a) implies agg[addr_index(
                agg,
                a,
            )].count == count_rel(pairs, name, a) by {
                if a == p.address {
                    assert(count_rel(pairs, name, a) == count_rel(pairs.drop_last(), name, a)
                        + 1int);
                    if addr_has(prev, a) {
                    } else {
                        assert(count_rel(pairs.drop_last(), name, a) == 0);
                    }
                } else {
                    assert(count_rel(pairs, name, a) == count_rel(pairs.drop_last(), name, a));
                    if addr_has(prev, a) {
                        lemma_addr_index_props(prev, a);
                    } else {
                        assert(!addr_has(agg, a));
                    }
                }
            }
        } else {
            assert(agg == prev);
            assert forall|a: Seq<char>|
                !addr_has(agg, a) implies #[trigger] count_rel(pairs, name, a) == 0 by {
                assert(count_rel(pairs, name, a) == count_rel(pairs.drop_last(), name, a));
            }
            assert forall|a: Seq<char>| #[trigger] addr_has(agg, a) implies agg[addr_index(
                agg,
                a,
            )].count == count_rel(pairs, name, a) by {
                assert(count_rel(pairs, name, a) == count_rel(pairs.drop_last(), name, a));
            }
        }
    }
}

/// Every aggregated count is exactly the number of relevant sightings
/// of its address, and an address has an entry exactly when it was
/// sighted relevantly at least once.
pub proof fn lemma_counts_are_occurrences(pairs: Seq<PairView>, name: Seq<char>, addr: Seq<char>)
    ensures
        addr_has(aggregate_model(pairs, name), addr) <==> count_rel(pairs, name, addr) > 0,
        addr_has(aggregate_model(pairs, name), addr) ==> aggregate_model(pairs, name)[addr_index(
            aggregate_model(pairs, name),
            addr,
        )].count == count_rel(pairs, name, addr),
{
    lemma_aggregate_props(pairs, name);
    let agg = aggregate_model(pairs, name);
    if addr_has(agg, addr) {
        lemma_addr_index_props(agg, addr);
        assert(entry_wf(agg[addr_index(agg, addr)]));
    }
}

/// The aggregator is always well formed: addresses are unique, every
/// count is at least one, histogram keys are unique and never empty,
/// and histogram counts never exceed — and sum to at most — the
/// address count.
pub proof fn lemma_aggregate_wf(pairs: Seq<PairView>, name: Seq<char>)
    ensures
        entries_wf(aggregate_model(pairs, name)),
{
    lemma_aggregate_props(pairs, name);
}

/// No display-name histogram ever holds an empty key: an empty display
/// name leaves the histogram untouched.
pub proof fn lemma_histogram_no_empty_key(pairs: Seq<PairView>, name: Seq<char>)
    ensures
        forall|i: int, k: int|
            0 <= i < aggregate_model(pairs, name).len() && 0 <= k < aggregate_model(
                pairs,
                name,
            )[i].display_names.len() ==> (#[trigger] aggregate_model(
                pairs,
                name,
            )[i].display_names[k]).0.len() > 0,
{
    lemma_aggregate_props(pairs, name);
    let agg = aggregate_model(pairs, name);
    assert forall|i: int, k: int|
        0 <= i < agg.len() && 0 <= k < agg[i].display_names.len() implies (#[trigger] agg[i].display_names[k]).0.len()
        > 0 by {
        assert(entry_wf(agg[i]));
    }
}

fn bump_hist_vec(h: &mut Vec<(String, u64)>, name: &String)
    requires
        forall|i: int| 0 <= i < old(h)@.len() ==> (#[trigger] old(h)@[i]).1 < u64::MAX,
        name@.len() > 0,
    ensures
        hist_view(final(h)@) == bump_hist(hist_view(old(h)@), name@),
{
    let m = h.len();
    let mut i: usize = 0;
    while i < m
        invariant
            i <= m,
            m == h@.len(),
            h@ == old(h)@,
            forall|k: int| 0 <= k < h@.len() ==> (#[trigger] h@[k]).1 < u64::MAX,
            forall|k: int| 0 <= k < i ==> (#[trigger] hist_view(h@)[k]).0 != name@,
        decreases m - i,
    {
        if h[i].0 == *name {
            let c = h[i].1;
            let key = h[i].0.clone();
            let e = &mut h[i];
            *e = (key, c + 1);
            proof {
                let hv = hist_view(old(h)@);
                lemma_hist_index_props(hv, name@);
                assert(hv[i as int].0 == name@);
                assert(hist_has(hv, name@));
                assert(hist_index(hv, name@) == i);
                assert(hist_view(h@) =~= hv.update(i as int, (name@, hv[i as int].1 + 1)));
            }
            return;
        }
        i = i + 1;
    }
    h.push((name.clone(), 1));
    proof {
        let hv = hist_view(old(h)@);
        lemma_hist_index_props(hv, name@);
        assert(!hist_has(hv, name@));
        assert(hist_view(h@) =~= hv.push((name@, 1int)));
    }
}

/// Fold one relevant pair into the entries: the entry for its address
/// grows by one, or a fresh entry is appended.
pub fn record(entries: &mut Vec<MailEntry>, pair: &AddressPair)
    requires
        forall|i: int|
            0 <= i < old(entries)@.len() ==> (#[trigger] old(entries)@[i]).count < u64::MAX,
        forall|i: int, k: int|
            0 <= i < old(entries)@.len() && 0 <= k < old(entries)@[i].display_names@.len() ==> (
            #[trigger] old(entries)@[i].display_names@[k]).1 < u64::MAX,
    ensures
        final(entries).deep_view() == record_model(old(entries).deep_view(), pair@),
{
    let ghost sv = old(entries).deep_view();
    let n = entries.len();
    let mut j: usize = 0;
    while j < n
        invariant
            j <= n,
            n == entries@.len(),
            entries@ == old(entries)@,
            sv == old(entries).deep_view(),
            forall|i: int|
                0 <= i < old(entries)@.len() ==> (#[trigger] old(entries)@[i]).count < u64::MAX,
            forall|i: int, k: int|
                0 <= i < old(entries)@.len() && 0 <= k
                    < old(entries)@[i].display_names@.len() ==> (
                #[trigger] old(entries)@[i].display_names@[k]).1 < u64::MAX,
            forall|k: int| 0 <= k < j ==> (#[trigger] entries@[k]).address@ != pair.address@,
        decreases n - j,
    {
        if entries[j].address == pair.address {
            let c = entries[j].count;
            let has_name = !pair.display_name.as_str().is_empty();
            let e = &mut entries[j];
            e.count = c + 1;
            if has_name {
                bump_hist_vec(&mut e.display_names, &pair.display_name);
            }
            proof {
                lemma_addr_index_props(sv, pair@.address);
                assert(sv[j as int].address == pair.address@);
                assert(addr_has(sv, pair@.address));
                assert(addr_index(sv, pair@.address) == j);
                assert(entries.deep_view() =~= record_model(sv, pair@));
            }
            return;
        }
        j = j + 1;
    }
    let dn_empty = pair.display_name.as_str().is_empty();
    let mut hist: Vec<(String, u64)> = Vec::new();
    if !dn_empty {
        hist.push((pair.display_name.clone(), 1));
    }
    entries.push(MailEntry { address: pair.address.clone(), count: 1, display_names: hist });
    proof {
        lemma_addr_index_props(sv, pair@.address);
        assert(!addr_has(sv, pair@.address));
        if !dn_empty {
            assert(hist_view(hist@) =~= seq![(pair.display_name@, 1int)]);
        } else {
            assert(hist_view(hist@) =~= Seq::<(Seq<char>, int)>::empty());
        }
        assert(entries.deep_view() =~= record_model(sv, pair@));
    }
}

/// Filter the extracted pairs for relevance to the typed fragment and
/// aggregate the relevant ones per address, in harvest order.
pub fn retrieve_mail_entries(mails: Vec<AddressPair>, name: &str) -> (entries: Vec<MailEntry>)
    ensures
        entries.deep_view() == aggregate_model(mails.deep_view(), name@),
{
    let mut entries: Vec<MailEntry> = Vec::new();
    let n = mails.len();
    proof {
        assert(entries.deep_view() =~= aggregate_model(mails.deep_view().subrange(0, 0), name@));
    }
    let mut i: usize = 0;
    while i < n
        invariant
            i <= n,
            n == mails@.len(),
            entries.deep_view() == aggregate_model(mails.deep_view().subrange(0, i as int), name@),
        decreases n - i,
    {
        let ghost prefix = mails.deep_view().subrange(0, i as int);
        let ghost nextp = mails.deep_view().subrange(0, i as int + 1);
        proof {
            assert(nextp.drop_last() =~= prefix);
            assert(nextp.last() == mails.deep_view()[i as int]);
        }
        let pair = &mails[i];
        if is_relevant(pair, name) {
            proof {
                lemma_aggregate_props(prefix, name@);
                assert(usize::MAX <= u64::MAX);
                assert forall|k: int| 0 <= k < entries@.len() implies (#[trigger] entries@[k]).count
                    < u64::MAX by {
                    assert(entries.deep_view()[k] == entries@[k]@);
                    assert(entries.deep_view()[k].count <= prefix.len());
                }
                assert forall|k: int, t: int|
                    0 <= k < entries@.len() && 0 <= t
                        < entries@[k].display_names@.len() implies (#[trigger] entries@[k].display_names@[t]).1
                    < u64::MAX by {
                    assert(entries.deep_view()[k] == entries@[k]@);
                    assert(entry_wf(entries.deep_view()[k]));
                    assert(entries.deep_view()[k].display_names[t].1 <= entries.deep_view()[k].count);
                    assert(entries.deep_view()[k].count <= prefix.len());
                }
            }
            record(&mut entries, pair);
        }
        i = i + 1;
    }
    proof {
        assert(mails.deep_view().subrange(0, n as int) =~= mails.deep_view());
    }
    entries
}

} // verus!
