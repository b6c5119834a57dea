//! Ranking of the aggregated contacts.
//!
//! Entries are sorted by occurrence count, highest first, with a stable
//! insertion sort: entries of equal count keep their first-sighting
//! order, which makes tie order deterministic and reproducible. Each
//! ranked contact carries the display-name variant that occurred most
//! often with its address; among equally frequent variants the one
//! sighted first wins.

use vstd::prelude::*;

use crate::aggregate::EntryView;
use crate::aggregate::MailEntry;
use crate::aggregate::addr_has;
use crate::aggregate::addr_index;
use crate::aggregate::hist_view;
use crate::text::push_char;

verus! {

/// The output unit: an address and its best display name, which is
/// empty when no variant was ever sighted.
#[derive(Debug)]
pub struct RankedContact {
    pub address: String,
    pub display_name: String,
}

/// The mathematical value of a `RankedContact`.
#[verifier::ext_equal]
pub struct RankedView {
    pub address: Seq<char>,
    pub display_name: Seq<char>,
}

impl View for RankedContact {
    type V = RankedView;

    open spec fn view(&self) -> RankedView {
        RankedView { address: self.address@, display_name: self.display_name@ }
    }
}

impl DeepView for RankedContact {
    type V = RankedView;

    open spec fn deep_view(&self) -> RankedView {
        self@
    }
}

/// `e` inserted after every entry whose count is at least as high:
/// later entries of equal count go after earlier ones.
pub open spec fn insert_model(e: EntryView, s: Seq<EntryView>) -> Seq<EntryView>
    decreases s.len(),
{
    if s.len() == 0 {
        seq![e]
    } else if s[0].count >= e.count {
        seq![s[0]] + insert_model(e, s.drop_first())
    } else {
        seq![e] + s
    }
}

/// The entries sorted by count, highest first, stably.
pub open spec fn sort_model(s: Seq<EntryView>) -> Seq<EntryView>
    decreases s.len(),
{
    if s.len() == 0 {
        Seq::empty()
    } else {
        insert_model(s.last(), sort_model(s.drop_last()))
    }
}

/// Where `insert_model` places `e`.
pub open spec fn insert_pos(e: EntryView, s: Seq<EntryView>) -> int
    decreases s.len(),
{
    if s.len() == 0 {
        0
    } else if s[0].count >= e.count {
        1 + insert_pos(e, s.drop_first())
    } else {
        0
    }
}

/// Counts are non-increasing.
pub open spec fn sorted_desc(s: Seq<EntryView>) -> bool {
    forall|i: int, j: int| 0 <= i <= j < s.len() ==> s[i].count >= s[j].count
}

/// The best bucket among the first `n` of the histogram: the highest
/// count, and among equals the earliest.
pub open spec fn best_pair(h: Seq<(Seq<char>, int)>, n: int) -> (Seq<char>, int)
    decreases n,
{
    if n <= 0 {
        (Seq::empty(), 0)
    } else {
        let prev = best_pair(h, n - 1);
        if h[n - 1].1 > prev.1 {
            h[n - 1]
        } else {
            prev
        }
    }
}

/// The display-name variant sighted most often, empty for an empty
/// histogram; equally frequent variants resolve to the earliest.
pub open spec fn best_name(h: Seq<(Seq<char>, int)>) -> Seq<char> {
    best_pair(h, h.len() as int).0
}

/// The ranked form of one entry.
pub open spec fn ranked_of(e: EntryView) -> RankedView {
    RankedView { address: e.address, display_name: best_name(e.display_names) }
}

/// What `rank` returns: the sorted entries, each reduced to its address
/// and best display name.
pub open spec fn rank_model(s: Seq<EntryView>) -> Seq<RankedView> {
    sort_model(s).map_values(|e: EntryView| ranked_of(e))
}

proof fn lemma_insert_pos_props(e: EntryView, s: Seq<EntryView>)
    ensures
        0 <= insert_pos(e, s) <= s.len(),
        forall|k: int| 0 <= k < insert_pos(e, s) ==> (#[trigger] s[k]).count >= e.count,
        insert_pos(e, s) < s.len() ==> s[insert_pos(e, s)].count < e.count,
    decreases s.len(),
{
    if s.len() > 0 && s[0].count >= e.count {
        lemma_insert_pos_props(e, s.drop_first());
        assert forall|k: int| 0 <= k < insert_pos(e, s) implies (#[trigger] s[k]).count
            >= e.count by {
            if k > 0 {
                assert(s.drop_first()[k - 1] == s[k]);
            }
        }
    }
}

proof fn lemma_insert_model_at(e: EntryView, s: Seq<EntryView>)
    ensures
        insert_model(e, s) == s.insert(insert_pos(e, s), e),
        insert_model(e, s).len() == s.len() + 1,
    decreases s.len(),
{
    lemma_insert_pos_props(e, s);
    let pos = insert_pos(e, s);
    s.insert_ensures(pos, e);
    if s.len() == 0 {
        assert(insert_model(e, s) =~= s.insert(0, e));
    } else if s[0].count >= e.count {
        lemma_insert_model_at(e, s.drop_first());
        s.drop_first().insert_ensures(pos - 1, e);
        assert(insert_model(e, s) =~= s.insert(pos, e));
    } else {
        assert(insert_model(e, s) =~= s.insert(0, e));
    }
}

proof fn lemma_insert_sorted(e: EntryView, s: Seq<EntryView>)
    requires
        sorted_desc(s),
    ensures
        sorted_desc(insert_model(e, s)),
{
    lemma_insert_pos_props(e, s);
    lemma_insert_model_at(e, s);
    let pos = insert_pos(e, s);
    let r = s.insert(pos, e);
    s.insert_ensures(pos, e);
    assert forall|i: int, j: int| 0 <= i <= j < r.len() implies r[i].count >= r[j].count by {
        if i < pos && j < pos {
        } else if i == pos && j == pos {
        } else if i < pos && j == pos {
            assert(r[i] == s[i]);
        } else if i < pos && j > pos {
            assert(r[i] == s[i] && r[j] == s[j - 1]);
            assert(s[i].count >= s[pos].count);
        } else if i == pos && j > pos {
            assert(r[j] == s[j - 1]);
            assert(s[pos].count < e.count);
            assert(s[pos].count >= s[j - 1].count);
        } else {
            assert(r[i] == s[i - 1] && r[j] == s[j - 1]);
        }
    }
}

proof fn lemma_insert_multiset(e: EntryView, s: Seq<EntryView>)
    ensures
        insert_model(e, s).to_multiset() =~= s.to_multiset().insert(e),
{
    broadcast use vstd::seq_lib::group_to_multiset_ensures;
    broadcast use vstd::multiset::group_multiset_axioms;

    lemma_insert_model_at(e, s);
    let pos = insert_pos(e, s);
    lemma_insert_pos_props(e, s);
    let r = s.insert(pos, e);
    s.insert_ensures(pos, e);
    assert(r.remove(pos) =~= s);
    assert(r.remove(pos).to_multiset() =~= r.to_multiset().remove(r[pos]));
    assert(r[pos] == e);
    assert(r.contains(e));
    assert(r.to_multiset().count(e) > 0);
    assert forall|v: EntryView| r.to_multiset().count(v) == s.to_multiset().insert(e).count(
        v,
    ) by {
        if v == e {
            assert(s.to_multiset().count(e) == r.to_multiset().remove(e).count(e));
        } else {
            assert(s.to_multiset().count(v) == r.to_multiset().remove(e).count(v));
        }
    }
}

proof fn lemma_addr_index_insert(s: Seq<EntryView>, pos: int, e: EntryView, a: Seq<char>)
    requires
        0 <= pos <= s.len(),
        e.address != a,
    ensures
        addr_has(s.insert(pos, e), a) == addr_has(s, a),
        addr_has(s, a) ==> addr_index(s.insert(pos, e), a) == (if addr_index(s, a) < pos {
            addr_index(s, a)
        } else {
            addr_index(s, a) + 1
        }),
    decreases s.len(),
{
    s.insert_ensures(pos, e);
    crate::aggregate::lemma_addr_index_props(s, a);
    let r = s.insert(pos, e);
    if pos == 0 {
        assert(r[0] == e);
        assert(r.drop_first() =~= s);
        assert(addr_has(r, a) == addr_has(s, a));
        assert(addr_index(r, a) == 1 + addr_index(s, a));
    } else {
        assert(r[0] == s[0]);
        assert(r.drop_first() =~= s.drop_first().insert(pos - 1, e)) by {
            s.drop_first().insert_ensures(pos - 1, e);
            assert(r.drop_first().len() == s.drop_first().insert(pos - 1, e).len());
        }
        lemma_addr_index_insert(s.drop_first(), pos - 1, e, a);
        if s[0].address == a {
            assert(addr_index(r, a) == 0);
            assert(addr_index(s, a) == 0);
        } else {
            assert(addr_index(r, a) == 1 + addr_index(r.drop_first(), a));
            assert(addr_index(s, a) == 1 + addr_index(s.drop_first(), a));
            assert(addr_has(s, a) == addr_has(s.drop_first(), a));
        }
    }
}

proof fn lemma_addr_index_insert_self(s: Seq<EntryView>, pos: int, e: EntryView)
    requires
        0 <= pos <= s.len(),
        !addr_has(s, e.address),
    ensures
        addr_has(s.insert(pos, e), e.address),
        addr_index(s.insert(pos, e), e.address) == pos,
    decreases s.len(),
{
    s.insert_ensures(pos, e);
    let r = s.insert(pos, e);
    if pos == 0 {
        assert(r[0] == e);
    } else {
        assert(s.len() > 0);
        assert(s[0].address != e.address);
        assert(r[0] == s[0]);
        assert(r.drop_first() =~= s.drop_first().insert(pos - 1, e)) by {
            s.drop_first().insert_ensures(pos - 1, e);
        }
        lemma_addr_index_insert_self(s.drop_first(), pos - 1, e);
    }
}

/// The sort touches no entry: an address has an entry after sorting
/// exactly when it had one before, and it is the same entry.
pub proof fn lemma_sort_entries(s: Seq<EntryView>)
    requires
        forall|p: int, q: int| 0 <= p < q < s.len() ==> s[p].address != s[q].address,
    ensures
        forall|p: int, q: int|
            0 <= p < q < sort_model(s).len() ==> sort_model(s)[p].address != sort_model(
                s,
            )[q].address,
        forall|a: Seq<char>| #[trigger] addr_has(sort_model(s), a) == addr_has(s, a),
        forall|a: Seq<char>|
            #[trigger] addr_has(s, a) ==> sort_model(s)[addr_index(sort_model(s), a)] == s[
            addr_index(s, a)],
    decreases s.len(),
{
    if s.len() > 0 {
        let tail = s.drop_last();
        let e = s.last();
        let acc = sort_model(tail);
        let r = sort_model(s);
        assert(forall|p: int, q: int|
            0 <= p < q < tail.len() ==> tail[p].address != tail[q].address);
        lemma_sort_entries(tail);
        lemma_insert_model_at(e, acc);
        lemma_insert_pos_props(e, acc);
        let pos = insert_pos(e, acc);
        assert(!addr_has(tail, e.address)) by {
            crate::aggregate::lemma_addr_index_props(tail, e.address);
            if addr_has(tail, e.address) {
                let k = addr_index(tail, e.address);
                assert(s[k].address == s[s.len() - 1].address);
            }
        }
        assert(!addr_has(acc, e.address));
        lemma_addr_index_insert_self(acc, pos, e);
        assert forall|a: Seq<char>| #[trigger] addr_has(r, a) == addr_has(s, a) by {
            crate::aggregate::lemma_addr_index_push(tail, e, a);
            assert(tail.push(e) =~= s);
            if a == e.address {
            } else {
                lemma_addr_index_insert(acc, pos, e, a);
            }
        }
        assert forall|a: Seq<char>| #[trigger] addr_has(s, a) implies r[addr_index(r, a)] == s[
        addr_index(s, a)] by {
            crate::aggregate::lemma_addr_index_push(tail, e, a);
            assert(tail.push(e) =~= s);
            acc.insert_ensures(pos, e);
            if a == e.address {
                assert(r[addr_index(r, a)] == e);
                assert(addr_index(s, a) == tail.len());
            } else {
                lemma_addr_index_insert(acc, pos, e, a);
                assert(addr_has(tail, a) == addr_has(s, a));
                assert(addr_has(acc, a));
                crate::aggregate::lemma_addr_index_props(acc, a);
                crate::aggregate::lemma_addr_index_props(tail, a);
                let pa = addr_index(acc, a);
                if pa < pos {
                    assert(r[pa] == acc[pa]);
                    assert(addr_index(r, a) == pa);
                } else {
                    assert(r[pa + 1] == acc[pa]);
                    assert(addr_index(r, a) == pa + 1);
                }
                assert(acc[pa] == tail[addr_index(tail, a)]);
                assert(addr_index(s, a) == addr_index(tail, a));
                assert(s[addr_index(s, a)] == tail[addr_index(tail, a)]);
            }
        }
        assert forall|p: int, q: int| 0 <= p < q < r.len() implies r[p].address != r[q].address by {
            acc.insert_ensures(pos, e);
            crate::aggregate::lemma_addr_index_props(acc, e.address);
            if p < pos && q < pos {
            } else if p < pos && q == pos {
                assert(r[p] == acc[p]);
                assert(acc[p].address != e.address) by {
                    if acc[p].address == e.address {
                        assert(addr_has(acc, e.address)) by {
                            crate::aggregate::lemma_addr_index_props(acc, acc[p].address);
                        }
                    }
                }
            } else if p == pos && q > pos {
                assert(r[q] == acc[q - 1]);
                if acc[q - 1].address == e.address {
                    assert(addr_has(acc, e.address)) by {
                        crate::aggregate::lemma_addr_index_props(acc, acc[q - 1].address);
                    }
                }
            } else if p < pos && q > pos {
                assert(r[p] == acc[p] && r[q] == acc[q - 1]);
            } else {
                assert(r[p] == acc[p - 1] && r[q] == acc[q - 1]);
            }
        }
    }
}

/// Entries of equal count keep their first-sighting order: the sort is
/// stable, so tie order is deterministic and reproducible. More
/// generally, an entry counted at least as often as a later one stays
/// in front of it.
pub proof fn lemma_sort_stable(s: Seq<EntryView>, i: int, j: int)
    requires
        forall|p: int, q: int| 0 <= p < q < s.len() ==> s[p].address != s[q].address,
        0 <= i < j < s.len(),
        s[i].count >= s[j].count,
    ensures
        addr_has(sort_model(s), s[i].address),
        addr_has(sort_model(s), s[j].address),
        addr_index(sort_model(s), s[i].address) < addr_index(sort_model(s), s[j].address),
    decreases s.len(),
{
    let tail = s.drop_last();
    let e = s.last();
    let acc = sort_model(tail);
    let r = sort_model(s);
    assert(forall|p: int, q: int| 0 <= p < q < tail.len() ==> tail[p].address != tail[q].address);
    lemma_sort_entries(s);
    lemma_sort_entries(tail);
    lemma_sort_props(tail);
    lemma_insert_model_at(e, acc);
    lemma_insert_pos_props(e, acc);
    let pos = insert_pos(e, acc);
    assert(!addr_has(tail, e.address)) by {
        crate::aggregate::lemma_addr_index_props(tail, e.address);
        if addr_has(tail, e.address) {
            let k = addr_index(tail, e.address);
            assert(s[k].address == s[s.len() - 1].address);
        }
    }
    assert(!addr_has(acc, e.address));
    lemma_addr_index_insert_self(acc, pos, e);
    if j == s.len() - 1 {
        let a = s[i].address;
        assert(addr_has(tail, a)) by {
            crate::aggregate::lemma_addr_index_props(tail, a);
            crate::aggregate::lemma_addr_index_push(tail, e, a);
            assert(tail.push(e) =~= s);
            assert(addr_has(s, a)) by {
                if !addr_has(s, a) {
                    crate::aggregate::lemma_addr_index_props(s, a);
                }
            }
        }
        let pa = addr_index(acc, a);
        crate::aggregate::lemma_addr_index_props(acc, a);
        assert(acc[pa] == tail[addr_index(tail, a)]);
        assert(addr_index(tail, a) == i) by {
            crate::aggregate::lemma_addr_index_props(tail, a);
            assert(tail[i].address == a);
        }
        assert(acc[pa].count == s[i].count);
        assert(pa < pos) by {
            if pa >= pos {
                assert(pos < acc.len());
                assert(acc[pos].count < e.count);
                assert(acc[pa].count <= acc[pos].count);
            }
        }
        lemma_addr_index_insert(acc, pos, e, a);
        assert(addr_index(r, a) == pa);
        assert(addr_index(r, e.address) == pos);
    } else {
        lemma_sort_stable(tail, i, j);
        let a = s[i].address;
        let b = s[j].address;
        assert(tail[i].address == a && tail[j].address == b);
        let pa = addr_index(acc, a);
        let pb = addr_index(acc, b);
        assert(a != b);
        assert(e.address != a);
        assert(e.address != b);
        lemma_addr_index_insert(acc, pos, e, a);
        lemma_addr_index_insert(acc, pos, e, b);
        assert(addr_has(s, a)) by {
            crate::aggregate::lemma_addr_index_push(tail, e, a);
            assert(tail.push(e) =~= s);
        }
        assert(addr_has(s, b)) by {
            crate::aggregate::lemma_addr_index_push(tail, e, b);
            assert(tail.push(e) =~= s);
        }
    }
}

/// The sort leaves counts non-increasing and permutes the entries:
/// nothing is lost, added, or changed.
pub proof fn lemma_sort_props(s: Seq<EntryView>)
    ensures
        sorted_desc(sort_model(s)),
        sort_model(s).to_multiset() =~= s.to_multiset(),
        sort_model(s).len() == s.len(),
    decreases s.len(),
{
    broadcast use vstd::seq_lib::group_to_multiset_ensures;
    broadcast use vstd::multiset::group_multiset_axioms;

    if s.len() > 0 {
        lemma_sort_props(s.drop_last());
        lemma_insert_sorted(s.last(), sort_model(s.drop_last()));
        lemma_insert_multiset(s.last(), sort_model(s.drop_last()));
        lemma_insert_model_at(s.last(), sort_model(s.drop_last()));
        assert(s.drop_last().push(s.last()) =~= s);
        assert(s.drop_last().push(s.last()).to_multiset() =~= s.drop_last().to_multiset().insert(
            s.last(),
        ));
    }
}

fn best_display_name(h: &Vec<(String, u64)>) -> (r: String)
    ensures
        r@ == best_name(hist_view(h@)),
{
    let mut best = String::new();
    let mut bc: u64 = 0;
    let n = h.len();
    let mut i: usize = 0;
    while i < n
        invariant
            i <= n,
            n == h@.len(),
            best@ == best_pair(hist_view(h@), i as int).0,
            bc as int == best_pair(hist_view(h@), i as int).1,
        decreases n - i,
    {
        if h[i].1 > bc {
            bc = h[i].1;
            best = h[i].0.clone();
        }
        i = i + 1;
    }
    best
}

fn insert_entry(out: &mut Vec<MailEntry>, e: MailEntry)
    ensures
        final(out).deep_view() == insert_model(e@, old(out).deep_view()),
{
    let ghost sv = old(out).deep_view();
    let n = out.len();
    let mut j: usize = 0;
    while j < n && out[j].count >= e.count
        invariant
            j <= n,
            n == out@.len(),
            out@ == old(out)@,
            forall|k: int| 0 <= k < j ==> (#[trigger] out@[k]).count >= e.count,
        decreases n - j,
    {
        j = j + 1;
    }
    proof {
        lemma_insert_pos_props(e@, sv);
        assert forall|k: int| 0 <= k < j implies (#[trigger] sv[k]).count >= e@.count by {
            assert(sv[k] == out@[k]@);
        }
        if (j as int) < n as int {
            assert(sv[j as int] == out@[j as int]@);
        }
        assert(insert_pos(e@, sv) == j as int);
        lemma_insert_model_at(e@, sv);
        sv.insert_ensures(j as int, e@);
    }
    out.insert(j, e);
    proof {
        out@.insert_ensures(j as int, e);
        assert(out.deep_view() =~= sv.insert(j as int, e@));
    }
}

/// Sort the aggregated entries by count, highest first and stably, and
/// reduce each to its address and best display name.
pub fn rank(entries: Vec<MailEntry>) -> (out: Vec<RankedContact>)
    ensures
        out.deep_view() == rank_model(entries.deep_view()),
{
    let ghost orig = entries.deep_view();
    let mut rest = entries;
    let total = rest.len();
    let mut sorted: Vec<MailEntry> = Vec::new();
    let ghost n = orig.len();
    proof {
        assert(n == total as int);
        assert(rest.deep_view() =~= orig.subrange(0, n as int));
        assert(sorted.deep_view() =~= sort_model(orig.subrange(0, 0)));
    }
    let mut i: usize = 0;
    while rest.len() > 0
        invariant
            i <= n <= usize::MAX,
            n == orig.len(),
            rest.deep_view() == orig.subrange(i as int, n as int),
            sorted.deep_view() == sort_model(orig.subrange(0, i as int)),
        decreases n - i,
    {
        proof {
            assert(rest.deep_view().len() == rest@.len());
            assert(i < n);
        }
        let ghost oldseq = rest@;
        let ghost rdv = rest.deep_view();
        let e = rest.remove(0);
        let ghost pre = orig.subrange(0, i as int);
        let ghost nxt = orig.subrange(0, i as int + 1);
        proof {
            assert(rdv[0] == oldseq[0]@);
            assert(e@ == orig[i as int]);
            assert(nxt.drop_last() =~= pre);
            assert(nxt.last() == orig[i as int]);
            oldseq.remove_ensures(0);
            assert forall|t: int| 0 <= t < rest@.len() implies rest.deep_view()[t] == orig[i
                as int + 1 + t] by {
                assert(rest@[t] == oldseq[t + 1]);
                assert(rdv[t + 1] == oldseq[t + 1]@);
            }
            assert(rest.deep_view() =~= orig.subrange(i as int + 1, n as int));
        }
        insert_entry(&mut sorted, e);
        i = i + 1;
    }
    proof {
        assert(orig.subrange(0, n as int) =~= orig);
    }
    let ghost ss = sort_model(orig);
    let mut out: Vec<RankedContact> = Vec::new();
    let ghost m = ss.len();
    let mut k: usize = 0;
    proof {
        assert(out.deep_view() =~= ss.subrange(0, 0).map_values(|e: EntryView| ranked_of(e)));
    }
    proof {
        lemma_sort_props(orig);
        assert(m <= usize::MAX);
    }
    while sorted.len() > 0
        invariant
            k <= m <= usize::MAX,
            m == ss.len(),
            sorted.deep_view() == ss.subrange(k as int, m as int),
            out.deep_view() == ss.subrange(0, k as int).map_values(|e: EntryView| ranked_of(e)),
        decreases m - k,
    {
        proof {
            assert(sorted.deep_view().len() == sorted@.len());
            assert(k < m);
        }
        let ghost oldseq = sorted@;
        let ghost sdv = sorted.deep_view();
        let e = sorted.remove(0);
        proof {
            assert(sdv[0] == oldseq[0]@);
            assert(e@ == ss[k as int]);
            oldseq.remove_ensures(0);
            assert forall|t: int| 0 <= t < sorted@.len() implies sorted.deep_view()[t] == ss[k
                as int + 1 + t] by {
                assert(sorted@[t] == oldseq[t + 1]);
                assert(sdv[t + 1] == oldseq[t + 1]@);
            }
            assert(sorted.deep_view() =~= ss.subrange(k as int + 1, m as int));
        }
        let best = best_display_name(&e.display_names);
        let ghost ev = e@;
        let ghost bestg = best@;
        let ghost odeep = out.deep_view();
        out.push(RankedContact { address: e.address, display_name: best });
        proof {
            assert(ev == ss[k as int]);
            assert(bestg == best_name(ev.display_names));
            assert(out.deep_view().last() =~= ranked_of(ss[k as int]));
            assert(out.deep_view() =~= odeep.push(ranked_of(ss[k as int])));
            assert(ss.subrange(0, k as int + 1).map_values(|x: EntryView| ranked_of(x))
                =~= odeep.push(ranked_of(ss[k as int])));
        }
        k = k + 1;
    }
    proof {
        assert(ss.subrange(0, m as int) =~= ss);
        assert(out.deep_view() =~= rank_model(orig));
    }
    out
}

/// One output line: the display name, a tab, and the address — or the
/// address alone when no display name was ever sighted.
pub open spec fn format_model(c: RankedView) -> Seq<char> {
    if c.display_name.len() == 0 {
        c.address
    } else {
        c.display_name + seq!['\t'] + c.address
    }
}

/// Render one ranked contact as its output line.
pub fn format_contact(c: &RankedContact) -> (line: String)
    ensures
        line@ == format_model(c@),
{
    if c.display_name.as_str().is_empty() {
        c.address.clone()
    } else {
        let mut line = c.display_name.clone();
        push_char(&mut line, '\t');
        line.append(c.address.as_str());
        proof {
            assert(c.display_name@.push('\t') + c.address@ =~= c.display_name@ + seq!['\t']
                + c.address@);
        }
        line
    }
}

} // verus!
