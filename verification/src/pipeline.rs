//! The verified core of the pipeline: from harvested raw header values
//! to the ranked contact list.
//!
//! The caller runs the search stages against the archive and collects,
//! in order, the raw value of every harvested header role. Everything
//! after that — extraction, relevance, aggregation, ranking — happens
//! here, as a pure function of those values.

use vstd::prelude::*;

use crate::aggregate::aggregate_model;
use crate::aggregate::retrieve_mail_entries;
use crate::extract::AddressPair;
use crate::extract::PairView;
use crate::extract::extract;
use crate::extract::extract_model;
use crate::rank::RankedContact;
use crate::rank::rank;
use crate::rank::rank_model;

verus! {

/// The pairs all harvested headers contribute, in harvest order.
pub open spec fn harvest_model(headers: Seq<Seq<char>>) -> Seq<PairView>
    decreases headers.len(),
{
    if headers.len() == 0 {
        Seq::empty()
    } else {
        harvest_model(headers.drop_last()) + extract_model(headers.last())
    }
}

/// What the whole pipeline returns for the harvested headers and the
/// typed fragment.
pub open spec fn pipeline_model(headers: Seq<Seq<char>>, name: Seq<char>) -> Seq<
    crate::rank::RankedView,
> {
    rank_model(aggregate_model(harvest_model(headers), name))
}

/// Run the verified part of the pipeline: extract pairs from every
/// harvested header value, keep the relevant ones, aggregate them per
/// address, and rank the result.
pub fn process_headers(headers: Vec<String>, target_name: &str) -> (out: Vec<RankedContact>)
    ensures
        out.deep_view() == pipeline_model(headers.deep_view(), target_name@),
{
    let mut pairs: Vec<AddressPair> = Vec::new();
    let n = headers.len();
    proof {
        assert(pairs.deep_view() =~= harvest_model(headers.deep_view().subrange(0, 0)));
    }
    let mut i: usize = 0;
    while i < n
        invariant
            i <= n,
            n == headers@.len(),
            pairs.deep_view() == harvest_model(headers.deep_view().subrange(0, i as int)),
        decreases n - i,
    {
        let ghost hs = headers.deep_view();
        let ghost pre = hs.subrange(0, i as int);
        let ghost nxt = hs.subrange(0, i as int + 1);
        proof {
            assert(nxt.drop_last() =~= pre);
            assert(nxt.last() == hs[i as int]);
            assert(hs[i as int] == headers@[i as int]@);
        }
        let ghost before = pairs.deep_view();
        let mut found = extract(headers[i].as_str());
        let ghost fd = found.deep_view();
        pairs.append(&mut found);
        proof {
            assert(pairs.deep_view() =~= before + fd);
        }
        i = i + 1;
    }
    proof {
        assert(headers.deep_view().subrange(0, n as int) =~= headers.deep_view());
    }
    let entries = retrieve_mail_entries(pairs, target_name);
    rank(entries)
}

} // verus!
