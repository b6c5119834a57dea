//! Formulation of the two-stage boolean search.
//!
//! The primary query asks for messages where the target is a recipient
//! and one of the user's own addresses is the sender; its hits are
//! harvested from the recipient fields, where the other party appears
//! in outbound mail. When the archive answers with too few hits, a
//! broader sender-scoped query is appended. Counting hits is the search
//! engine's business: the caller runs the primary query's count and
//! hands it to `plan_queries`.

use vstd::prelude::*;
use vstd::string::StringExecFns;

verus! {

/// The number of primary-query hits under which the plan broadens to
/// the sender-scoped secondary query.
pub const DEFAULT_THRESHOLD: u32 = 10;

/// A header field harvested from matching messages.
#[derive(Clone, Copy, Debug, PartialEq, Eq, Structural)]
pub enum HeaderRole {
    To,
    Cc,
    Bcc,
    From,
}

impl HeaderRole {
    /// The header field name this role harvests.
    pub open spec fn spec_field_name(self) -> Seq<char> {
        match self {
            HeaderRole::To => "to"@,
            HeaderRole::Cc => "cc"@,
            HeaderRole::Bcc => "bcc"@,
            HeaderRole::From => "from"@,
        }
    }

    /// The header field name this role harvests.
    pub fn field_name(&self) -> (r: &'static str)
        ensures
            r@ == self.spec_field_name(),
    {
        match self {
            HeaderRole::To => "to",
            HeaderRole::Cc => "cc",
            HeaderRole::Bcc => "bcc",
            HeaderRole::From => "from",
        }
    }
}

/// One stage of the search: a boolean expression for the engine and
/// the header roles to harvest from its hits.
#[derive(Debug)]
pub struct SearchQuery {
    pub query: String,
    pub roles: Vec<HeaderRole>,
}

/// The mathematical value of a `SearchQuery`.
#[verifier::ext_equal]
pub struct QueryView {
    pub query: Seq<char>,
    pub roles: Seq<HeaderRole>,
}

impl View for SearchQuery {
    type V = QueryView;

    open spec fn view(&self) -> QueryView {
        QueryView { query: self.query@, roles: self.roles@ }
    }
}

impl DeepView for SearchQuery {
    type V = QueryView;

    open spec fn deep_view(&self) -> QueryView {
        self@
    }
}

/// A sender predicate for one address.
pub open spec fn from_clause(addr: Seq<char>) -> Seq<char> {
    "from:"@ + addr
}

/// The sender predicates for all own addresses, joined by `or`.
pub open spec fn from_clauses(mails: Seq<Seq<char>>) -> Seq<char>
    decreases mails.len(),
{
    if mails.len() == 0 {
        Seq::empty()
    } else if mails.len() == 1 {
        from_clause(mails[0])
    } else {
        from_clauses(mails.drop_last()) + " or "@ + from_clause(mails.last())
    }
}

/// The primary query: own addresses as sender, the target as
/// recipient.
pub open spec fn primary_query_model(mails: Seq<Seq<char>>, name: Seq<char>) -> Seq<char> {
    "("@ + from_clauses(mails) + ") and to:"@ + name
}

/// The secondary query: the target as sender, unrestricted.
pub open spec fn secondary_query_model(name: Seq<char>) -> Seq<char> {
    "from:"@ + name
}

/// The recipient fields harvested from primary hits.
pub open spec fn primary_roles() -> Seq<HeaderRole> {
    seq![HeaderRole::To, HeaderRole::Cc, HeaderRole::Bcc]
}

/// The sender field harvested from secondary hits.
pub open spec fn secondary_roles() -> Seq<HeaderRole> {
    seq![HeaderRole::From]
}

/// Build the primary query over the user's own addresses and the typed
/// fragment.
pub fn primary_query(own_addresses: &Vec<String>, target_name: &str) -> (q: SearchQuery)
    ensures
        q@.query == primary_query_model(own_addresses.deep_view(), target_name@),
        q@.roles == primary_roles(),
{
    let mut s = String::new();
    s.append("(");
    proof {
        assert(s@ =~= "("@ + from_clauses(own_addresses.deep_view().subrange(0, 0)));
    }
    let n = own_addresses.len();
    let mut i: usize = 0;
    while i < n
        invariant
            i <= n,
            n == own_addresses@.len(),
            s@ == "("@ + from_clauses(own_addresses.deep_view().subrange(0, i as int)),
        decreases n - i,
    {
        let ghost mails = own_addresses.deep_view();
        let ghost pre = mails.subrange(0, i as int);
        let ghost nxt = mails.subrange(0, i as int + 1);
        proof {
            assert(nxt.drop_last() =~= pre);
            assert(nxt.last() == mails[i as int]);
            assert(mails[i as int] == own_addresses@[i as int]@);
        }
        if i > 0 {
            s.append(" or ");
        }
        s.append("from:");
        s.append(own_addresses[i].as_str());
        proof {
            if i == 0 {
                assert(s@ =~= "("@ + from_clauses(nxt));
            } else {
                assert(s@ =~= "("@ + from_clauses(nxt));
            }
        }
        i = i + 1;
    }
    proof {
        assert(own_addresses.deep_view().subrange(0, n as int) =~= own_addresses.deep_view());
    }
    s.append(") and to:");
    s.append(target_name);
    proof {
        assert(s@ =~= primary_query_model(own_addresses.deep_view(), target_name@));
    }
    let mut roles: Vec<HeaderRole> = Vec::new();
    roles.push(HeaderRole::To);
    roles.push(HeaderRole::Cc);
    roles.push(HeaderRole::Bcc);
    proof {
        assert(roles@ =~= primary_roles());
    }
    SearchQuery { query: s, roles }
}

/// Given how many messages the archive counted for the primary query,
/// decide the full plan: the primary stage alone, or — below the
/// threshold — the broader sender-scoped stage after it. Positions
/// pair each query with its header roles; at most two stages exist.
pub fn plan_queries(primary: SearchQuery, primary_count: u32, threshold: u32, target_name: &str) -> (
    qs: Vec<SearchQuery>)
    ensures
        qs.deep_view().len() == (if primary_count < threshold {
            2int
        } else {
            1int
        }),
        qs.deep_view()[0] == primary@,
        primary_count < threshold ==> qs.deep_view()[1] == (QueryView {
            query: secondary_query_model(target_name@),
            roles: secondary_roles(),
        }),
{
    let ghost pv = primary@;
    let mut qs: Vec<SearchQuery> = Vec::new();
    qs.push(primary);
    if primary_count < threshold {
        let mut s = String::new();
        s.append("from:");
        s.append(target_name);
        let mut roles: Vec<HeaderRole> = Vec::new();
        roles.push(HeaderRole::From);
        let ghost sv = s@;
        let ghost rv = roles@;
        qs.push(SearchQuery { query: s, roles });
        proof {
            assert(sv =~= secondary_query_model(target_name@));
            assert(rv =~= secondary_roles());
            assert(qs.deep_view()[1] =~= QueryView {
                query: secondary_query_model(target_name@),
                roles: secondary_roles(),
            });
        }
    }
    proof {
        assert(qs.deep_view()[0] == pv);
    }
    qs
}

} // verus!
