//! The domain router: assigns each authoritative record to exactly one
//! frontend, by the first (and, with frontends ordered longest first, the
//! most specific) configured domain that is a suffix of the record name.

use vstd::prelude::*;
use vstd::string::StrSliceExecFns;
use crate::text::{is_suffix_of, str_ends_with};
use crate::records::{Record, RecordV, views};

verus! {

/// Index of the first domain of `domains` that is a suffix of `name`,
/// or -1 when no domain is.
pub open spec fn route_pos(domains: Seq<Seq<char>>, name: Seq<char>) -> int
    decreases domains.len(),
{
    if domains.len() == 0 {
        -1
    } else if is_suffix_of(domains[0], name) {
        0
    } else {
        let m = route_pos(domains.skip(1), name);
        if m == -1 {
            -1
        } else {
            m + 1
        }
    }
}

/// `route_pos` is -1 when no domain is a suffix of `name`, and otherwise
/// the first index whose domain is a suffix of it.
pub proof fn lemma_route_pos(domains: Seq<Seq<char>>, name: Seq<char>)
    ensures
        route_pos(domains, name) == -1 ==> forall|i: int|
            0 <= i < domains.len() ==> !is_suffix_of(domains[i], name),
        route_pos(domains, name) != -1 ==> 0 <= route_pos(domains, name) < domains.len()
            && is_suffix_of(domains[route_pos(domains, name)], name) && forall|i: int|
            0 <= i < route_pos(domains, name) ==> !is_suffix_of(domains[i], name),
    decreases domains.len(),
{
    if domains.len() == 0 {
    } else if is_suffix_of(domains[0], name) {
    } else {
        lemma_route_pos(domains.skip(1), name);
        assert(forall|i: int| 1 <= i < domains.len() ==> domains[i] == domains.skip(1)[i - 1]);
    }
}

/// A witness to the first suffix match determines `route_pos`.
proof fn lemma_route_pos_is(domains: Seq<Seq<char>>, name: Seq<char>, i: int)
    requires
        0 <= i < domains.len(),
        is_suffix_of(domains[i], name),
        forall|k: int| 0 <= k < i ==> !is_suffix_of(domains[k], name),
    ensures
        route_pos(domains, name) == i,
    decreases domains.len(),
{
    if i == 0 {
    } else {
        assert(forall|k: int| 0 <= k < i - 1 ==> domains.skip(1)[k] == domains[k + 1]);
        lemma_route_pos_is(domains.skip(1), name, i - 1);
    }
}

/// When no domain is a suffix of `name`, `route_pos` is -1.
proof fn lemma_route_pos_none(domains: Seq<Seq<char>>, name: Seq<char>)
    requires
        forall|i: int| 0 <= i < domains.len() ==> !is_suffix_of(domains[i], name),
    ensures
        route_pos(domains, name) == -1,
    decreases domains.len(),
{
    if domains.len() > 0 {
        assert(forall|k: int| 0 <= k < domains.len() - 1 ==> domains.skip(1)[k] == domains[k + 1]);
        lemma_route_pos_none(domains.skip(1), name);
    }
}

/// Domains ordered by length, longest (most specific) first.
pub open spec fn sorted_by_len_desc(domains: Seq<Seq<char>>) -> bool {
    forall|i: int, j: int| 0 <= i <= j < domains.len() ==> domains[i].len() >= domains[j].len()
}

/// Longest-suffix routing: with the domains ordered longest first, the
/// domain a record routes to is at least as long as every domain that is
/// a suffix of the record's name.
pub proof fn lemma_longest_suffix_routing(domains: Seq<Seq<char>>, name: Seq<char>, j: int)
    requires
        sorted_by_len_desc(domains),
        route_pos(domains, name) != -1,
        0 <= j < domains.len(),
        is_suffix_of(domains[j], name),
    ensures
        domains[route_pos(domains, name)].len() >= domains[j].len(),
{
    lemma_route_pos(domains, name);
}

/// The records of `records` routed to frontend `i`, in order.
pub open spec fn routed_to(records: Seq<RecordV>, domains: Seq<Seq<char>>, i: int) -> Seq<RecordV>
    decreases records.len(),
{
    if records.len() == 0 {
        Seq::empty()
    } else {
        let rest = routed_to(records.drop_last(), domains, i);
        if route_pos(domains, records.last().name) == i {
            rest.push(records.last())
        } else {
            rest
        }
    }
}

/// The records no configured domain matches, in order; they are dropped
/// from the pass, which is not an error.
pub open spec fn unrouted(records: Seq<RecordV>, domains: Seq<Seq<char>>) -> Seq<RecordV>
    decreases records.len(),
{
    if records.len() == 0 {
        Seq::empty()
    } else {
        let rest = unrouted(records.drop_last(), domains);
        if route_pos(domains, records.last().name) == -1 {
            rest.push(records.last())
        } else {
            rest
        }
    }
}

/// Partitions `records` among the frontends: record `r` goes to the first
/// domain of `domains` that is a suffix of `r`'s name; records matching
/// no domain are returned separately.
pub fn route_records(records: Vec<Record>, domains: &Vec<String>) -> (r: (
    Vec<Vec<Record>>,
    Vec<Record>,
))
    ensures
        r.0@.len() == domains@.len(),
        forall|i: int|
            0 <= i < domains@.len() ==> views(#[trigger] r.0@[i]@) == routed_to(
                views(records@),
                views(domains@),
                i,
            ),
        views(r.1@) == unrouted(views(records@), views(domains@)),
{
    let nd = domains.len();
    let mut buckets: Vec<Vec<Record>> = Vec::new();
    let ghost dv = views(domains@);
    let ghost rv = views(records@);
    while buckets.len() < nd
        invariant
            buckets@.len() <= nd,
            forall|i: int| 0 <= i < buckets@.len() ==> (#[trigger] buckets@[i]@).len() == 0,
        decreases nd - buckets.len(),
    {
        buckets.push(Vec::new());
    }
    let mut dropped: Vec<Record> = Vec::new();

    let n = records.len();
    proof {
        assert(forall|i: int|
            0 <= i < nd ==> views(#[trigger] buckets@[i]@) =~= routed_to(rv.take(0), dv, i));
        assert(views(dropped@) =~= unrouted(rv.take(0), dv));
    }
    let mut records = records;
    for k in 0..n
        invariant
            n == records@.len(),
            rv == views(records@),
            dv == views(domains@),
            nd == domains@.len(),
            buckets@.len() == nd,
            forall|i: int|
                0 <= i < nd ==> views(#[trigger] buckets@[i]@) == routed_to(rv.take(k as int), dv, i),
            views(dropped@) == unrouted(rv.take(k as int), dv),
    {
        proof {
            assert(rv.take(k + 1).drop_last() =~= rv.take(k as int));
            assert(rv.take(k + 1).last() == records@[k as int]@);
        }
        let record = records[k].clone();
        let mut m: usize = 0;
        let mut matched = false;
        while m < nd && !matched
            invariant
                nd == domains@.len(),
                dv == views(domains@),
                m <= nd,
                k < n,
                n == records@.len(),
                rv == views(records@),
                record == records@[k as int],
                forall|t: int| 0 <= t < m ==> !is_suffix_of(dv[t], rv[k as int].name),
                matched ==> m < nd && is_suffix_of(dv[m as int], rv[k as int].name),
            decreases nd - m + (if matched { 0int } else { 1int }),
        {
            if str_ends_with(record.name.as_str(), domains[m].as_str()) {
                matched = true;
            } else {
                m = m + 1;
            }
        }
        if matched {
            proof {
                lemma_route_pos_is(dv, rv[k as int].name, m as int);
            }
            let ghost old_buckets = buckets@;
            let ghost old_bucket = views(buckets@[m as int]@);
            let mut b = buckets.remove(m);
            b.push(record);
            buckets.insert(m, b);
            proof {
                assert(buckets@ =~= old_buckets.update(m as int, buckets@[m as int]));
                assert(views(buckets@[m as int]@) =~= old_bucket.push(rv[k as int]));
                assert(forall|i: int|
                    0 <= i < nd && i != m ==> views(#[trigger] buckets@[i]@) == routed_to(
                        rv.take(k as int),
                        dv,
                        i,
                    ));
            }
        } else {
            proof {
                lemma_route_pos_none(dv, rv[k as int].name);
            }
            let ghost old_dropped = views(dropped@);
            dropped.push(record);
            proof {
                assert(views(dropped@) =~= old_dropped.push(rv[k as int]));
            }
        }
    }
    proof {
        assert(rv.take(n as int) =~= rv);
    }
    (buckets, dropped)
}

} // verus!
