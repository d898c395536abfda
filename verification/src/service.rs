//! The sync orchestrator: one complete, state-free pass — gather authority
//! from every backend, warn on duplicate slots, route each record to the
//! most specific frontend, and hand each frontend its share, failing fast
//! on any collaborator error.

use vstd::prelude::*;
use vstd::string::StrSliceExecFns;
use crate::errors::Error;
use crate::records::{Match, Record, RecordV, views};
use crate::router::{route_records, sorted_by_len_desc};

verus! {

/// A collaborator that produces authoritative records from an external
/// source.
pub trait Backend {
    /// Reads the complete record list of this backend. Any read, parse or
    /// transport failure is an error, which aborts the whole pass.
    fn read_records(&self) -> Result<Vec<Record>, Error>;
}

/// A collaborator owning a DNS zone that reconciles its remote state with
/// the authoritative records routed to it.
pub trait Frontend {
    /// The domain this frontend serves, used for routing.
    fn get_domain(&self) -> String;

    /// Reconciles this frontend's zone with `records`. On a live run the
    /// frontend reads its current state, diffs, and applies deletes, then
    /// updates, then creates; on a dry run it only reports counts. Any
    /// failure aborts the rest of the pass.
    fn set_records(&mut self, records: Vec<Record>, dry_run: bool) -> Result<(), Error>;
}

/// An order on frontend indices: every index below `n` exactly once,
/// arranged so the domain lengths run longest first.
pub open spec fn index_order_ok(order: Seq<usize>, domains: Seq<String>) -> bool {
    &&& order.len() == domains.len()
    &&& forall|k: int| 0 <= k < order.len() ==> (#[trigger] order[k]) < domains.len()
    &&& order.to_multiset() == Seq::new(domains.len(), |i: int| i as usize).to_multiset()
    &&& forall|k1: int, k2: int|
        0 <= k1 <= k2 < order.len() ==> (#[trigger] domains[order[k1] as int])@.len()
            >= (#[trigger] domains[order[k2] as int])@.len()
}

/// Orders the frontend indices by configured domain length descending,
/// so that routing pairs each record with the longest matching suffix.
pub fn sort_indices_by_len_desc(domains: &Vec<String>) -> (order: Vec<usize>)
    ensures
        index_order_ok(order@, domains@),
{
    broadcast use vstd::seq_lib::group_to_multiset_ensures;
    broadcast use vstd::multiset::group_multiset_axioms;

    let n = domains.len();
    let ghost ids = Seq::new(domains@.len(), |i: int| i as usize);
    let mut candidates: Vec<usize> = Vec::new();
    for i in 0..n
        invariant
            candidates@.len() == i,
            forall|k: int| 0 <= k < i ==> (#[trigger] candidates@[k]) == k as usize,
    {
        candidates.push(i);
    }
    proof {
        assert(candidates@ =~= ids);
    }
    let mut order: Vec<usize> = Vec::new();
    while candidates.len() > 0
        invariant
            n == domains@.len(),
            ids == Seq::new(domains@.len(), |i: int| i as usize),
            forall|k: int| 0 <= k < candidates@.len() ==> (#[trigger] candidates@[k]) < n,
            forall|k: int| 0 <= k < order@.len() ==> (#[trigger] order@[k]) < n,
            order@.to_multiset().add(candidates@.to_multiset()) == ids.to_multiset(),
            forall|k1: int, k2: int|
                0 <= k1 <= k2 < order@.len() ==> (#[trigger] domains@[order@[k1] as int])@.len()
                    >= (#[trigger] domains@[order@[k2] as int])@.len(),
            forall|x: int, y: int|
                #![trigger domains@[order@[x] as int], domains@[candidates@[y] as int]]
                0 <= x < order@.len() && 0 <= y < candidates@.len()
                    ==> domains@[order@[x] as int]@.len() >= domains@[
                    candidates@[y] as int]@.len(),
        decreases candidates.len(),
    {
        let mut best: usize = 0;
        let mut best_len: usize = domains[candidates[0]].as_str().unicode_len();
        let mut j: usize = 1;
        while j < candidates.len()
            invariant
                n == domains@.len(),
                candidates@.len() > 0,
                forall|k: int| 0 <= k < candidates@.len() ==> (#[trigger] candidates@[k]) < n,
                best < candidates@.len(),
                j <= candidates@.len(),
                best_len == domains@[candidates@[best as int] as int]@.len(),
                forall|t: int|
                    0 <= t < j ==> (#[trigger] domains@[candidates@[t] as int])@.len() <= best_len,
            decreases candidates@.len() - j,
        {
            let l = domains[candidates[j]].as_str().unicode_len();
            if l > best_len {
                best = j;
                best_len = l;
            }
            j = j + 1;
        }
        let ghost old_order = order@;
        let ghost old_candidates = candidates@;
        let idx = candidates.remove(best);
        order.push(idx);
        proof {
            old_candidates.to_multiset_ensures();
            old_order.to_multiset_ensures();
            assert(old_candidates.contains(old_candidates[best as int]));
            assert(old_candidates.to_multiset().count(old_candidates[best as int]) > 0);
            assert(order@.to_multiset().add(candidates@.to_multiset()) =~= ids.to_multiset());
            assert forall|x: int, y: int|
                #![trigger domains@[order@[x] as int], domains@[candidates@[y] as int]]
                0 <= x < order@.len() && 0 <= y < candidates@.len() implies domains@[
                order@[x] as int]@.len() >= domains@[candidates@[y] as int]@.len() by {
                if y < best {
                    assert(candidates@[y] == old_candidates[y]);
                } else {
                    assert(candidates@[y] == old_candidates[y + 1]);
                }
            }
        }
    }
    proof {
        candidates@.to_multiset_ensures();
        assert forall|a: usize| candidates@.to_multiset().count(a) == 0 by {
            assert(!candidates@.contains(a));
        }
        assert(order@.to_multiset() =~= ids.to_multiset());
        order@.to_multiset_ensures();
        ids.to_multiset_ensures();
        assert(order@.len() == domains@.len());
    }
    order
}

/// Record `i` and a later record `j` occupy the same slot but come from
/// distinct backends: a duplicate that makes the diff unstable between
/// runs. It is warned about, never an error.
pub open spec fn is_dup(rs: Seq<RecordV>, i: int, j: int) -> bool {
    0 <= i < j < rs.len() && rs[i].slot_eq(rs[j]) && rs[i].source != rs[j].source
}

/// The duplicate pairs `(i, j)` for the fixed first index `i`, with `j`
/// ranging over `i + 1 .. hi`, in order.
pub open spec fn dup_row(rs: Seq<RecordV>, i: int, hi: int) -> Seq<(usize, usize)>
    decreases hi - i,
{
    if hi <= i + 1 {
        Seq::empty()
    } else {
        let rest = dup_row(rs, i, hi - 1);
        if is_dup(rs, i, hi - 1) {
            rest.push((i as usize, (hi - 1) as usize))
        } else {
            rest
        }
    }
}

/// All duplicate pairs `(i, j)` with `i < m`, ordered by `i`, then `j`.
pub open spec fn dup_pairs(rs: Seq<RecordV>, m: int) -> Seq<(usize, usize)>
    decreases m,
{
    if m <= 0 {
        Seq::empty()
    } else {
        dup_pairs(rs, m - 1) + dup_row(rs, m - 1, rs.len() as int)
    }
}

/// Scans `records` for slot duplicates originating from distinct
/// backends, returning every such index pair in order.
pub fn find_duplicate_slots(records: &Vec<Record>) -> (r: Vec<(usize, usize)>)
    ensures
        r@ == dup_pairs(views(records@), records@.len() as int),
{
    let ghost rv = views(records@);
    let n = records.len();
    let mut out: Vec<(usize, usize)> = Vec::new();
    for i in 0..n
        invariant
            n == records@.len(),
            rv == views(records@),
            out@ == dup_pairs(rv, i as int),
    {
        let mut j = i + 1;
        while j < n
            invariant
                n == records@.len(),
                rv == views(records@),
                i < j <= n,
                out@ == dup_pairs(rv, i as int) + dup_row(rv, i as int, j as int),
            decreases n - j,
        {
            if records[i].matches(&records[j]) && !crate::text::str_eq(
                records[i].source.as_str(),
                records[j].source.as_str(),
            ) {
                out.push((i, j));
            }
            j = j + 1;
        }
    }
    out
}

/// What a pass reports besides its outcome: the duplicate authority
/// slots and the records that no configured domain matched. Both are
/// warnings, not errors.
pub struct SyncReport {
    pub duplicates: Vec<(usize, usize)>,
    pub unrouted: Vec<Record>,
}

/// The orchestrator: all configured backends and frontends, the
/// frontends ordered by domain length descending so that routing pairs
/// each record with the longest matching suffix.
pub struct DNSSync<B, F> {
    pub backends: Vec<B>,
    pub frontends: Vec<F>,
}

impl<B: Backend, F: Frontend> DNSSync<B, F> {
    /// Builds the orchestrator over the configured collaborators. Every
    /// pass serves the frontends most specific domain first.
    pub fn new(backends: Vec<B>, frontends: Vec<F>) -> (s: Self)
        ensures
            s.backends@ == backends@,
            s.frontends@ == frontends@,
    {
        DNSSync { backends, frontends }
    }

    /// Runs one complete sync pass: reads every backend (fail-fast),
    /// reports duplicate authority slots, routes the authority to the
    /// frontends by longest matching domain suffix, and hands each
    /// frontend its records, aborting on the first frontend error. No
    /// state survives the pass; a failed pass is retried in full on the
    /// next invocation.
    ///
    /// A pass can fail only inside a collaborator call: with nothing
    /// configured there is nothing to do and nothing to fail, and with
    /// no backends a successful pass has nothing to warn about.
    pub fn sync(&mut self, dry_run: bool) -> (r: Result<SyncReport, Error>)
        ensures
            final(self).backends@ == old(self).backends@,
            final(self).frontends@.len() == old(self).frontends@.len(),
            old(self).backends@.len() == 0 && old(self).frontends@.len() == 0 ==> r is Ok,
            match r {
                Ok(rep) => old(self).backends@.len() == 0 ==> rep.duplicates@.len() == 0
                    && rep.unrouted@.len() == 0,
                Err(_) => true,
            },
    {
        let nb = self.backends.len();
        let mut authority: Vec<Record> = Vec::new();
        for i in 0..nb
            invariant
                nb == self.backends@.len(),
                self.backends@ == old(self).backends@,
                self.frontends@ == old(self).frontends@,
                nb == 0 ==> authority@.len() == 0,
        {
            match self.backends[i].read_records() {
                Ok(mut rs) => {
                    authority.append(&mut rs);
                },
                Err(e) => {
                    return Err(e);
                },
            }
        }

        let ghost auth_v = authority@;
        let duplicates = find_duplicate_slots(&authority);

        let nf = self.frontends.len();
        let mut domains: Vec<String> = Vec::new();
        for i in 0..nf
            invariant
                nf == self.frontends@.len(),
                self.backends@ == old(self).backends@,
                self.frontends@ == old(self).frontends@,
                domains@.len() == i,
        {
            domains.push(self.frontends[i].get_domain());
        }

        // Serve the most specific domain first: route against the
        // domains in descending length order.
        let order = sort_indices_by_len_desc(&domains);
        let mut sorted_domains: Vec<String> = Vec::new();
        let mut k: usize = 0;
        while k < nf
            invariant
                nf == domains@.len(),
                index_order_ok(order@, domains@),
                k <= nf,
                sorted_domains@.len() == k,
                forall|t: int|
                    0 <= t < k ==> (#[trigger] sorted_domains@[t])@ == domains@[order@[t] as int]@,
            decreases nf - k,
        {
            sorted_domains.push(domains[order[k]].clone());
            k = k + 1;
        }
        proof {
            assert(sorted_by_len_desc(views(sorted_domains@)));
        }

        let (buckets, dropped) = route_records(authority, &sorted_domains);
        proof {
            if old(self).backends@.len() == 0 {
                assert(auth_v.len() == 0);
                assert(duplicates@ == dup_pairs(views(auth_v), 0));
                assert(duplicates@.len() == 0);
                assert(views(auth_v).len() == 0);
                assert(views(dropped@) == crate::router::unrouted(
                    views(auth_v),
                    views(sorted_domains@),
                ));
                assert(views(dropped@).len() == 0);
                assert(dropped@.len() == 0);
            }
        }

        let mut buckets = buckets;
        for i in 0..nf
            invariant
                nf == self.frontends@.len(),
                nf == old(self).frontends@.len(),
                self.backends@ == old(self).backends@,
                index_order_ok(order@, domains@),
                nf == domains@.len(),
                buckets@.len() == nf - i,
        {
            let target = order[i];
            let mut f = self.frontends.remove(target);
            let b = buckets.remove(0);
            let res = f.set_records(b, dry_run);
            self.frontends.insert(target, f);
            if let Err(e) = res {
                return Err(e);
            }
        }

        Ok(SyncReport { duplicates, unrouted: dropped })
    }
}

} // verus!
