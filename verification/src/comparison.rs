//! The diff engine: a pure three-way change set (create/update/delete)
//! between a provider's current records and an authoritative list,
//! respecting the ownership watermark.
//!
//! The specifications are stated over the records' mathematical views:
//! `c` ranges over the views of the provider's current records and `auth`
//! over the views of the authoritative records.

use vstd::prelude::*;
use crate::records::{Diffable, Record, RecordV, views};

verus! {

/// Index of the first record in `c` whose slot matches `x`, or -1.
pub open spec fn first_match<R: Diffable>(c: Seq<R::V>, x: R::V) -> int
    decreases c.len(),
{
    if c.len() == 0 {
        -1
    } else if R::match_v(c[0], x) {
        0
    } else {
        let m = first_match::<R>(c.skip(1), x);
        if m == -1 {
            -1
        } else {
            m + 1
        }
    }
}

/// `r`'s slot is matched by some authority record.
pub open spec fn matched_by_auth<R: Diffable>(r: R::V, auth: Seq<RecordV>) -> bool {
    exists|j: int| 0 <= j < auth.len() && R::match_v(r, R::conv_v(auth[j]))
}

/// Authority record `a` has no slot match in `c` and is to be created.
pub open spec fn auth_creates<R: Diffable>(c: Seq<R::V>, a: RecordV) -> bool {
    first_match::<R>(c, R::conv_v(a)) == -1
}

/// Authority record `a` slot-matches a managed record of `c` whose content
/// differs, so that record is to be updated.
pub open spec fn auth_updates<R: Diffable>(c: Seq<R::V>, a: RecordV) -> bool {
    let m = first_match::<R>(c, R::conv_v(a));
    m != -1 && R::managed_v(c[m]) && !R::same_value_v(c[m], R::conv_v(a))
}

/// Record `i` of `c` is managed and no longer present in authority, so it
/// is to be deleted. Unmanaged records are never eligible.
pub open spec fn is_deleted<R: Diffable>(c: Seq<R::V>, auth: Seq<RecordV>, i: int) -> bool {
    R::managed_v(c[i]) && !matched_by_auth::<R>(c[i], auth)
}

/// The records to create: the converted shape of each authority record
/// without a slot match in `c`, in authority order.
pub open spec fn diff_create<R: Diffable>(c: Seq<R::V>, auth: Seq<RecordV>) -> Seq<R::V>
    decreases auth.len(),
{
    if auth.len() == 0 {
        Seq::empty()
    } else {
        let rest = diff_create::<R>(c, auth.drop_last());
        if auth_creates::<R>(c, auth.last()) {
            rest.push(R::conv_v(auth.last()))
        } else {
            rest
        }
    }
}

/// The records to update: for each authority record whose first slot match
/// in `c` is managed with differing content, that record updated with the
/// authority content, in authority order.
pub open spec fn diff_update<R: Diffable>(c: Seq<R::V>, auth: Seq<RecordV>) -> Seq<R::V>
    decreases auth.len(),
{
    if auth.len() == 0 {
        Seq::empty()
    } else {
        let rest = diff_update::<R>(c, auth.drop_last());
        if auth_updates::<R>(c, auth.last()) {
            rest.push(R::update_v(c[first_match::<R>(c, R::conv_v(auth.last()))], auth.last()))
        } else {
            rest
        }
    }
}

/// The records to delete: the managed records of `c` with no slot match in
/// authority, in current order.
pub open spec fn diff_delete<R: Diffable>(c: Seq<R::V>, auth: Seq<RecordV>) -> Seq<R::V>
    decreases c.len(),
{
    if c.len() == 0 {
        Seq::empty()
    } else {
        let rest = diff_delete::<R>(c.drop_last(), auth);
        if R::managed_v(c.last()) && !matched_by_auth::<R>(c.last(), auth) {
            rest.push(c.last())
        } else {
            rest
        }
    }
}

/// A three-way change set. Applying it means issuing the deletes first,
/// then the updates, then the creates.
pub struct DiffResult<R> {
    pub create: Vec<R>,
    pub update: Vec<R>,
    pub delete: Vec<R>,
}

impl<R> DiffResult<R> {
    /// Total number of changes; zero means no remote mutation is required.
    pub fn len(&self) -> (n: usize)
        requires
            self.create@.len() + self.update@.len() + self.delete@.len() <= usize::MAX,
        ensures
            n == self.create@.len() + self.update@.len() + self.delete@.len(),
    {
        self.create.len() + self.update.len() + self.delete.len()
    }
}

/// `first_match(c, x)` is -1 when nothing in `c` matches `x`, and otherwise
/// the first index of `c` whose slot matches `x`.
pub proof fn lemma_first_match<R: Diffable>(c: Seq<R::V>, x: R::V)
    ensures
        first_match::<R>(c, x) == -1 ==> forall|i: int| 0 <= i < c.len() ==> !R::match_v(c[i], x),
        first_match::<R>(c, x) != -1 ==> 0 <= first_match::<R>(c, x) < c.len()
            && R::match_v(c[first_match::<R>(c, x)], x) && forall|i: int|
            0 <= i < first_match::<R>(c, x) ==> !R::match_v(c[i], x),
    decreases c.len(),
{
    if c.len() == 0 {
    } else if R::match_v(c[0], x) {
    } else {
        lemma_first_match::<R>(c.skip(1), x);
        assert(forall|i: int| 1 <= i < c.len() ==> c[i] == c.skip(1)[i - 1]);
    }
}

/// The converse: a witness to the first matching index determines
/// `first_match`.
pub proof fn lemma_first_match_is<R: Diffable>(c: Seq<R::V>, x: R::V, m: int)
    requires
        0 <= m < c.len(),
        R::match_v(c[m], x),
        forall|i: int| 0 <= i < m ==> !R::match_v(c[i], x),
    ensures
        first_match::<R>(c, x) == m,
    decreases c.len(),
{
    if m == 0 {
    } else {
        assert(forall|i: int| 0 <= i < m - 1 ==> c.skip(1)[i] == c[i + 1]);
        lemma_first_match_is::<R>(c.skip(1), x, m - 1);
    }
}

/// The converse for the no-match case.
pub proof fn lemma_first_match_none<R: Diffable>(c: Seq<R::V>, x: R::V)
    requires
        forall|i: int| 0 <= i < c.len() ==> !R::match_v(c[i], x),
    ensures
        first_match::<R>(c, x) == -1,
    decreases c.len(),
{
    if c.len() == 0 {
    } else {
        assert(forall|i: int| 0 <= i < c.len() - 1 ==> c.skip(1)[i] == c[i + 1]);
        lemma_first_match_none::<R>(c.skip(1), x);
    }
}

/// The capability contract a provider-native record type must satisfy for
/// the change set to behave as intended: conversion stamps the watermark,
/// update preserves ownership and slot identity, conversion is reflexive
/// for slot and value equality, an update adopts the authority content,
/// and slot matching is euclidean (two records matching a common one match
/// each other).
pub open spec fn diff_laws<R: Diffable>() -> bool {
    &&& forall|a: RecordV| R::managed_v(#[trigger] R::conv_v(a))
    &&& forall|r: R::V, a: RecordV| R::managed_v(#[trigger] R::update_v(r, a)) == R::managed_v(r)
    &&& forall|r: R::V, a: RecordV, y: R::V|
        #![trigger R::match_v(R::update_v(r, a), y)]
        R::match_v(R::update_v(r, a), y) == R::match_v(r, y)
    &&& forall|a: RecordV| R::match_v(#[trigger] R::conv_v(a), R::conv_v(a))
    &&& forall|r: R::V, a: RecordV|
        R::match_v(r, R::conv_v(a)) ==> R::same_value_v(#[trigger] R::update_v(r, a), R::conv_v(a))
    &&& forall|a: RecordV| R::same_value_v(#[trigger] R::conv_v(a), R::conv_v(a))
    &&& forall|x: R::V, y: R::V, z: R::V|
        #![trigger R::match_v(x, y), R::match_v(x, z)]
        R::match_v(x, y) && R::match_v(x, z) ==> R::match_v(y, z)
}

/// Every record in the create list has no slot match in `current`.
pub proof fn lemma_create_unmatched<R: Diffable>(c: Seq<R::V>, auth: Seq<RecordV>)
    ensures
        forall|k: int, i: int|
            #![trigger R::match_v(c[i], diff_create::<R>(c, auth)[k])]
            0 <= k < diff_create::<R>(c, auth).len() && 0 <= i < c.len()
                ==> !R::match_v(c[i], diff_create::<R>(c, auth)[k]),
    decreases auth.len(),
{
    if auth.len() == 0 {
    } else {
        lemma_create_unmatched::<R>(c, auth.drop_last());
        let rest = diff_create::<R>(c, auth.drop_last());
        let d = diff_create::<R>(c, auth);
        if auth_creates::<R>(c, auth.last()) {
            lemma_first_match::<R>(c, R::conv_v(auth.last()));
            assert forall|k: int, i: int|
                0 <= k < d.len() && 0 <= i < c.len() implies !R::match_v(c[i], d[k]) by {
                if k < rest.len() {
                    assert(d[k] == rest[k]);
                    assert(!R::match_v(c[i], rest[k]));
                } else {
                    assert(d[k] == R::conv_v(auth.last()));
                }
            }
        }
    }
}

/// Every record in the delete list is managed and has no slot match in
/// authority.
pub proof fn lemma_delete_managed_unmatched<R: Diffable>(c: Seq<R::V>, auth: Seq<RecordV>)
    ensures
        forall|k: int|
            0 <= k < diff_delete::<R>(c, auth).len() ==> R::managed_v(
                #[trigger] diff_delete::<R>(c, auth)[k],
            ) && !matched_by_auth::<R>(diff_delete::<R>(c, auth)[k], auth),
    decreases c.len(),
{
    if c.len() == 0 {
    } else {
        lemma_delete_managed_unmatched::<R>(c.drop_last(), auth);
        let rest = diff_delete::<R>(c.drop_last(), auth);
        let d = diff_delete::<R>(c, auth);
        assert forall|k: int|
            0 <= k < d.len() implies R::managed_v(d[k]) && !matched_by_auth::<R>(d[k], auth) by {
            if k < rest.len() {
                assert(d[k] == rest[k]);
                assert(R::managed_v(rest[k]) && !matched_by_auth::<R>(rest[k], auth));
            } else {
                assert(d[k] == c.last());
            }
        }
    }
}

/// An unmanaged record never appears in the update list: every updated
/// record derives from a managed one and stays managed.
pub proof fn lemma_update_managed<R: Diffable>(c: Seq<R::V>, auth: Seq<RecordV>)
    requires
        diff_laws::<R>(),
    ensures
        forall|k: int|
            0 <= k < diff_update::<R>(c, auth).len() ==> R::managed_v(
                #[trigger] diff_update::<R>(c, auth)[k],
            ),
    decreases auth.len(),
{
    if auth.len() == 0 {
    } else {
        lemma_update_managed::<R>(c, auth.drop_last());
        let rest = diff_update::<R>(c, auth.drop_last());
        let d = diff_update::<R>(c, auth);
        assert forall|k: int| 0 <= k < d.len() implies R::managed_v(d[k]) by {
            if k < rest.len() {
                assert(d[k] == rest[k]);
                assert(R::managed_v(rest[k]));
            } else {
                assert(auth_updates::<R>(c, auth.last()));
                assert(d[k] == R::update_v(
                    c[first_match::<R>(c, R::conv_v(auth.last()))],
                    auth.last(),
                ));
            }
        }
    }
}

/// No two distinct authority records occupy the same slot. When this
/// fails, the diff depends on list order and a pass need not converge.
pub open spec fn no_slot_duplicates<R: Diffable>(auth: Seq<RecordV>) -> bool {
    forall|j: int, k: int|
        #![trigger R::match_v(R::conv_v(auth[j]), R::conv_v(auth[k]))]
        0 <= j < auth.len() && 0 <= k < auth.len() && j != k ==> !R::match_v(
            R::conv_v(auth[j]),
            R::conv_v(auth[k]),
        )
}

/// Authority record `j` updates record `i` of `c`: `i` is the first slot
/// match of its converted shape, managed, with differing content.
pub open spec fn is_updater<R: Diffable>(c: Seq<R::V>, auth: Seq<RecordV>, i: int, j: int) -> bool {
    &&& 0 <= j < auth.len()
    &&& first_match::<R>(c, R::conv_v(auth[j])) == i
    &&& R::managed_v(c[i])
    &&& !R::same_value_v(c[i], R::conv_v(auth[j]))
}

/// Some authority record updates record `i` of `c`.
pub open spec fn has_updater<R: Diffable>(c: Seq<R::V>, auth: Seq<RecordV>, i: int) -> bool {
    exists|j: int| is_updater::<R>(c, auth, i, j)
}

/// What becomes of record `i` of `c` once the change set is applied:
/// removed if deleted, replaced if updated, kept otherwise.
pub open spec fn applied_elem<R: Diffable>(c: Seq<R::V>, auth: Seq<RecordV>, i: int) -> Seq<R::V> {
    if is_deleted::<R>(c, auth, i) {
        Seq::empty()
    } else if has_updater::<R>(c, auth, i) {
        seq![R::update_v(c[i], auth[choose|j: int| is_updater::<R>(c, auth, i, j)])]
    } else {
        seq![c[i]]
    }
}

/// The fate of the first `k` records of `c` under the change set.
pub open spec fn applied_prefix<R: Diffable>(c: Seq<R::V>, auth: Seq<RecordV>, k: int) -> Seq<
    R::V,
>
    decreases k,
{
    if k <= 0 {
        Seq::empty()
    } else {
        applied_prefix::<R>(c, auth, k - 1) + applied_elem::<R>(c, auth, k - 1)
    }
}

/// The provider's record set after the change set is applied: deleted
/// records removed, updated records replaced in place, created records
/// appended.
pub open spec fn apply_diff<R: Diffable>(c: Seq<R::V>, auth: Seq<RecordV>) -> Seq<R::V> {
    applied_prefix::<R>(c, auth, c.len() as int) + diff_create::<R>(c, auth)
}

/// `first_match` over a concatenation: the left part wins when it has a
/// match; otherwise the right part's match shifts by the left length.
proof fn lemma_first_match_concat<R: Diffable>(s1: Seq<R::V>, s2: Seq<R::V>, x: R::V)
    ensures
        first_match::<R>(s1 + s2, x) == (if first_match::<R>(s1, x) != -1 {
            first_match::<R>(s1, x)
        } else if first_match::<R>(s2, x) != -1 {
            s1.len() + first_match::<R>(s2, x)
        } else {
            -1
        }),
{
    lemma_first_match::<R>(s1, x);
    lemma_first_match::<R>(s2, x);
    let m1 = first_match::<R>(s1, x);
    let m2 = first_match::<R>(s2, x);
    if m1 != -1 {
        lemma_first_match_is::<R>(s1 + s2, x, m1);
    } else if m2 != -1 {
        lemma_first_match_is::<R>(s1 + s2, x, s1.len() + m2);
    } else {
        lemma_first_match_none::<R>(s1 + s2, x);
    }
}

/// When no authority record is to be created against `c`, the create
/// list is empty.
proof fn lemma_no_creates<R: Diffable>(c: Seq<R::V>, auth: Seq<RecordV>)
    requires
        forall|j: int| 0 <= j < auth.len() ==> !auth_creates::<R>(c, #[trigger] auth[j]),
    ensures
        diff_create::<R>(c, auth).len() == 0,
    decreases auth.len(),
{
    if auth.len() > 0 {
        lemma_no_creates::<R>(c, auth.drop_last());
    }
}

/// When no authority record is to be updated against `c`, the update
/// list is empty.
proof fn lemma_no_updates<R: Diffable>(c: Seq<R::V>, auth: Seq<RecordV>)
    requires
        forall|j: int| 0 <= j < auth.len() ==> !auth_updates::<R>(c, #[trigger] auth[j]),
    ensures
        diff_update::<R>(c, auth).len() == 0,
    decreases auth.len(),
{
    if auth.len() > 0 {
        lemma_no_updates::<R>(c, auth.drop_last());
    }
}

/// When every managed record of `c` has a slot match in authority, the
/// delete list is empty.
proof fn lemma_no_deletes<R: Diffable>(c: Seq<R::V>, auth: Seq<RecordV>)
    requires
        forall|i: int|
            0 <= i < c.len() ==> (R::managed_v(#[trigger] c[i]) ==> matched_by_auth::<R>(
                c[i],
                auth,
            )),
    ensures
        diff_delete::<R>(c, auth).len() == 0,
    decreases c.len(),
{
    if c.len() > 0 {
        lemma_no_deletes::<R>(c.drop_last(), auth);
    }
}

/// The authority index whose converted shape stands at position `p` of
/// the create list.
pub open spec fn create_origin<R: Diffable>(c: Seq<R::V>, auth: Seq<RecordV>, p: int) -> int
    decreases auth.len(),
{
    if auth.len() == 0 {
        -1
    } else if auth_creates::<R>(c, auth.last()) && p == diff_create::<R>(c, auth).len() - 1 {
        auth.len() - 1
    } else {
        create_origin::<R>(c, auth.drop_last(), p)
    }
}

/// The record at position `p` of the create list is the converted shape
/// of the authority record at its origin index, which was to be created.
proof fn lemma_create_elem<R: Diffable>(c: Seq<R::V>, auth: Seq<RecordV>, p: int)
    requires
        0 <= p < diff_create::<R>(c, auth).len(),
    ensures
        ({
            let j = create_origin::<R>(c, auth, p);
            &&& 0 <= j < auth.len()
            &&& diff_create::<R>(c, auth)[p] == R::conv_v(auth[j])
            &&& auth_creates::<R>(c, auth[j])
        }),
    decreases auth.len(),
{
    let d = diff_create::<R>(c, auth);
    let rest = diff_create::<R>(c, auth.drop_last());
    if auth_creates::<R>(c, auth.last()) && p == d.len() - 1 {
        assert(d[p] == R::conv_v(auth[auth.len() - 1]));
    } else {
        lemma_create_elem::<R>(c, auth.drop_last(), p);
        assert(d[p] == rest[p]);
        assert(auth.drop_last()[create_origin::<R>(c, auth.drop_last(), p)] == auth[
            create_origin::<R>(c, auth.drop_last(), p)]);
    }
}

/// An authority record that is to be created has a slot match inside the
/// create list: its own converted shape.
proof fn lemma_create_contains<R: Diffable>(c: Seq<R::V>, auth: Seq<RecordV>, j: int)
    requires
        diff_laws::<R>(),
        0 <= j < auth.len(),
        auth_creates::<R>(c, auth[j]),
    ensures
        first_match::<R>(diff_create::<R>(c, auth), R::conv_v(auth[j])) != -1,
    decreases auth.len(),
{
    let d = diff_create::<R>(c, auth);
    if j == auth.len() - 1 {
        assert(d.last() == R::conv_v(auth[j]));
        assert(R::match_v(d[d.len() - 1], R::conv_v(auth[j])));
        lemma_first_match::<R>(d, R::conv_v(auth[j]));
        if first_match::<R>(d, R::conv_v(auth[j])) == -1 {
            assert(!R::match_v(d[d.len() - 1], R::conv_v(auth[j])));
        }
    } else {
        assert(auth.drop_last()[j] == auth[j]);
        lemma_create_contains::<R>(c, auth.drop_last(), j);
        let rest = diff_create::<R>(c, auth.drop_last());
        let m = first_match::<R>(rest, R::conv_v(auth[j]));
        lemma_first_match::<R>(rest, R::conv_v(auth[j]));
        assert(R::match_v(rest[m], R::conv_v(auth[j])));
        lemma_first_match::<R>(d, R::conv_v(auth[j]));
        if first_match::<R>(d, R::conv_v(auth[j])) == -1 {
            assert(d[m] == rest[m]);
            assert(!R::match_v(d[m], R::conv_v(auth[j])));
        }
    }
}

/// After applying the change set, every surviving managed record among
/// the first `k` still has a slot match in authority.
proof fn lemma_prefix_matched<R: Diffable>(c: Seq<R::V>, auth: Seq<RecordV>, k: int)
    requires
        diff_laws::<R>(),
        0 <= k <= c.len(),
    ensures
        forall|p: int|
            0 <= p < applied_prefix::<R>(c, auth, k).len() ==> (R::managed_v(
                #[trigger] applied_prefix::<R>(c, auth, k)[p],
            ) ==> matched_by_auth::<R>(applied_prefix::<R>(c, auth, k)[p], auth)),
    decreases k,
{
    if k > 0 {
        lemma_prefix_matched::<R>(c, auth, k - 1);
        let prev = applied_prefix::<R>(c, auth, k - 1);
        let chunk = applied_elem::<R>(c, auth, k - 1);
        let cur = applied_prefix::<R>(c, auth, k);
        assert forall|p: int|
            0 <= p < cur.len() && R::managed_v(cur[p]) implies matched_by_auth::<R>(
            cur[p],
            auth,
        ) by {
            if p < prev.len() {
                assert(cur[p] == prev[p]);
            } else {
                assert(cur[p] == chunk[p - prev.len()]);
                if is_deleted::<R>(c, auth, k - 1) {
                } else if has_updater::<R>(c, auth, k - 1) {
                    let ghost ii = k - 1;
                    let j = choose|j: int| is_updater::<R>(c, auth, ii, j);
                    assert(is_updater::<R>(c, auth, ii, j));
                    lemma_first_match::<R>(c, R::conv_v(auth[j]));
                    assert(R::match_v(c[k - 1], R::conv_v(auth[j])));
                    assert(cur[p] == R::update_v(c[k - 1], auth[j]));
                    assert(R::match_v(cur[p], R::conv_v(auth[j])));
                } else {
                    assert(cur[p] == c[k - 1]);
                    if R::managed_v(c[k - 1]) {
                        assert(matched_by_auth::<R>(c[k - 1], auth));
                    }
                }
            }
        }
    }
}

/// First-match transfer: applying the change set to the first `k`
/// records preserves first matches. When the first slot match of an
/// authority record's shape lies below `k`, its surviving form is the
/// first match in the applied prefix; otherwise the applied prefix has
/// no match.
proof fn lemma_prefix_first_match<R: Diffable>(c: Seq<R::V>, auth: Seq<RecordV>, ja: int, k: int)
    requires
        diff_laws::<R>(),
        0 <= ja < auth.len(),
        0 <= k <= c.len(),
    ensures
        ({
            let x = R::conv_v(auth[ja]);
            let m = first_match::<R>(c, x);
            let p = applied_prefix::<R>(c, auth, k);
            &&& (m != -1 && m < k ==> first_match::<R>(p, x) != -1 && 0 <= first_match::<R>(p, x)
                < p.len() && p[first_match::<R>(p, x)] == applied_elem::<R>(c, auth, m)[0]
                && applied_elem::<R>(c, auth, m).len() == 1)
            &&& ((m == -1 || m >= k) ==> first_match::<R>(p, x) == -1)
        }),
    decreases k,
{
    let x = R::conv_v(auth[ja]);
    let m = first_match::<R>(c, x);
    lemma_first_match::<R>(c, x);
    if k > 0 {
        lemma_prefix_first_match::<R>(c, auth, ja, k - 1);
        let prev = applied_prefix::<R>(c, auth, k - 1);
        let chunk = applied_elem::<R>(c, auth, k - 1);
        let p = applied_prefix::<R>(c, auth, k);
        lemma_first_match_concat::<R>(prev, chunk, x);
        lemma_first_match::<R>(chunk, x);
        if m != -1 && m < k - 1 {
            assert(first_match::<R>(p, x) == first_match::<R>(prev, x));
            assert(p[first_match::<R>(p, x)] == prev[first_match::<R>(prev, x)]);
        } else if m == k - 1 {
            assert(first_match::<R>(prev, x) == -1);
            assert(R::match_v(c[k - 1], x));
            assert(matched_by_auth::<R>(c[k - 1], auth));
            assert(!is_deleted::<R>(c, auth, k - 1));
            if has_updater::<R>(c, auth, k - 1) {
                let ghost ii = k - 1;
                let j = choose|j: int| is_updater::<R>(c, auth, ii, j);
                assert(is_updater::<R>(c, auth, ii, j));
                assert(chunk[0] == R::update_v(c[k - 1], auth[j]));
                assert(R::match_v(chunk[0], x));
            } else {
                assert(chunk[0] == c[k - 1]);
            }
            assert(first_match::<R>(chunk, x) == 0) by {
                lemma_first_match_is::<R>(chunk, x, 0);
            }
            assert(first_match::<R>(p, x) == prev.len());
            assert(p[prev.len() as int] == chunk[0]);
        } else {
            assert(first_match::<R>(prev, x) == -1);
            if chunk.len() > 0 {
                assert(!R::match_v(c[k - 1], x));
                if is_deleted::<R>(c, auth, k - 1) {
                    assert(chunk.len() == 0);
                } else if has_updater::<R>(c, auth, k - 1) {
                    let ghost ii = k - 1;
                    let j = choose|j: int| is_updater::<R>(c, auth, ii, j);
                    assert(is_updater::<R>(c, auth, ii, j));
                    assert(chunk[0] == R::update_v(c[k - 1], auth[j]));
                    assert(!R::match_v(chunk[0], x));
                } else {
                    assert(chunk[0] == c[k - 1]);
                }
                assert(forall|t: int| 0 <= t < chunk.len() ==> !R::match_v(chunk[t], x));
                lemma_first_match_none::<R>(chunk, x);
            }
            assert(first_match::<R>(p, x) == -1);
        }
    }
}

/// Idempotence: applying the change set and diffing again yields an
/// empty change set, provided no two authority records share a slot.
pub proof fn lemma_diff_idempotent<R: Diffable>(c: Seq<R::V>, auth: Seq<RecordV>)
    requires
        diff_laws::<R>(),
        no_slot_duplicates::<R>(auth),
    ensures
        diff_create::<R>(apply_diff::<R>(c, auth), auth).len() == 0,
        diff_update::<R>(apply_diff::<R>(c, auth), auth).len() == 0,
        diff_delete::<R>(apply_diff::<R>(c, auth), auth).len() == 0,
{
    let cc = apply_diff::<R>(c, auth);
    let prefix = applied_prefix::<R>(c, auth, c.len() as int);
    let creates = diff_create::<R>(c, auth);
    assert forall|j: int| 0 <= j < auth.len() implies !auth_creates::<R>(cc, #[trigger] auth[j])
        && !auth_updates::<R>(cc, auth[j]) by {
        let x = R::conv_v(auth[j]);
        let m = first_match::<R>(c, x);
        lemma_first_match::<R>(c, x);
        lemma_prefix_first_match::<R>(c, auth, j, c.len() as int);
        lemma_first_match_concat::<R>(prefix, creates, x);
        if m != -1 {
            let q = first_match::<R>(prefix, x);
            assert(first_match::<R>(cc, x) == q);
            assert(cc[q] == prefix[q]);
            let e = applied_elem::<R>(c, auth, m)[0];
            assert(prefix[q] == e);
            assert(!auth_creates::<R>(cc, auth[j]));
            if !R::managed_v(c[m]) {
                assert(!has_updater::<R>(c, auth, m)) by {
                    if has_updater::<R>(c, auth, m) {
                        let jb = choose|jb: int| is_updater::<R>(c, auth, m, jb);
                        assert(is_updater::<R>(c, auth, m, jb));
                    }
                }
                assert(!is_deleted::<R>(c, auth, m));
                assert(e == c[m]);
                assert(!R::managed_v(e));
            } else if R::same_value_v(c[m], x) {
                assert(!has_updater::<R>(c, auth, m)) by {
                    if has_updater::<R>(c, auth, m) {
                        let jb = choose|jb: int| is_updater::<R>(c, auth, m, jb);
                        assert(is_updater::<R>(c, auth, m, jb));
                        lemma_first_match::<R>(c, R::conv_v(auth[jb]));
                        assert(R::match_v(c[m], R::conv_v(auth[jb])));
                        assert(R::match_v(c[m], x));
                        assert(R::match_v(x, R::conv_v(auth[jb])));
                        assert(jb == j);
                    }
                }
                assert(matched_by_auth::<R>(c[m], auth));
                assert(!is_deleted::<R>(c, auth, m));
                assert(e == c[m]);
            } else {
                assert(is_updater::<R>(c, auth, m, j));
                assert(has_updater::<R>(c, auth, m));
                let jb = choose|jb: int| is_updater::<R>(c, auth, m, jb);
                assert(is_updater::<R>(c, auth, m, jb));
                lemma_first_match::<R>(c, R::conv_v(auth[jb]));
                assert(R::match_v(c[m], R::conv_v(auth[jb])));
                assert(R::match_v(x, R::conv_v(auth[jb])));
                assert(jb == j);
                assert(e == R::update_v(c[m], auth[j]));
                assert(R::same_value_v(e, x));
            }
            assert(!auth_updates::<R>(cc, auth[j]));
        } else {
            assert(first_match::<R>(prefix, x) == -1);
            lemma_create_contains::<R>(c, auth, j);
            let m2 = first_match::<R>(creates, x);
            assert(m2 != -1);
            lemma_first_match::<R>(creates, x);
            assert(first_match::<R>(cc, x) == prefix.len() + m2);
            assert(!auth_creates::<R>(cc, auth[j]));
            let e = creates[m2];
            assert(cc[prefix.len() + m2] == e);
            assert(R::match_v(e, x));
            lemma_create_elem::<R>(c, auth, m2);
            let jc = create_origin::<R>(c, auth, m2);
            assert(0 <= jc < auth.len() && creates[m2] == R::conv_v(auth[jc]));
            assert(R::match_v(R::conv_v(auth[jc]), x));
            assert(jc == j);
            assert(e == x);
            assert(R::managed_v(e));
            assert(R::same_value_v(e, x));
            assert(!auth_updates::<R>(cc, auth[j]));
        }
    }
    lemma_no_creates::<R>(cc, auth);
    lemma_no_updates::<R>(cc, auth);

    lemma_prefix_matched::<R>(c, auth, c.len() as int);
    assert forall|i: int|
        0 <= i < cc.len() && R::managed_v(#[trigger] cc[i]) implies matched_by_auth::<R>(
        cc[i],
        auth,
    ) by {
        if i < prefix.len() {
            assert(cc[i] == prefix[i]);
        } else {
            assert(cc[i] == creates[i - prefix.len()]);
            lemma_create_elem::<R>(c, auth, i - prefix.len());
            let jc = create_origin::<R>(c, auth, i - prefix.len());
            assert(0 <= jc < auth.len() && creates[i - prefix.len()] == R::conv_v(auth[jc]));
            assert(R::match_v(cc[i], R::conv_v(auth[jc])));
            assert(matched_by_auth::<R>(cc[i], auth));
        }
    }
    lemma_no_deletes::<R>(cc, auth);
}

/// Searches `current` for the first record whose slot matches `x`.
fn find_first_match<R: Diffable>(current: &Vec<R>, x: &R) -> (r: Option<usize>)
    ensures
        match r {
            Some(m) => first_match::<R>(views(current@), x@) == m as int && m < current@.len(),
            None => first_match::<R>(views(current@), x@) == -1,
        },
{
    let n = current.len();
    for i in 0..n
        invariant
            n == current@.len(),
            forall|k: int| 0 <= k < i ==> !R::match_v(views(current@)[k], x@),
    {
        if current[i].matches(x) {
            proof {
                lemma_first_match_is::<R>(views(current@), x@, i as int);
            }
            return Some(i);
        }
    }
    proof {
        lemma_first_match_none::<R>(views(current@), x@);
    }
    None
}

/// Computes the change set between `current` (the provider's records) and
/// `authority` (the declared desired state).
///
/// An authority record with no slot match in `current` is created; one whose
/// first match is managed with differing content updates that record; one
/// whose first match is unmanaged is skipped, never overwritten. A managed
/// current record with no slot match in authority is deleted; unmanaged
/// records are never auto-deleted.
pub fn diff_records<R: Diffable>(current: Vec<R>, authority: Vec<Record>) -> (d: DiffResult<R>)
    ensures
        views(d.create@) == diff_create::<R>(views(current@), views(authority@)),
        views(d.update@) == diff_update::<R>(views(current@), views(authority@)),
        views(d.delete@) == diff_delete::<R>(views(current@), views(authority@)),
{
    let mut create: Vec<R> = Vec::new();
    let mut update: Vec<R> = Vec::new();
    let mut delete: Vec<R> = Vec::new();

    let ghost cv = views(current@);
    let ghost av = views(authority@);

    let na = authority.len();
    for j in 0..na
        invariant
            na == authority@.len(),
            cv == views(current@),
            av == views(authority@),
            views(create@) == diff_create::<R>(cv, av.take(j as int)),
            views(update@) == diff_update::<R>(cv, av.take(j as int)),
    {
        proof {
            assert(av.take(j + 1).drop_last() =~= av.take(j as int));
            assert(av.take(j + 1).last() == authority@[j as int]@);
        }
        let ghost old_create = create@;
        let ghost old_update = update@;
        let record_conv = R::from_record(authority[j].clone());
        match find_first_match(&current, &record_conv) {
            Some(m) => {
                if current[m].is_managed() && !current[m].same_value(&record_conv) {
                    update.push(current[m].duplicate().update(authority[j].clone()));
                    proof {
                        assert(views(update@) =~= views(old_update).push(
                            R::update_v(cv[m as int], authority@[j as int]@),
                        ));
                    }
                }
            },
            None => {
                create.push(record_conv);
                proof {
                    assert(views(create@) =~= views(old_create).push(
                        R::conv_v(authority@[j as int]@),
                    ));
                }
            },
        }
    }
    proof {
        assert(av.take(na as int) =~= av);
    }

    let nc = current.len();
    for i in 0..nc
        invariant
            nc == current@.len(),
            na == authority@.len(),
            cv == views(current@),
            av == views(authority@),
            views(delete@) == diff_delete::<R>(cv.take(i as int), av),
    {
        proof {
            assert(cv.take(i + 1).drop_last() =~= cv.take(i as int));
            assert(cv.take(i + 1).last() == current@[i as int]@);
        }
        let ghost old_delete = delete@;
        if current[i].is_managed() {
            let mut found = false;
            for j in 0..na
                invariant
                    na == authority@.len(),
                    nc == current@.len(),
                    i < nc,
                    cv == views(current@),
                    av == views(authority@),
                    found ==> matched_by_auth::<R>(cv[i as int], av),
                    !found ==> forall|k: int|
                        0 <= k < j ==> !R::match_v(cv[i as int], R::conv_v(av[k])),
            {
                if !found {
                    let a_conv = R::from_record(authority[j].clone());
                    if current[i].matches(&a_conv) {
                        proof {
                            assert(av[j as int] == authority@[j as int]@);
                            assert(R::match_v(cv[i as int], R::conv_v(av[j as int])));
                        }
                        found = true;
                    }
                }
            }
            if !found {
                delete.push(current[i].duplicate());
                proof {
                    assert(views(delete@) =~= views(old_delete).push(cv[i as int]));
                }
            }
        }
    }
    proof {
        assert(cv.take(nc as int) =~= cv);
    }

    DiffResult { create, update, delete }
}

} // verus!
