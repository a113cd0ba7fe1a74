//! The engine's hash sets: `rustc_hash`'s `FxHashSet` over interned ids.
//!
//! Fx hashing is deterministic and unseeded, which is why the engine uses
//! it; the set operations themselves are `std`'s. Verus models a `HashSet`
//! as the `Set` it holds, and the wrappers below state that model for the
//! two operations the engine's logic performs on one.
use vstd::prelude::*;

use rustc_hash::{FxBuildHasher, FxHashSet};

verus! {

/// `rustc_hash::FxBuildHasher`, the unit struct that builds `FxHasher`s.
#[verifier::external_type_specification]
#[verifier::external_body]
pub struct ExFxBuildHasher(FxBuildHasher);

/// An empty set — `FxHashSet::default()`.
pub fn empty_set() -> (s: FxHashSet<u32>)
    ensures
        s@ == Set::<u32>::empty(),
{
    FxHashSet::default()
}

/// `HashSet::insert` on an Fx-hashed set of ids: the id is in the set
/// afterwards, nothing else changed, and the answer says whether it was
/// absent before.
#[verifier::external_body]
pub fn insert_id(s: &mut FxHashSet<u32>, k: u32) -> (fresh: bool)
    ensures
        final(s)@ == old(s)@.insert(k),
        fresh == !old(s)@.contains(k),
{
    s.insert(k)
}

/// `HashSet::contains` on an Fx-hashed set of ids.
#[verifier::external_body]
pub fn contains_id(s: &FxHashSet<u32>, k: u32) -> (r: bool)
    ensures
        r == s@.contains(k),
{
    s.contains(&k)
}

/// `HashSet::len` on an Fx-hashed set of ids: how many ids it holds.
#[verifier::external_body]
pub fn len_ids(s: &FxHashSet<u32>) -> (n: usize)
    ensures
        n == s@.len(),
{
    s.len()
}

/// A set holding exactly the ids of a slice.
pub fn set_of(ids: &[u32]) -> (s: FxHashSet<u32>)
    ensures
        forall|k: u32| s@.contains(k) <==> ids@.contains(k),
{
    let mut s = empty_set();
    let mut i: usize = 0;
    while i < ids.len()
        invariant
            i <= ids@.len(),
            forall|k: u32| s@.contains(k) <==> ids@.take(i as int).contains(k),
        decreases ids@.len() - i,
    {
        insert_id(&mut s, ids[i]);
        proof {
            broadcast use vstd::seq_lib::group_seq_properties;
            assert(ids@.take(i + 1) =~= ids@.take(i as int).push(ids@[i as int]));
        }
        i = i + 1;
    }
    assert(ids@.take(ids@.len() as int) =~= ids@);
    s
}


/// Insert every id of `items`.
pub fn insert_all(s: &mut FxHashSet<u32>, items: &Vec<u32>)
    ensures
        forall|k: u32| #[trigger] final(s)@.contains(k) <==> old(s)@.contains(k) || items@.contains(k),
{
    let ghost s0 = old(s)@;
    let mut i: usize = 0;
    while i < items.len()
        invariant
            i <= items@.len(),
            forall|k: u32| #[trigger] s@.contains(k) <==> s0.contains(k) || items@.take(i as int).contains(k),
        decreases items@.len() - i,
    {
        let ghost before = s@;
        insert_id(s, items[i]);
        proof {
            assert(items@.take(i + 1) =~= items@.take(i as int).push(items@[i as int]));
            assert forall|k: u32| #[trigger] s@.contains(k) <==> s0.contains(k) || items@.take(i + 1).contains(k) by {
                crate::text::lemma_push_contains(items@.take(i as int), items@[i as int], k);
                assert(s@.contains(k) == (before.contains(k) || k == items@[i as int]));
            }
        }
        i = i + 1;
    }
    assert(items@.take(items@.len() as int) =~= items@);
}

} // verus!
