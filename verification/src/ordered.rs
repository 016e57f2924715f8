//! The insertion-ordered containers behind the spatial index and the live
//! set, backed by the outside ordered-map crate. The containers themselves
//! are opaque to the verifier; their contents are named by the model
//! functions below, and each wrapper states over those names exactly what the
//! outside crate's documentation promises.

use vstd::prelude::*;
use indexmap::{IndexMap, IndexSet};

verus! {

/// The cell buckets of a uniform grid, keyed by integer cell coordinates.
#[verifier::external_body]
pub struct CellBuckets {
    inner: IndexMap<(i64, i64), Vec<u64>>,
}

/// What the buckets hold: for every cell, the identifiers inserted into it in
/// insertion order; a cell never pushed to holds the empty sequence.
pub uninterp spec fn buckets_model(b: &CellBuckets) -> Map<(int, int), Seq<u64>>;

impl CellBuckets {
    /// Relies on `IndexMap::new`: the fresh map has no entries, so every
    /// bucket reads as empty.
    #[verifier::external_body]
    pub fn new() -> (r: CellBuckets)
        ensures
            forall|c: (int, int)| #[trigger] buckets_model(&r)[c] == Seq::<u64>::empty(),
    {
        CellBuckets { inner: IndexMap::new() }
    }

    /// Relies on `IndexMap::entry` and `Entry::or_default`: the bucket for
    /// `cell` is created empty if absent and the identifier is appended to
    /// it; no other bucket changes.
    #[verifier::external_body]
    pub fn push(&mut self, cell: (i64, i64), id: u64)
        ensures
            buckets_model(final(self))[(cell.0 as int, cell.1 as int)] == buckets_model(
                old(self),
            )[(cell.0 as int, cell.1 as int)].push(id),
            forall|c: (int, int)|
                c != (cell.0 as int, cell.1 as int) ==> #[trigger] buckets_model(final(self))[c]
                    == buckets_model(old(self))[c],
    {
        self.inner.entry(cell).or_default().push(id);
    }

    /// Relies on `IndexMap::get`: the bucket stored for `cell`, empty if the
    /// cell was never pushed to.
    #[verifier::external_body]
    pub fn get(&self, cell: (i64, i64)) -> (r: Vec<u64>)
        ensures
            r@ == buckets_model(self)[(cell.0 as int, cell.1 as int)],
    {
        match self.inner.get(&cell) {
            Some(v) => v.clone(),
            None => Vec::new(),
        }
    }

    /// Relies on `IndexMap::clear`: all entries are removed, so every bucket
    /// reads as empty again.
    #[verifier::external_body]
    pub fn clear(&mut self)
        ensures
            forall|c: (int, int)| #[trigger] buckets_model(final(self))[c] == Seq::<u64>::empty(),
    {
        self.inner.clear();
    }
}

/// The live set of a scene: entity identifiers in insertion order.
#[verifier::external_body]
pub struct LiveSet {
    inner: IndexSet<u64>,
}

/// What the set holds, in insertion order.
pub uninterp spec fn live_model(s: &LiveSet) -> Seq<u64>;

impl LiveSet {
    /// Relies on `IndexSet::new`: the fresh set is empty.
    #[verifier::external_body]
    pub fn new() -> (r: LiveSet)
        ensures
            live_model(&r) == Seq::<u64>::empty(),
    {
        LiveSet { inner: IndexSet::new() }
    }

    /// Relies on `IndexSet::insert`: a value not yet present is appended and
    /// `true` returned; a present value leaves the set untouched.
    #[verifier::external_body]
    pub fn insert(&mut self, id: u64) -> (r: bool)
        ensures
            r == !live_model(old(self)).contains(id),
            r ==> live_model(final(self)) == live_model(old(self)).push(id),
            !r ==> live_model(final(self)) == live_model(old(self)),
    {
        self.inner.insert(id)
    }

    /// Relies on `IndexSet::contains`.
    #[verifier::external_body]
    pub fn contains(&self, id: u64) -> (r: bool)
        ensures
            r == live_model(self).contains(id),
    {
        self.inner.contains(&id)
    }

    /// Relies on `IndexSet::swap_remove`: the value, if present, is removed
    /// by swapping the last element into its place.
    #[verifier::external_body]
    pub fn swap_remove(&mut self, id: u64) -> (r: bool)
        ensures
            r == live_model(old(self)).contains(id),
            !r ==> live_model(final(self)) == live_model(old(self)),
            r ==> exists|i: int|
                0 <= i < live_model(old(self)).len() && live_model(old(self))[i] == id
                    && live_model(final(self)) == live_model(old(self)).update(
                    i,
                    live_model(old(self)).last(),
                ).drop_last(),
    {
        self.inner.swap_remove(&id)
    }

    /// Relies on `IndexSet::iter`: the values in insertion order.
    #[verifier::external_body]
    pub fn ids(&self) -> (r: Vec<u64>)
        ensures
            r@ == live_model(self),
    {
        self.inner.iter().copied().collect()
    }

    /// Relies on `IndexSet::len`.
    #[verifier::external_body]
    pub fn len(&self) -> (r: usize)
        ensures
            r == live_model(self).len(),
    {
        self.inner.len()
    }

    /// Relies on `IndexSet::clear`: all values are removed.
    #[verifier::external_body]
    pub fn clear(&mut self)
        ensures
            live_model(final(self)) == Seq::<u64>::empty(),
    {
        self.inner.clear();
    }
}

} // verus!
