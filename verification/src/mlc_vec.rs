//! A copy-on-write ordered sequence backed by one [`AtomicCell`].
//!
//! The cell's value is the backing array, a vector of shared element
//! handles.  Every mutation goes through the cell's `fetch_update`: it reads
//! the current array, builds a fresh one, and publishes it, so a snapshot
//! handed out by `get_beam` is never changed under its holder.

use crate::cell::arc_clone;
use crate::cell::AtomicCell;
use std::sync::Arc;
use vstd::prelude::*;

verus! {

/// Copies a backing array: a fresh vector whose entries are new handles to
/// the same shared elements.
fn clone_arc_vec<T>(v: &Vec<Arc<T>>) -> (r: Vec<Arc<T>>)
    ensures
        r@ == v@,
{
    let mut r: Vec<Arc<T>> = Vec::new();
    let mut k: usize = 0;
    while k < v.len()
        invariant
            k <= v@.len(),
            r@ == v@.take(k as int),
        decreases v@.len() - k,
    {
        r.push(arc_clone(&v[k]));
        proof {
            assert(r@ =~= v@.take(k + 1 as int));
        }
        k = k + 1;
    }
    proof {
        assert(v@.take(v@.len() as int) =~= v@);
    }
    r
}

/// The copy-on-write sequence: one cell holding the backing array.
pub struct AtomicVec<T> {
    beam: AtomicCell<Vec<Arc<T>>>,
}

impl<T> AtomicVec<T> {
    /// The elements currently published, as a sequence of shared handles.
    pub closed spec fn view(&self) -> Seq<Arc<T>> {
        self.beam.value()@
    }

    pub closed spec fn wf(&self) -> bool {
        self.beam.wf()
    }

    /// An empty sequence.
    pub fn new() -> (r: Self)
        ensures
            r.wf(),
            r@.len() == 0,
    {
        AtomicVec { beam: AtomicCell::new(Vec::new()) }
    }

    /// An empty sequence whose backing array reserves room for `cap`
    /// elements.
    pub fn new_with_capacity(cap: usize) -> (r: Self)
        ensures
            r.wf(),
            r@.len() == 0,
    {
        AtomicVec { beam: AtomicCell::new(Vec::with_capacity(cap)) }
    }

    /// A snapshot handle to the whole current backing array.
    pub fn get_beam(&self) -> (r: Arc<Vec<Arc<T>>>)
        requires
            self.wf(),
        ensures
            r@ == self@,
    {
        self.beam.load()
    }

    /// Reads the current array, applies `f` to it, and publishes the array
    /// `f` returns, retrying on a conflicting publication; hands back the
    /// second component of `f`'s result from the attempt that published.
    pub fn update<O, F: Fn(Arc<Vec<Arc<T>>>) -> (Arc<Vec<Arc<T>>>, O)>(&mut self, f: F) -> (r: O)
        requires
            old(self).wf(),
            forall|a: Arc<Vec<Arc<T>>>| a@ == old(self)@ ==> call_requires(f, (a,)),
        ensures
            final(self).wf(),
            exists|a: Arc<Vec<Arc<T>>>, w: Arc<Vec<Arc<T>>>|
                a@ == old(self)@ && #[trigger] call_ensures(f, (a,), (w, r)) && final(self)@ == w@,
    {
        proof {
            assert forall|a: Arc<Vec<Arc<T>>>| a == self.beam.value() implies call_requires(
                f,
                (a,),
            ) by {
                assert(a@ == old(self)@);
            }
        }
        self.beam.fetch_update(f)
    }

    /// The element at `idx`, or nothing when `idx` lies past the end.
    pub fn get(&self, idx: usize) -> (r: Option<Arc<T>>)
        requires
            self.wf(),
        ensures
            idx < self@.len() ==> (r matches Some(a) && a == self@[idx as int]),
            idx >= self@.len() ==> r is None,
    {
        let beam = self.beam.load();
        if idx < beam.len() {
            Some(arc_clone(&beam[idx]))
        } else {
            None
        }
    }

    /// Appends `data`, publishing a fresh backing array that ends with it.
    pub fn push(&mut self, data: T)
        requires
            old(self).wf(),
        ensures
            final(self).wf(),
            final(self)@.len() == old(self)@.len() + 1,
            final(self)@.last() == data,
            forall|i: int| 0 <= i < old(self)@.len() ==> final(self)@[i] == old(self)@[i],
    {
        let new = Arc::new(data);
        let new_ref = &new;
        let appended = |vec: Arc<Vec<Arc<T>>>| -> (res: (Arc<Vec<Arc<T>>>, ()))
            ensures
                res.0@ == vec@.push(*new_ref),
            {
                let mut next_vec = clone_arc_vec(&vec);
                next_vec.push(arc_clone(new_ref));
                (Arc::new(next_vec), ())
            };
        let _ = self.beam.fetch_update(appended);
    }

    /// Removes and returns the last element, or nothing when the sequence is
    /// empty; publishes the shortened backing array.
    pub fn pop(&mut self) -> (r: Option<Arc<T>>)
        requires
            old(self).wf(),
        ensures
            final(self).wf(),
            old(self)@.len() == 0 ==> r is None && final(self)@ == old(self)@,
            old(self)@.len() > 0 ==> (r matches Some(a) && a == old(self)@.last()
                && final(self)@ == old(self)@.drop_last()),
    {
        let shortened = |vec: Arc<Vec<Arc<T>>>| -> (res: (Arc<Vec<Arc<T>>>, Option<Arc<T>>))
            ensures
                vec@.len() == 0 ==> res.0@ == vec@ && res.1 is None,
                vec@.len() > 0 ==> (res.1 matches Some(a) &&
                    a == vec@.last() && res.0@ == vec@.drop_last()),
            {
                let mut next_vec = clone_arc_vec(&vec);
                let output = next_vec.pop();
                (Arc::new(next_vec), output)
            };
        self.beam.fetch_update(shortened)
    }
}

} // verus!
