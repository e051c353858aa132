//! Two elements of one slice, both for writing.

use vstd::pervasive::runtime_assert;
use vstd::prelude::*;

verus! {

/// Access to two elements of a slice at once.
pub trait SliceExt {
    type Item;

    /// What the slice holds, as a sequence.
    spec fn items(&self) -> Seq<Self::Item>;

    /// The elements at two different places, both for writing. Whatever is
    /// written through them lands at those two places, and nowhere else.
    fn get_two_mut(&mut self, index0: usize, index1: usize) -> (r: (
        &mut Self::Item,
        &mut Self::Item,
    ))
        requires
            index0 != index1,
            index0 < old(self).items().len(),
            index1 < old(self).items().len(),
        ensures
            *r.0 == old(self).items()[index0 as int],
            *r.1 == old(self).items()[index1 as int],
            final(self).items() == old(self).items().update(index0 as int, *final(r.0)).update(
                index1 as int,
                *final(r.1),
            ),
    ;
}

impl<T> SliceExt for [T] {
    type Item = T;

    open spec fn items(&self) -> Seq<T> {
        self@
    }

    fn get_two_mut(&mut self, a: usize, b: usize) -> (r: (&mut T, &mut T)) {
        runtime_assert(a != b);
        runtime_assert(a < self.len());
        runtime_assert(b < self.len());
        if a < b {
            let (low, high) = self.split_at_mut(b);
            (&mut low[a], &mut high[0])
        } else {
            let (low, high) = self.split_at_mut(a);
            (&mut high[0], &mut low[b])
        }
    }
}

} // verus!
