use vstd::prelude::*;

pub use crate::bogo::BogoSorter;
pub use crate::bubble::BubbleSorter;
pub use crate::quick::QuickSorter;

verus! {

broadcast use vstd::seq_lib::group_to_multiset_ensures;

/// Ascending order over the whole sequence.
pub open spec fn is_sorted(s: Seq<usize>) -> bool {
    forall|i: int, j: int| 0 <= i <= j < s.len() ==> s[i] <= s[j]
}

/// `s` with the values at `i` and `j` exchanged.
pub open spec fn swapped(s: Seq<usize>, i: int, j: int) -> Seq<usize> {
    s.update(i, s[j]).update(j, s[i])
}

/// Exchanges two entries of `data`; the multiset of values is unchanged.
pub fn swap_entries(data: &mut [usize], i: usize, j: usize)
    requires
        i < old(data)@.len(),
        j < old(data)@.len(),
    ensures
        final(data)@ == swapped(old(data)@, i as int, j as int),
        final(data)@.to_multiset() == old(data)@.to_multiset(),
{
    let a = data[i];
    let b = data[j];
    data[i] = b;
    data[j] = a;
    proof {
        let s = old(data)@;
        assert(s.update(i as int, s[j as int]).to_multiset() == s.to_multiset().insert(b).remove(a));
    }
}

/// A sort that advances by one comparison, and at most one swap, per call to `step`.
pub trait Sorter {
    /// Length of the dataset the sorter was sized for.
    spec fn data_len(&self) -> nat;

    /// The sorter's state is consistent with the dataset `data`.
    spec fn inv(&self, data: Seq<usize>) -> bool;

    /// The sorter's own state is well formed, whatever the dataset.
    spec fn wf(&self) -> bool;

    /// The dataset has been reported sorted; further steps change nothing.
    spec fn finished(&self) -> bool;

    /// The sorter has a known bound on its remaining work.
    spec fn bounded(&self) -> bool;

    /// Upper bound on the number of further steps that report `false`.
    spec fn work_left(&self) -> nat;

    /// One call of `step` may take the sorter from `self` to `next` and the dataset from
    /// `d0` to `d1`, reporting `done`.
    spec fn transition(&self, next: &Self, d0: Seq<usize>, d1: Seq<usize>, done: bool) -> bool;

    /// The indices `pointers` reports.
    spec fn active(&self) -> Seq<usize>;

    /// Performs one unit of work on `data` and reports whether it is now sorted.
    fn step(&mut self, data: &mut [usize]) -> (done: bool)
        requires
            old(data)@.len() == old(self).data_len(),
            old(self).inv(old(data)@),
        ensures
            final(self).data_len() == old(self).data_len(),
            final(self).wf(),
            final(self).inv(final(data)@),
            final(data)@.len() == old(data)@.len(),
            final(data)@.to_multiset() == old(data)@.to_multiset(),
            final(data)@ == old(data)@ || exists|i: int, j: int|
                0 <= i < old(data)@.len() && 0 <= j < old(data)@.len() && final(data)@ == #[trigger] swapped(
                    old(data)@,
                    i,
                    j,
                ),
            old(self).transition(final(self), old(data)@, final(data)@, done),
            done == final(self).finished(),
            done ==> is_sorted(final(data)@),
            old(self).finished() ==> done && final(data)@ == old(data)@,
            old(self).data_len() <= 1 ==> done && final(data)@ == old(data)@,
            old(self).bounded() ==> final(self).bounded(),
            old(self).bounded() && !done ==> final(self).work_left() < old(self).work_left(),
    ;

    /// The indices currently of interest, for highlighting.
    fn pointers(&self) -> (r: Vec<usize>)
        requires
            self.wf(),
        ensures
            r@ == self.active(),
            forall|k: int| 0 <= k < r@.len() ==> r@[k] < self.data_len(),
            self.finished() ==> r@.len() == 0,
    ;
}

} // verus!
