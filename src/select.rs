use vstd::prelude::*;
use crate::bogo::BogoSorter;
use crate::bubble::BubbleSorter;
use crate::quick::QuickSorter;
use crate::sorters::Sorter;

verus! {

/// The algorithms a caller can choose from.
#[derive(Clone, Copy, Debug, PartialEq, Eq, Structural)]
pub enum SortingAlgorithm {
    Bogo,
    Bubble,
    Quick,
}

/// One sorter of any of the available algorithms.
pub enum AnySorter {
    Bogo(BogoSorter),
    Bubble(BubbleSorter),
    Quick(QuickSorter),
}

impl AnySorter {
    /// The algorithm this sorter runs.
    pub open spec fn algorithm(&self) -> SortingAlgorithm {
        match self {
            AnySorter::Bogo(_) => SortingAlgorithm::Bogo,
            AnySorter::Bubble(_) => SortingAlgorithm::Bubble,
            AnySorter::Quick(_) => SortingAlgorithm::Quick,
        }
    }
}

/// A fresh sorter running `alg` on datasets of `data_length` values; `seed` feeds the
/// randomized algorithm and is ignored by the others.
pub fn create_sorter(alg: SortingAlgorithm, data_length: usize, seed: u64) -> (r: AnySorter)
    ensures
        r.algorithm() == alg,
        alg == SortingAlgorithm::Bubble ==> r->Bubble_0.is_fresh(data_length as nat),
        alg == SortingAlgorithm::Quick ==> r->Quick_0.is_fresh(data_length as nat),
        alg == SortingAlgorithm::Bogo ==> !r.finished() && r->Bogo_0.last_swap() == None::<(usize, usize)>,
        r.data_len() == data_length,
        r.wf(),
        forall|d: Seq<usize>| d.len() == data_length ==> r.inv(d),
        r.bounded() == (alg != SortingAlgorithm::Bogo),
        alg == SortingAlgorithm::Bubble ==> r.work_left() == data_length * data_length,
        alg == SortingAlgorithm::Quick ==> r.work_left() <= data_length * data_length,
{
    match alg {
        SortingAlgorithm::Bogo => AnySorter::Bogo(BogoSorter::new(data_length, seed)),
        SortingAlgorithm::Bubble => AnySorter::Bubble(BubbleSorter::new(data_length)),
        SortingAlgorithm::Quick => AnySorter::Quick(QuickSorter::new(data_length)),
    }
}

impl Sorter for AnySorter {
    open spec fn data_len(&self) -> nat {
        match self {
            AnySorter::Bogo(s) => s.data_len(),
            AnySorter::Bubble(s) => s.data_len(),
            AnySorter::Quick(s) => s.data_len(),
        }
    }

    open spec fn wf(&self) -> bool {
        match self {
            AnySorter::Bogo(s) => s.wf(),
            AnySorter::Bubble(s) => s.wf(),
            AnySorter::Quick(s) => s.wf(),
        }
    }

    open spec fn inv(&self, data: Seq<usize>) -> bool {
        match self {
            AnySorter::Bogo(s) => s.inv(data),
            AnySorter::Bubble(s) => s.inv(data),
            AnySorter::Quick(s) => s.inv(data),
        }
    }

    open spec fn finished(&self) -> bool {
        match self {
            AnySorter::Bogo(s) => s.finished(),
            AnySorter::Bubble(s) => s.finished(),
            AnySorter::Quick(s) => s.finished(),
        }
    }

    open spec fn transition(&self, next: &Self, d0: Seq<usize>, d1: Seq<usize>, done: bool) -> bool {
        match self {
            AnySorter::Bogo(s) => next is Bogo && s.transition(&next->Bogo_0, d0, d1, done),
            AnySorter::Bubble(s) => next is Bubble && s.transition(&next->Bubble_0, d0, d1, done),
            AnySorter::Quick(s) => next is Quick && s.transition(&next->Quick_0, d0, d1, done),
        }
    }

    open spec fn active(&self) -> Seq<usize> {
        match self {
            AnySorter::Bogo(s) => s.active(),
            AnySorter::Bubble(s) => s.active(),
            AnySorter::Quick(s) => s.active(),
        }
    }

    open spec fn bounded(&self) -> bool {
        match self {
            AnySorter::Bogo(s) => s.bounded(),
            AnySorter::Bubble(s) => s.bounded(),
            AnySorter::Quick(s) => s.bounded(),
        }
    }

    open spec fn work_left(&self) -> nat {
        match self {
            AnySorter::Bogo(s) => s.work_left(),
            AnySorter::Bubble(s) => s.work_left(),
            AnySorter::Quick(s) => s.work_left(),
        }
    }

    fn step(&mut self, data: &mut [usize]) -> (done: bool) {
        match self {
            AnySorter::Bogo(s) => s.step(data),
            AnySorter::Bubble(s) => s.step(data),
            AnySorter::Quick(s) => s.step(data),
        }
    }

    fn pointers(&self) -> (r: Vec<usize>) {
        match self {
            AnySorter::Bogo(s) => s.pointers(),
            AnySorter::Bubble(s) => s.pointers(),
            AnySorter::Quick(s) => s.pointers(),
        }
    }
}

} // verus!
