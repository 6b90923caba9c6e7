use vstd::prelude::*;
use crate::sorters::{is_sorted, swap_entries, swapped, Sorter};

verus! {

/// Bubble sort that keeps a sorted block at the tail and bubbles the largest remaining
/// value of the unsorted prefix into it.
pub struct BubbleSorter {
    current: usize,
    /// Index of the first element of the sorted block at the end of the dataset.
    first_sorted: usize,
    len: usize,
}

/// Every value before `b` is at most every value from `b` on, and `[b, len)` is ascending.
pub open spec fn sorted_tail(s: Seq<usize>, b: int) -> bool {
    &&& forall|i: int, j: int| 0 <= i < b <= j < s.len() ==> s[i] <= s[j]
    &&& forall|i: int, j: int| b <= i <= j < s.len() ==> s[i] <= s[j]
}

/// `s[c]` is a maximum of `s[0..=c]`.
pub open spec fn max_at(s: Seq<usize>, c: int) -> bool {
    forall|i: int| 0 <= i <= c ==> s[i] <= s[c]
}

impl BubbleSorter {
    /// Index of the left element of the next pair to compare.
    pub closed spec fn cursor(&self) -> usize {
        self.current
    }

    /// Index of the first element of the sorted tail.
    pub closed spec fn boundary(&self) -> usize {
        self.first_sorted
    }

    /// The state of a sorter that has not yet stepped, for datasets of `n` values.
    pub open spec fn is_fresh(&self, n: nat) -> bool {
        &&& self.data_len() == n
        &&& self.cursor() == 0
        &&& self.boundary() == n
    }

    /// One bubble step: at a boundary of at most one element, report sorted; when the
    /// cursor reaches the sorted tail, move the boundary one left and restart the cursor;
    /// then swap the pair at the cursor if it is out of order and advance the cursor.
    pub open spec fn bubble_step(&self, next: &Self, d0: Seq<usize>, d1: Seq<usize>, done: bool) -> bool {
        let b = self.boundary();
        let c = self.cursor();
        let reset = c + 1 >= b;
        let b1: int = if reset { b - 1 } else { b as int };
        let c1: int = if reset { 0 } else { c as int };
        if b <= 1 || b1 <= 1 {
            &&& done
            &&& next.boundary() == 0
            &&& next.cursor() == 0
            &&& d1 == d0
        } else {
            &&& !done
            &&& next.boundary() == b1
            &&& next.cursor() == c1 + 1
            &&& d1 == if d0[c1] > d0[c1 + 1] {
                swapped(d0, c1, c1 + 1)
            } else {
                d0
            }
        }
    }

    pub fn new(data_length: usize) -> (r: Self)
        ensures
            r.is_fresh(data_length as nat),
            r.data_len() == data_length,
            r.wf(),
            forall|d: Seq<usize>| d.len() == data_length ==> r.inv(d),
            r.finished() == (data_length == 0),
            r.bounded(),
            r.work_left() == data_length * data_length,
    {
        BubbleSorter { current: 0, first_sorted: data_length, len: data_length }
    }
}

impl Sorter for BubbleSorter {
    closed spec fn data_len(&self) -> nat {
        self.len as nat
    }

    closed spec fn wf(&self) -> bool {
        &&& self.first_sorted <= self.len
        &&& self.first_sorted == 0 ==> self.current == 0
        &&& self.first_sorted > 0 ==> self.current < self.first_sorted
    }

    closed spec fn inv(&self, data: Seq<usize>) -> bool {
        &&& self.wf()
        &&& data.len() == self.len
        &&& sorted_tail(data, self.first_sorted as int)
        &&& self.first_sorted > 0 ==> max_at(data, self.current as int)
    }

    closed spec fn finished(&self) -> bool {
        self.first_sorted == 0
    }

    open spec fn transition(&self, next: &Self, d0: Seq<usize>, d1: Seq<usize>, done: bool) -> bool {
        self.bubble_step(next, d0, d1, done)
    }

    open spec fn active(&self) -> Seq<usize> {
        if self.boundary() == 0 {
            seq![]
        } else {
            seq![self.cursor()]
        }
    }

    closed spec fn bounded(&self) -> bool {
        true
    }

    closed spec fn work_left(&self) -> nat {
        (self.first_sorted * self.first_sorted - self.current) as nat
    }

    fn step(&mut self, data: &mut [usize]) -> (done: bool) {
        if self.first_sorted <= 1 {
            // A prefix of at most one element is in place: everything is sorted.
            self.first_sorted = 0;
            self.current = 0;
            return true;
        }
        if self.current >= self.first_sorted - 1 {
            // `data[current]` is the largest of the prefix: it joins the sorted block.
            let ghost b = self.first_sorted as int;
            self.current = 0;
            self.first_sorted = self.first_sorted - 1;
            if self.first_sorted <= 1 {
                self.first_sorted = 0;
                return true;
            }
            assert((b - 1) * (b - 1) - 1 < b * b - (b - 1)) by (nonlinear_arith)
                requires
                    b >= 2,
            ;
        }
        if data[self.current] > data[self.current + 1] {
            swap_entries(data, self.current, self.current + 1);
            assert(data@ == swapped(old(data)@, self.current as int, self.current + 1));
        }
        self.current = self.current + 1;
        proof {
            let b = self.first_sorted as int;
            assert(b <= b * b) by (nonlinear_arith)
                requires
                    b >= 0,
            ;
        }
        false
    }

    fn pointers(&self) -> (r: Vec<usize>) {
        if self.first_sorted == 0 {
            Vec::new()
        } else {
            vec![self.current]
        }
    }
}

} // verus!
