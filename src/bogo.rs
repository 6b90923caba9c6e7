use vstd::prelude::*;
use rand::{Rng, SeedableRng};
use crate::sorters::{is_sorted, swap_entries, swapped, Sorter};

verus! {

#[verifier::external_type_specification]
#[verifier::external_body]
pub struct ExStdRng(rand::rngs::StdRng);

/// Relies on rand's `SeedableRng::seed_from_u64` for `StdRng`: a generator determined by
/// the seed.
#[verifier::external_body]
fn seeded_rng(seed: u64) -> rand::rngs::StdRng {
    rand::rngs::StdRng::seed_from_u64(seed)
}

/// Relies on rand's `Rng::random_range` over `0..bound`: a value below `bound` (it panics
/// only on an empty range).
#[verifier::external_body]
fn random_index(rng: &mut rand::rngs::StdRng, bound: usize) -> (r: usize)
    requires
        bound > 0,
    ensures
        r < bound,
{
    rng.random_range(0..bound)
}

/// Reports whether `data` is in ascending order.
pub fn is_ascending(data: &[usize]) -> (r: bool)
    ensures
        r == is_sorted(data@),
{
    let n = data.len();
    if n <= 1 {
        return true;
    }
    let mut i: usize = 0;
    while i + 1 < n
        invariant
            n == data@.len(),
            n >= 2,
            i + 1 <= n,
            forall|a: int, b: int| 0 <= a <= b <= i ==> data@[a] <= data@[b],
        decreases n - i,
    {
        if data[i] > data[i + 1] {
            return false;
        }
        i = i + 1;
    }
    true
}

/// Swaps a random pair of entries until the dataset is found in order. Its running time is
/// unbounded.
pub struct BogoSorter {
    rng: rand::rngs::StdRng,
    len: usize,
    /// The pair exchanged by the latest step, if any.
    last: Option<(usize, usize)>,
    sorted: bool,
}

impl BogoSorter {
    /// A sorter for datasets of `data_length` values, drawing its swaps from a generator
    /// seeded with `seed`.
    pub fn new(data_length: usize, seed: u64) -> (r: Self)
        ensures
            r.data_len() == data_length,
            r.wf(),
            forall|d: Seq<usize>| d.len() == data_length ==> r.inv(d),
            !r.finished(),
            !r.bounded(),
            r.last_swap() == None::<(usize, usize)>,
    {
        BogoSorter { rng: seeded_rng(seed), len: data_length, last: None, sorted: false }
    }

    /// The pair exchanged by the latest step, if any.
    pub closed spec fn last_swap(&self) -> Option<(usize, usize)> {
        self.last
    }

    /// Exchanges `data[i]` and `data[j]` and records them as the latest swap.
    pub fn transpose(&mut self, data: &mut [usize], i: usize, j: usize)
        requires
            old(self).wf(),
            !old(self).finished(),
            old(data)@.len() == old(self).data_len(),
            i < old(data)@.len(),
            j < old(data)@.len(),
        ensures
            final(self).wf(),
            !final(self).finished(),
            final(self).data_len() == old(self).data_len(),
            final(self).inv(final(data)@),
            final(data)@ == swapped(old(data)@, i as int, j as int),
            final(data)@.to_multiset() == old(data)@.to_multiset(),
            final(self).last_swap() == Some((i, j)),
    {
        swap_entries(data, i, j);
        self.last = Some((i, j));
    }
}

impl Sorter for BogoSorter {
    closed spec fn data_len(&self) -> nat {
        self.len as nat
    }

    closed spec fn wf(&self) -> bool {
        match self.last {
            Some((i, j)) => i < self.len && j < self.len,
            None => true,
        }
    }

    closed spec fn inv(&self, data: Seq<usize>) -> bool {
        &&& self.wf()
        &&& data.len() == self.len
        &&& self.sorted ==> is_sorted(data)
    }

    closed spec fn finished(&self) -> bool {
        self.sorted
    }

    /// Once finished nothing changes; on sorted data the sorter finishes; otherwise one
    /// pair of positions, drawn at random, is exchanged and recorded.
    open spec fn transition(&self, next: &Self, d0: Seq<usize>, d1: Seq<usize>, done: bool) -> bool {
        if self.finished() {
            &&& done
            &&& next == self
            &&& d1 == d0
        } else if is_sorted(d0) {
            &&& done
            &&& next.finished()
            &&& next.last_swap() == self.last_swap()
            &&& d1 == d0
        } else {
            &&& !done
            &&& !next.finished()
            &&& exists|i: int, j: int|
                0 <= i < d0.len() && 0 <= j < d0.len() && d1 == #[trigger] swapped(d0, i, j)
                    && next.last_swap() == Some((i as usize, j as usize))
        }
    }

    open spec fn active(&self) -> Seq<usize> {
        if self.finished() {
            seq![]
        } else {
            match self.last_swap() {
                Some((i, j)) => seq![i, j],
                None => seq![],
            }
        }
    }

    closed spec fn bounded(&self) -> bool {
        false
    }

    closed spec fn work_left(&self) -> nat {
        0
    }

    fn step(&mut self, data: &mut [usize]) -> (done: bool) {
        if self.sorted {
            return true;
        }
        if is_ascending(data) {
            self.sorted = true;
            return true;
        }
        let n = data.len();
        assert(n >= 2) by {
            if n < 2 {
                assert(is_sorted(data@));
            }
        }
        let i = random_index(&mut self.rng, n);
        let j = random_index(&mut self.rng, n);
        self.transpose(data, i, j);
        assert(data@ == swapped(old(data)@, i as int, j as int));
        false
    }

    fn pointers(&self) -> (r: Vec<usize>) {
        if self.sorted {
            return Vec::new();
        }
        match self.last {
            Some((i, j)) => vec![i, j],
            None => Vec::new(),
        }
    }
}

} // verus!
