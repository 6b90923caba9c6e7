use vstd::prelude::*;
use crate::sorters::{is_sorted, swap_entries, swapped, Sorter};

verus! {

/// Quicksort with Lomuto partitioning; the pending ranges live on an explicit stack so
/// that the sort can stop after any comparison.
pub struct QuickSorter {
    /// Pending inclusive ranges; the last one is the next to be partitioned.
    stack: Vec<(usize, usize)>,
    current_low: usize,
    current_high: usize,
    /// Values in `[current_low, left_pointer)` are below the pivot.
    left_pointer: usize,
    /// Next index to compare with the pivot `data[current_high]`.
    right_pointer: usize,
    len: usize,
}

/// Every value before position `c` is at most every value from `c` on.
pub open spec fn is_cut(s: Seq<usize>, c: int) -> bool {
    forall|i: int, j: int| 0 <= i < c <= j < s.len() ==> s[i] <= s[j]
}

/// Position `c` lies strictly inside one of the ranges of `st` (it splits that range).
pub open spec fn in_stack(st: Seq<(usize, usize)>, c: int) -> bool {
    exists|k: int| 0 <= k < st.len() && (#[trigger] st[k]).0 < c <= st[k].1
}

/// Each range holds at least two indices below `n`; later ranges lie left of earlier ones.
pub open spec fn ranges_ok(st: Seq<(usize, usize)>, n: nat) -> bool {
    &&& forall|k: int| 0 <= k < st.len() ==> (#[trigger] st[k]).0 < st[k].1 < n
    &&& forall|i: int, j: int| 0 <= i < j < st.len() ==> (#[trigger] st[j]).1 < (#[trigger] st[i]).0
}

/// Every range of `st` lies right of index `hi`.
pub open spec fn right_of(st: Seq<(usize, usize)>, hi: int) -> bool {
    forall|k: int| 0 <= k < st.len() ==> hi < (#[trigger] st[k]).0
}

/// The stack after partitioning `[lo, hi]` around a pivot at `p`: the right part is
/// pushed first, then the left part, each only when it holds two or more indices.
pub open spec fn with_subranges(st: Seq<(usize, usize)>, lo: usize, p: usize, hi: usize) -> Seq<(usize, usize)> {
    let st1 = if p + 1 < hi { st.push(((p + 1) as usize, hi)) } else { st };
    if lo + 1 < p { st1.push((lo, (p - 1) as usize)) } else { st1 }
}

/// Steps still allowed for a pending range of `d + 1` indices: `d` comparisons for its
/// own partition, and `d * d` for the parts it splits into.
pub open spec fn range_cost(r: (usize, usize)) -> nat {
    let d = (r.1 - r.0) as nat;
    d + d * d
}

pub open spec fn stack_cost(st: Seq<(usize, usize)>) -> nat
    decreases st.len(),
{
    if st.len() == 0 {
        0
    } else {
        stack_cost(st.drop_last()) + range_cost(st.last())
    }
}

impl QuickSorter {
    /// Lower end of the range being partitioned.
    pub closed spec fn low(&self) -> usize {
        self.current_low
    }

    /// Upper end of the range being partitioned; its value is the pivot.
    pub closed spec fn high(&self) -> usize {
        self.current_high
    }

    /// Values in `[low, left)` are below the pivot.
    pub closed spec fn left(&self) -> usize {
        self.left_pointer
    }

    /// Next index compared with the pivot.
    pub closed spec fn right(&self) -> usize {
        self.right_pointer
    }

    /// Ranges still to be partitioned; the last is taken next.
    pub closed spec fn pending(&self) -> Seq<(usize, usize)> {
        self.stack@
    }

    /// The state of a sorter that has not yet stepped, for datasets of `n` values.
    pub open spec fn is_fresh(&self, n: nat) -> bool {
        &&& self.data_len() == n
        &&& self.low() == 0
        &&& self.high() == if n == 0 { 0 } else { n - 1 }
        &&& self.left() == 0
        &&& self.right() == 0
        &&& self.pending() == Seq::<(usize, usize)>::empty()
    }

    /// One quicksort step. While the scan is inside the range, compare `d0[right]` with the
    /// pivot `d0[high]`, move it to the left part if it is smaller, and advance. When the
    /// scan reaches the pivot, put the pivot at `left`, push the parts on either side that
    /// hold two or more indices (right part first), and take the last pending range, making
    /// its first comparison; with none left, report sorted.
    pub open spec fn quick_step(&self, next: &Self, d0: Seq<usize>, d1: Seq<usize>, done: bool) -> bool {
        let (lo, hi, l, r) = (self.low(), self.high(), self.left(), self.right());
        if lo >= hi {
            &&& done
            &&& next == self
            &&& d1 == d0
        } else if r < hi {
            let less = d0[r as int] < d0[hi as int];
            &&& !done
            &&& d1 == if less { swapped(d0, l as int, r as int) } else { d0 }
            &&& next.low() == lo
            &&& next.high() == hi
            &&& next.pending() == self.pending()
            &&& next.left() == if less { l + 1 } else { l as int }
            &&& next.right() == r + 1
        } else {
            let placed = swapped(d0, l as int, hi as int);
            let full = with_subranges(self.pending(), lo, l, hi);
            let lo1 = full.last().0;
            let hi1 = full.last().1;
            &&& d1 == placed
            &&& done == (full.len() == 0)
            &&& done ==> next.low() == 0 && next.high() == 0 && next.left() == 0 && next.right() == 0
                && next.pending().len() == 0
            &&& !done ==> {
                &&& next.pending() == full.drop_last()
                &&& next.low() == lo1
                &&& next.high() == hi1
                &&& next.left() == if placed[lo1 as int] < placed[hi1 as int] { lo1 + 1 } else { lo1 as int }
                &&& next.right() == lo1 + 1
            }
        }
    }

    pub fn new(data_length: usize) -> (r: Self)
        ensures
            r.is_fresh(data_length as nat),
            r.data_len() == data_length,
            r.wf(),
            forall|d: Seq<usize>| d.len() == data_length ==> r.inv(d),
            r.finished() == (data_length <= 1),
            r.bounded(),
            r.work_left() <= data_length * data_length,
    {
        let high = if data_length == 0 { 0 } else { data_length - 1 };
        proof {
            let h = high as int;
            assert(h + h * h <= (h + 1) * (h + 1)) by (nonlinear_arith)
                requires
                    h >= 0,
            ;
            assert(stack_cost(Seq::<(usize, usize)>::empty()) == 0);
        }
        QuickSorter {
            stack: Vec::new(),
            current_low: 0,
            current_high: high,
            left_pointer: 0,
            right_pointer: 0,
            len: data_length,
        }
    }

    /// Pushes the parts of the finished range on either side of the pivot at
    /// `left_pointer`, then takes the next range; returns `true` when none is left.
    fn repartition(&mut self) -> (done: bool)
        requires
            old(self).current_low <= old(self).left_pointer <= old(self).current_high,
            old(self).current_high < old(self).len,
        ensures
            ({
                let full = with_subranges(
                    old(self).stack@,
                    old(self).current_low,
                    old(self).left_pointer,
                    old(self).current_high,
                );
                &&& done == (full.len() == 0)
                &&& done ==> final(self).stack@.len() == 0 && final(self).current_low == 0
                    && final(self).current_high == 0
                &&& !done ==> final(self).stack@ == full.drop_last()
                    && final(self).current_low == full.last().0
                    && final(self).current_high == full.last().1
                &&& final(self).left_pointer == final(self).current_low
                &&& final(self).right_pointer == final(self).current_low
                &&& final(self).len == old(self).len
            }),
    {
        let p = self.left_pointer;
        if p + 1 < self.current_high {
            self.stack.push((p + 1, self.current_high));
        }
        if self.current_low + 1 < p {
            self.stack.push((self.current_low, p - 1));
        }
        match self.stack.pop() {
            None => {
                self.current_low = 0;
                self.current_high = 0;
                self.left_pointer = 0;
                self.right_pointer = 0;
                true
            },
            Some((low, high)) => {
                self.current_low = low;
                self.current_high = high;
                self.left_pointer = low;
                self.right_pointer = low;
                false
            },
        }
    }
}


/// A swap inside `[lo, hi]` keeps every cut that does not split that range.
proof fn lemma_swap_keeps_cuts(s: Seq<usize>, a: int, b: int, lo: int, hi: int)
    requires
        0 <= lo <= a <= hi,
        lo <= b <= hi,
        hi < s.len(),
    ensures
        forall|c: int|
            0 <= c <= s.len() && !(lo < c <= hi) && #[trigger] is_cut(s, c) ==> is_cut(
                swapped(s, a, b),
                c,
            ),
{
    let t = swapped(s, a, b);
    assert forall|c: int| 0 <= c <= s.len() && !(lo < c <= hi) && #[trigger] is_cut(s, c) implies is_cut(
        t,
        c,
    ) by {
        assert forall|i: int, j: int| 0 <= i < c <= j < t.len() implies t[i] <= t[j] by {
            let i0 = if i == b { a } else if i == a { b } else { i };
            let j0 = if j == b { a } else if j == a { b } else { j };
            assert(t[i] == s[i0]);
            assert(t[j] == s[j0]);
        }
    }
}

/// With a cut at every position, the sequence is ascending.
proof fn lemma_all_cuts_sorted(s: Seq<usize>)
    requires
        forall|c: int| 0 <= c <= s.len() ==> #[trigger] is_cut(s, c),
    ensures
        is_sorted(s),
{
    assert forall|i: int, j: int| 0 <= i <= j < s.len() implies s[i] <= s[j] by {
        if i < j {
            assert(is_cut(s, i + 1));
        }
    }
}

/// Cost of the stack grows by the cost of a pushed range.
proof fn lemma_push_cost(st: Seq<(usize, usize)>, r: (usize, usize))
    ensures
        stack_cost(st.push(r)) == stack_cost(st) + range_cost(r),
{
    assert(st.push(r).drop_last() =~= st);
}

/// The two parts of a partitioned range together cost no more than the range did.
proof fn lemma_subranges_cost(st: Seq<(usize, usize)>, lo: usize, p: usize, hi: usize)
    requires
        lo <= p <= hi,
    ensures
        stack_cost(with_subranges(st, lo, p, hi)) <= stack_cost(st) + (hi - lo) * (hi - lo),
{
    let st1 = if p + 1 < hi { st.push(((p + 1) as usize, hi)) } else { st };
    let a: int = if lo + 1 < p { range_cost((lo, (p - 1) as usize)) as int } else { 0 };
    let b: int = if p + 1 < hi { range_cost(((p + 1) as usize, hi)) as int } else { 0 };
    if p + 1 < hi {
        lemma_push_cost(st, ((p + 1) as usize, hi));
    }
    if lo + 1 < p {
        lemma_push_cost(st1, (lo, (p - 1) as usize));
    }
    let x: int = p - lo;
    let y: int = hi - p;
    assert(lo + 1 < p ==> a == (x - 1) + (x - 1) * (x - 1));
    assert(p + 1 < hi ==> b == (y - 1) + (y - 1) * (y - 1));
    assert(a <= x * x) by (nonlinear_arith)
        requires
            x >= 0,
            lo + 1 < p ==> a == (x - 1) + (x - 1) * (x - 1),
            !(lo + 1 < p) ==> a == 0,
    ;
    assert(b <= y * y) by (nonlinear_arith)
        requires
            y >= 0,
            p + 1 < hi ==> b == (y - 1) + (y - 1) * (y - 1),
            !(p + 1 < hi) ==> b == 0,
    ;
    assert(x * x + y * y <= (x + y) * (x + y)) by (nonlinear_arith)
        requires
            x >= 0,
            y >= 0,
    ;
}

/// After the pivot of `[lo, hi]` is put in place at `p`, only positions strictly inside the
/// pending ranges (old ones and the two new parts) may fail to be cuts.
proof fn lemma_pivot_placed(s: Seq<usize>, st: Seq<(usize, usize)>, lo: usize, p: usize, hi: usize)
    requires
        lo < hi < s.len(),
        lo <= p <= hi,
        ranges_ok(st, s.len()),
        right_of(st, hi as int),
        forall|k: int| lo <= k < p ==> s[k] < s[hi as int],
        forall|k: int| p <= k < hi ==> s[k] >= s[hi as int],
        forall|c: int|
            0 <= c <= s.len() && !(lo < c <= hi) && !in_stack(st, c) ==> #[trigger] is_cut(s, c),
    ensures
        ranges_ok(with_subranges(st, lo, p, hi), s.len()),
        forall|c: int|
            0 <= c <= s.len() && !in_stack(with_subranges(st, lo, p, hi), c) ==> #[trigger] is_cut(
                swapped(s, p as int, hi as int),
                c,
            ),
{
    let t = swapped(s, p as int, hi as int);
    let full = with_subranges(st, lo, p, hi);
    let st1 = if p + 1 < hi { st.push(((p + 1) as usize, hi)) } else { st };
    lemma_swap_keeps_cuts(s, p as int, hi as int, lo as int, hi as int);
    assert(!in_stack(st, lo as int));
    assert(!in_stack(st, hi + 1));
    assert(is_cut(s, lo as int));
    assert(is_cut(s, hi + 1));
    assert(is_cut(t, lo as int));
    assert(is_cut(t, hi + 1));
    assert forall|i: int, j: int| 0 <= i < p <= j < t.len() implies t[i] <= t[j] by {
        if i < lo {
            assert(is_cut(t, lo as int));
        } else if j > hi {
            assert(is_cut(t, hi + 1));
        }
    }
    assert forall|i: int, j: int| 0 <= i < p + 1 <= j < t.len() implies t[i] <= t[j] by {
        if i < lo {
            assert(is_cut(t, lo as int));
        } else if j > hi {
            assert(is_cut(t, hi + 1));
        }
    }
    assert forall|c: int| 0 <= c <= s.len() && !in_stack(full, c) implies #[trigger] is_cut(t, c) by {
        if lo < c <= hi {
            if c == p {
                assert(is_cut(t, p as int));
            } else if c == p + 1 {
                assert(is_cut(t, p + 1));
            } else {
                if c < p {
                    assert(full[full.len() - 1] == (lo, (p - 1) as usize));
                } else {
                    assert(st1[st1.len() - 1] == ((p + 1) as usize, hi));
                    assert(full[st1.len() - 1] == ((p + 1) as usize, hi));
                }
            }
        } else {
            if in_stack(st, c) {
                let k = choose|k: int| 0 <= k < st.len() && (#[trigger] st[k]).0 < c <= st[k].1;
                assert(st1[k] == st[k]);
                assert(full[k] == st[k]);
            }
            assert(is_cut(s, c));
        }
    }
}

/// Removing the last range: a position outside it and outside the rest is outside all.
proof fn lemma_pop_cover(full: Seq<(usize, usize)>, c: int)
    requires
        full.len() > 0,
        !(full.last().0 < c <= full.last().1),
        !in_stack(full.drop_last(), c),
    ensures
        !in_stack(full, c),
{
    if in_stack(full, c) {
        let k = choose|k: int| 0 <= k < full.len() && (#[trigger] full[k]).0 < c <= full[k].1;
        assert(k != full.len() - 1);
        assert(full.drop_last()[k] == full[k]);
    }
}

impl Sorter for QuickSorter {
    closed spec fn data_len(&self) -> nat {
        self.len as nat
    }

    closed spec fn wf(&self) -> bool {
        &&& ranges_ok(self.stack@, self.len as nat)
        &&& self.current_low >= self.current_high ==> self.stack@.len() == 0
            && self.current_low == 0 && self.current_high == 0
        &&& self.current_low < self.current_high ==> {
            &&& self.current_low <= self.left_pointer <= self.right_pointer <= self.current_high
            &&& self.current_high < self.len
            &&& right_of(self.stack@, self.current_high as int)
        }
    }

    closed spec fn inv(&self, data: Seq<usize>) -> bool {
        &&& self.wf()
        &&& data.len() == self.len
        &&& forall|c: int|
            0 <= c <= data.len() && !(self.current_low < c <= self.current_high) && !in_stack(
                self.stack@,
                c,
            ) ==> #[trigger] is_cut(data, c)
        &&& self.current_low < self.current_high ==> {
            &&& forall|k: int|
                self.current_low <= k < self.left_pointer ==> #[trigger] data[k] < data[self.current_high as int]
            &&& forall|k: int|
                self.left_pointer <= k < self.right_pointer ==> #[trigger] data[k] >= data[self.current_high as int]
        }
    }

    closed spec fn finished(&self) -> bool {
        self.current_low >= self.current_high
    }

    open spec fn transition(&self, next: &Self, d0: Seq<usize>, d1: Seq<usize>, done: bool) -> bool {
        self.quick_step(next, d0, d1, done)
    }

    open spec fn active(&self) -> Seq<usize> {
        if self.low() >= self.high() {
            seq![]
        } else {
            seq![self.left(), self.right()]
        }
    }

    closed spec fn bounded(&self) -> bool {
        true
    }

    closed spec fn work_left(&self) -> nat {
        if self.current_low >= self.current_high {
            0
        } else {
            let d = (self.current_high - self.current_low) as nat;
            (self.current_high - self.right_pointer) as nat + d * d + stack_cost(
                self.stack@,
            )
        }
    }

    fn step(&mut self, data: &mut [usize]) -> (done: bool) {
        let ghost orig = data@;
        // The one pair this step exchanges, if any.
        let ghost mut exchanged: Option<(int, int)> = None;
        if self.current_low >= self.current_high {
            proof {
                lemma_all_cuts_sorted(data@);
            }
            return true;
        }
        if self.right_pointer >= self.current_high {
            // The scan is over: put the pivot between the two parts.
            let ghost st = self.stack@;
            let ghost s0 = data@;
            let ghost (lo, p, hi) = (self.current_low, self.left_pointer, self.current_high);
            swap_entries(data, self.left_pointer, self.current_high);
            proof {
                exchanged = Some((p as int, hi as int));
                lemma_pivot_placed(s0, st, lo, p, hi);
                lemma_subranges_cost(st, lo, p, hi);
            }
            if self.repartition() {
                proof {
                    lemma_all_cuts_sorted(data@);
                    assert(data@ == swapped(orig, p as int, hi as int));
                }
                return true;
            }
            proof {
                let full = with_subranges(st, lo, p, hi);
                assert forall|c: int|
                    0 <= c <= data@.len() && !(self.current_low < c <= self.current_high)
                        && !in_stack(self.stack@, c) implies #[trigger] is_cut(data@, c) by {
                    lemma_pop_cover(full, c);
                }
                assert(full[full.len() - 1] == full.last());
                assert forall|k: int| 0 <= k < self.stack@.len() implies self.current_high < #[trigger] self.stack@[k].0 by {
                    assert(self.stack@[k] == full[k]);
                }
                assert(ranges_ok(self.stack@, self.len as nat)) by {
                    assert forall|k: int| 0 <= k < self.stack@.len() implies #[trigger] self.stack@[k] == full[k] by {}
                }
            }
        }
        let ghost lo = self.current_low;
        let ghost hi = self.current_high;
        let ghost s1 = data@;
        if data[self.right_pointer] < data[self.current_high] {
            proof {
                lemma_swap_keeps_cuts(s1, self.left_pointer as int, self.right_pointer as int, lo as int, hi as int);
            }
            swap_entries(data, self.left_pointer, self.right_pointer);
            proof {
                if self.left_pointer == self.right_pointer {
                    assert(data@ =~= s1);
                } else {
                    exchanged = Some((self.left_pointer as int, self.right_pointer as int));
                }
                assert forall|c: int|
                    0 <= c <= data@.len() && !(lo < c <= hi) && !in_stack(self.stack@, c)
                        implies #[trigger] is_cut(data@, c) by {
                    assert(is_cut(s1, c));
                }
            }
            self.left_pointer = self.left_pointer + 1;
        }
        self.right_pointer = self.right_pointer + 1;
        proof {
            if let Some((i, j)) = exchanged {
                assert(data@ == swapped(orig, i, j));
            }
        }
        false
    }

    fn pointers(&self) -> (r: Vec<usize>) {
        if self.current_low >= self.current_high {
            Vec::new()
        } else {
            vec![self.left_pointer, self.right_pointer]
        }
    }
}

} // verus!
