//! Double-ended iteration over a tree or a key range of it. An iterator
//! materializes the tree's sorted entries and walks a shrinking window
//! `[front, back)` over them; the two ends meet exactly once, so forward
//! and backward consumption together yield every element once. Once the
//! window empties, the iterator stays empty.

use vstd::prelude::*;

use crate::model::{
    entries_sorted, count_below, count_at_most, lemma_count_below_split, lemma_count_below_is,
    lemma_count_at_most_split, lemma_count_at_most_is,
};

verus! {

/// One end of a key range.
pub enum RangeBound {
    Unbounded,
    Included(u64),
    Excluded(u64),
}

/// The position in `s` where a lower bound starts taking entries.
pub open spec fn lo_pos(s: Seq<(u64, u64)>, b: RangeBound) -> int {
    match b {
        RangeBound::Unbounded => 0,
        RangeBound::Included(k) => count_below(s, k),
        RangeBound::Excluded(k) => count_at_most(s, k),
    }
}

/// The position in `s` where an upper bound stops taking entries.
pub open spec fn hi_pos(s: Seq<(u64, u64)>, b: RangeBound) -> int {
    match b {
        RangeBound::Unbounded => s.len() as int,
        RangeBound::Included(k) => count_at_most(s, k),
        RangeBound::Excluded(k) => count_below(s, k),
    }
}

/// A range is valid unless its start lies above its end, or the two
/// are equal and both excluded.
pub open spec fn valid_range(lo: RangeBound, hi: RangeBound) -> bool {
    match (lo, hi) {
        (RangeBound::Included(a), RangeBound::Included(b)) => a <= b,
        (RangeBound::Included(a), RangeBound::Excluded(b)) => a <= b,
        (RangeBound::Excluded(a), RangeBound::Included(b)) => a <= b,
        (RangeBound::Excluded(a), RangeBound::Excluded(b)) => a < b,
        _ => true,
    }
}

/// The entries of `s` that fall within the range.
pub open spec fn range_entries(s: Seq<(u64, u64)>, lo: RangeBound, hi: RangeBound) -> Seq<
    (u64, u64),
> {
    if lo_pos(s, lo) <= hi_pos(s, hi) {
        s.subrange(lo_pos(s, lo), hi_pos(s, hi))
    } else {
        Seq::empty()
    }
}

/// On a sorted sequence a valid range denotes a window: its two
/// positions are ordered and in bounds.
pub proof fn lemma_range_positions(s: Seq<(u64, u64)>, lo: RangeBound, hi: RangeBound)
    requires
        entries_sorted(s),
        valid_range(lo, hi),
    ensures
        0 <= lo_pos(s, lo),
        lo_pos(s, lo) <= hi_pos(s, hi),
        hi_pos(s, hi) <= s.len(),
{
    match lo {
        RangeBound::Unbounded => {},
        RangeBound::Included(k) => lemma_count_below_split(s, k),
        RangeBound::Excluded(k) => lemma_count_at_most_split(s, k),
    }
    match hi {
        RangeBound::Unbounded => {},
        RangeBound::Included(k) => lemma_count_at_most_split(s, k),
        RangeBound::Excluded(k) => lemma_count_below_split(s, k),
    }
    match (lo, hi) {
        (RangeBound::Included(a), RangeBound::Included(b)) => {
            if count_below(s, a) > count_at_most(s, b) {
                let i = count_at_most(s, b);
                assert(s[i].0 < a);
                assert(s[i].0 > b);
            }
        },
        (RangeBound::Included(a), RangeBound::Excluded(b)) => {
            if count_below(s, a) > count_below(s, b) {
                let i = count_below(s, b);
                assert(s[i].0 < a);
                assert(s[i].0 >= b);
            }
        },
        (RangeBound::Excluded(a), RangeBound::Included(b)) => {
            if count_at_most(s, a) > count_at_most(s, b) {
                let i = count_at_most(s, b);
                assert(s[i].0 <= a);
                assert(s[i].0 > b);
            }
        },
        (RangeBound::Excluded(a), RangeBound::Excluded(b)) => {
            if count_at_most(s, a) > count_below(s, b) {
                let i = count_below(s, b);
                assert(s[i].0 <= a);
                assert(s[i].0 >= b);
            }
        },
        _ => {},
    }
}

/// The first index of `items` whose key is at least `key`.
fn lower_bound(items: &Vec<(u64, u64)>, key: u64) -> (r: usize)
    requires
        entries_sorted(items@),
    ensures
        r == count_below(items@, key),
{
    let mut lo: usize = 0;
    let mut hi: usize = items.len();
    while lo < hi
        invariant
            entries_sorted(items@),
            0 <= lo <= hi <= items.len(),
            forall|j: int| 0 <= j < lo ==> items@[j].0 < key,
            forall|j: int| hi <= j < items.len() ==> items@[j].0 >= key,
        decreases hi - lo,
    {
        let mid: usize = lo + (hi - lo) / 2;
        if items[mid].0 < key {
            proof {
                assert forall|j: int| 0 <= j < mid + 1 implies items@[j].0 < key by {
                    if j < mid {
                        assert(items@[j].0 < items@[mid as int].0);
                    }
                }
            }
            lo = mid + 1;
        } else {
            proof {
                assert forall|j: int| mid <= j < items.len() implies items@[j].0 >= key by {
                    if j > mid {
                        assert(items@[mid as int].0 < items@[j].0);
                    }
                }
            }
            hi = mid;
        }
    }
    proof {
        lemma_count_below_is(items@, key, lo as int);
    }
    lo
}

/// The first index of `items` whose key is strictly above `key`.
fn upper_bound(items: &Vec<(u64, u64)>, key: u64) -> (r: usize)
    requires
        entries_sorted(items@),
    ensures
        r == count_at_most(items@, key),
{
    let mut lo: usize = 0;
    let mut hi: usize = items.len();
    while lo < hi
        invariant
            entries_sorted(items@),
            0 <= lo <= hi <= items.len(),
            forall|j: int| 0 <= j < lo ==> items@[j].0 <= key,
            forall|j: int| hi <= j < items.len() ==> items@[j].0 > key,
        decreases hi - lo,
    {
        let mid: usize = lo + (hi - lo) / 2;
        if items[mid].0 <= key {
            proof {
                assert forall|j: int| 0 <= j < mid + 1 implies items@[j].0 <= key by {
                    if j < mid {
                        assert(items@[j].0 < items@[mid as int].0);
                    }
                }
            }
            lo = mid + 1;
        } else {
            proof {
                assert forall|j: int| mid <= j < items.len() implies items@[j].0 > key by {
                    if j > mid {
                        assert(items@[mid as int].0 < items@[j].0);
                    }
                }
            }
            hi = mid;
        }
    }
    proof {
        lemma_count_at_most_is(items@, key, lo as int);
    }
    lo
}

/// A shared (borrowing) iterator: a window over the tree's entries.
pub struct Iter {
    pub items: Vec<(u64, u64)>,
    pub front: usize,
    pub back: usize,
}

impl Iter {
    /// The entries the iterator has not yet yielded.
    pub open spec fn remaining(self) -> Seq<(u64, u64)> {
        self.items@.subrange(self.front as int, self.back as int)
    }

    /// The window lies within the entry list.
    pub open spec fn wf(self) -> bool {
        self.front <= self.back <= self.items@.len()
    }

    /// Build an iterator over the entries of `items` that fall within
    /// the given bounds.
    pub fn new(items: Vec<(u64, u64)>, lo: RangeBound, hi: RangeBound) -> (r: Iter)
        requires
            entries_sorted(items@),
            valid_range(lo, hi),
        ensures
            r.wf(),
            r.remaining() == range_entries(items@, lo, hi),
    {
        proof {
            lemma_range_positions(items@, lo, hi);
        }
        let front: usize = match lo {
            RangeBound::Unbounded => 0,
            RangeBound::Included(k) => lower_bound(&items, k),
            RangeBound::Excluded(k) => upper_bound(&items, k),
        };
        let back: usize = match hi {
            RangeBound::Unbounded => items.len(),
            RangeBound::Included(k) => upper_bound(&items, k),
            RangeBound::Excluded(k) => lower_bound(&items, k),
        };
        Iter { items, front, back }
    }

    /// Yield the lowest remaining entry and step past it.
    pub fn next(&mut self) -> (r: Option<(u64, u64)>)
        requires
            old(self).wf(),
        ensures
            final(self).wf(),
            final(self).items == old(self).items,
            old(self).remaining().len() == 0 ==> r.is_none() && final(self).remaining()
                == old(self).remaining(),
            old(self).remaining().len() > 0 ==> r == Some(old(self).remaining()[0]) && final(self).remaining() == old(self).remaining().drop_first(),
    {
        if self.front >= self.back {
            None
        } else {
            let e = self.items[self.front];
            self.front = self.front + 1;
            proof {
                assert(self.remaining() =~= old(self).remaining().drop_first());
            }
            Some(e)
        }
    }

    /// Yield the highest remaining entry and step back over it.
    pub fn next_back(&mut self) -> (r: Option<(u64, u64)>)
        requires
            old(self).wf(),
        ensures
            final(self).wf(),
            final(self).items == old(self).items,
            old(self).remaining().len() == 0 ==> r.is_none() && final(self).remaining()
                == old(self).remaining(),
            old(self).remaining().len() > 0 ==> r == Some(old(self).remaining().last()) && final(self).remaining() == old(self).remaining().drop_last(),
    {
        if self.front >= self.back {
            None
        } else {
            let e = self.items[self.back - 1];
            self.back = self.back - 1;
            proof {
                assert(self.remaining() =~= old(self).remaining().drop_last());
            }
            Some(e)
        }
    }

    /// How many entries remain.
    pub fn len(&self) -> (r: usize)
        requires
            self.wf(),
        ensures
            r == self.remaining().len(),
    {
        self.back - self.front
    }

    /// Consume the iterator forward: the remaining entries, in order.
    pub fn collect(self) -> (r: Vec<(u64, u64)>)
        requires
            self.wf(),
        ensures
            r@ == self.remaining(),
    {
        let ghost total = self.remaining();
        let mut it = self;
        let mut out: Vec<(u64, u64)> = Vec::new();
        while it.front < it.back
            invariant
                it.wf(),
                out@ + it.remaining() == total,
            decreases it.remaining().len(),
        {
            let ghost rem = it.remaining();
            match it.next() {
                Some(e) => {
                    out.push(e);
                    proof {
                        assert(rem =~= seq![e] + rem.drop_first());
                        assert(out@ + it.remaining() =~= total);
                    }
                },
                None => {},
            }
        }
        proof {
            assert(out@ =~= out@ + it.remaining());
        }
        out
    }

    /// Consume the iterator backward: the remaining entries, reversed.
    /// Together with `collect`, this is the double-ended law: the two
    /// directions visit the same entries, one in each order.
    pub fn collect_rev(self) -> (r: Vec<(u64, u64)>)
        requires
            self.wf(),
        ensures
            r@ == self.remaining().reverse(),
    {
        let ghost total = self.remaining();
        let mut it = self;
        let mut out: Vec<(u64, u64)> = Vec::new();
        while it.front < it.back
            invariant
                it.wf(),
                it.remaining().len() <= total.len(),
                it.remaining() == total.subrange(0, it.remaining().len() as int),
                out@ == total.subrange(it.remaining().len() as int, total.len() as int).reverse(),
            decreases it.remaining().len(),
        {
            let ghost rem = it.remaining();
            match it.next_back() {
                Some(e) => {
                    out.push(e);
                    proof {
                        assert(e == total[rem.len() - 1]);
                        assert(it.remaining() =~= total.subrange(0, rem.len() - 1));
                        assert(out@ =~= total.subrange(rem.len() - 1, total.len() as int).reverse());
                    }
                },
                None => {},
            }
        }
        proof {
            assert(total.subrange(0, total.len() as int) =~= total);
            assert(out@ =~= total.reverse());
        }
        out
    }
}

/// A consuming iterator: the same window, owning the entries of the
/// tree it was built from.
pub struct OwnedIter {
    pub items: Vec<(u64, u64)>,
    pub front: usize,
    pub back: usize,
}

impl OwnedIter {
    /// The entries the iterator has not yet yielded.
    pub open spec fn remaining(self) -> Seq<(u64, u64)> {
        self.items@.subrange(self.front as int, self.back as int)
    }

    /// The window lies within the entry list.
    pub open spec fn wf(self) -> bool {
        self.front <= self.back <= self.items@.len()
    }

    /// Take ownership of a tree's entries for iteration.
    pub fn new(items: Vec<(u64, u64)>) -> (r: OwnedIter)
        ensures
            r.wf(),
            r.remaining() == items@,
    {
        let back = items.len();
        proof {
            assert(items@.subrange(0, items@.len() as int) =~= items@);
        }
        OwnedIter { items, front: 0, back }
    }

    /// Yield the lowest remaining entry and step past it.
    pub fn next(&mut self) -> (r: Option<(u64, u64)>)
        requires
            old(self).wf(),
        ensures
            final(self).wf(),
            old(self).remaining().len() == 0 ==> r.is_none() && final(self).remaining()
                == old(self).remaining(),
            old(self).remaining().len() > 0 ==> r == Some(old(self).remaining()[0]) && final(self).remaining() == old(self).remaining().drop_first(),
    {
        if self.front >= self.back {
            None
        } else {
            let e = self.items[self.front];
            self.front = self.front + 1;
            proof {
                assert(self.remaining() =~= old(self).remaining().drop_first());
            }
            Some(e)
        }
    }

    /// Yield the highest remaining entry and step back over it.
    pub fn next_back(&mut self) -> (r: Option<(u64, u64)>)
        requires
            old(self).wf(),
        ensures
            final(self).wf(),
            old(self).remaining().len() == 0 ==> r.is_none() && final(self).remaining()
                == old(self).remaining(),
            old(self).remaining().len() > 0 ==> r == Some(old(self).remaining().last()) && final(self).remaining() == old(self).remaining().drop_last(),
    {
        if self.front >= self.back {
            None
        } else {
            let e = self.items[self.back - 1];
            self.back = self.back - 1;
            proof {
                assert(self.remaining() =~= old(self).remaining().drop_last());
            }
            Some(e)
        }
    }

    /// How many entries remain (the iterator's exact size).
    pub fn len(&self) -> (r: usize)
        requires
            self.wf(),
        ensures
            r == self.remaining().len(),
    {
        self.back - self.front
    }
}

} // verus!
