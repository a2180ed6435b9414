//! Merging two sorted entry streams into their union. When both streams
//! carry the same key, exactly one of the two entries survives; which
//! one is chosen by the `prefer_left` flag, giving map-overlay semantics
//! in either direction.

use vstd::prelude::*;

use crate::model::{entries_sorted, has_key, value_of, lemma_cons_lookup};

verus! {

/// The union of two sorted entry sequences, keeping the left entry on
/// equal keys when `prefer_left` holds and the right entry otherwise.
pub open spec fn merged(l: Seq<(u64, u64)>, r: Seq<(u64, u64)>, prefer_left: bool) -> Seq<
    (u64, u64),
>
    decreases l.len() + r.len(),
{
    if l.len() == 0 {
        r
    } else if r.len() == 0 {
        l
    } else if l[0].0 < r[0].0 {
        seq![l[0]] + merged(l.drop_first(), r, prefer_left)
    } else if l[0].0 > r[0].0 {
        seq![r[0]] + merged(l, r.drop_first(), prefer_left)
    } else {
        seq![
            if prefer_left {
                l[0]
            } else {
                r[0]
            },
        ] + merged(l.drop_first(), r.drop_first(), prefer_left)
    }
}

/// Merging sorted streams yields a sorted stream whose keys all come
/// from one of the inputs.
pub proof fn lemma_merged_sorted(l: Seq<(u64, u64)>, r: Seq<(u64, u64)>, prefer_left: bool)
    requires
        entries_sorted(l),
        entries_sorted(r),
    ensures
        entries_sorted(merged(l, r, prefer_left)),
        forall|idx: int|
            0 <= idx < merged(l, r, prefer_left).len() ==> has_key(
                l,
                (#[trigger] merged(l, r, prefer_left)[idx]).0,
            ) || has_key(r, merged(l, r, prefer_left)[idx].0),
    decreases l.len() + r.len(),
{
    let m = merged(l, r, prefer_left);
    if l.len() == 0 {
        assert forall|idx: int| 0 <= idx < m.len() implies has_key(l, (#[trigger] m[idx]).0)
            || has_key(r, m[idx].0) by {
            assert(r[idx].0 == m[idx].0);
        }
    } else if r.len() == 0 {
        assert forall|idx: int| 0 <= idx < m.len() implies has_key(l, (#[trigger] m[idx]).0)
            || has_key(r, m[idx].0) by {
            assert(l[idx].0 == m[idx].0);
        }
    } else {
        let lt = l.drop_first();
        let rt = r.drop_first();
        assert(entries_sorted(lt));
        assert(entries_sorted(rt));
        let h = if l[0].0 < r[0].0 {
            l[0]
        } else if l[0].0 > r[0].0 {
            r[0]
        } else if prefer_left {
            l[0]
        } else {
            r[0]
        };
        let rest = if l[0].0 < r[0].0 {
            merged(lt, r, prefer_left)
        } else if l[0].0 > r[0].0 {
            merged(l, rt, prefer_left)
        } else {
            merged(lt, rt, prefer_left)
        };
        if l[0].0 < r[0].0 {
            lemma_merged_sorted(lt, r, prefer_left);
        } else if l[0].0 > r[0].0 {
            lemma_merged_sorted(l, rt, prefer_left);
        } else {
            lemma_merged_sorted(lt, rt, prefer_left);
        }
        assert(m == seq![h] + rest);
        // every key of the tail lies strictly above the emitted head
        assert forall|j: int| 0 <= j < rest.len() implies rest[j].0 > h.0 by {
            let q = rest[j].0;
            if l[0].0 < r[0].0 {
                if has_key(lt, q) {
                    let w = choose|w: int| 0 <= w < lt.len() && lt[w].0 == q;
                    assert(l[w + 1].0 == q);
                    assert(l[0].0 < l[w + 1].0);
                } else {
                    let w = choose|w: int| 0 <= w < r.len() && r[w].0 == q;
                    if w > 0 {
                        assert(r[0].0 < r[w].0);
                    }
                }
            } else if l[0].0 > r[0].0 {
                if has_key(rt, q) {
                    let w = choose|w: int| 0 <= w < rt.len() && rt[w].0 == q;
                    assert(r[w + 1].0 == q);
                    assert(r[0].0 < r[w + 1].0);
                } else {
                    let w = choose|w: int| 0 <= w < l.len() && l[w].0 == q;
                    if w > 0 {
                        assert(l[0].0 < l[w].0);
                    }
                }
            } else {
                if has_key(lt, q) {
                    let w = choose|w: int| 0 <= w < lt.len() && lt[w].0 == q;
                    assert(l[w + 1].0 == q);
                    assert(l[0].0 < l[w + 1].0);
                } else {
                    let w = choose|w: int| 0 <= w < rt.len() && rt[w].0 == q;
                    assert(r[w + 1].0 == q);
                    assert(r[0].0 < r[w + 1].0);
                }
            }
        }
        assert(entries_sorted(m)) by {
            assert forall|a: int, b: int| 0 <= a < b < m.len() implies m[a].0 < m[b].0 by {
                if a == 0 {
                    assert(m[b] == rest[b - 1]);
                } else {
                    assert(m[a] == rest[a - 1]);
                    assert(m[b] == rest[b - 1]);
                }
            }
        }
        assert forall|idx: int| 0 <= idx < m.len() implies has_key(l, (#[trigger] m[idx]).0)
            || has_key(r, m[idx].0) by {
            if idx == 0 {
                assert(has_key(l, l[0].0));
                assert(has_key(r, r[0].0));
            } else {
                let q = m[idx].0;
                assert(rest[idx - 1].0 == q);
                if has_key(lt, q) {
                    let w = choose|w: int| 0 <= w < lt.len() && lt[w].0 == q;
                    assert(l[w + 1].0 == q);
                } else if has_key(rt, q) {
                    let w = choose|w: int| 0 <= w < rt.len() && rt[w].0 == q;
                    assert(r[w + 1].0 == q);
                } else if has_key(r, q) {
                } else {
                    assert(has_key(l, q));
                }
            }
        }
    }
}

/// The map-overlay reading of a merge: the union holds exactly the
/// keys of the two inputs; a key found in only one input keeps that
/// input's value, and a key found in both keeps the preferred side's.
pub proof fn lemma_merged_overlay(l: Seq<(u64, u64)>, r: Seq<(u64, u64)>, prefer_left: bool)
    requires
        entries_sorted(l),
        entries_sorted(r),
    ensures
        forall|k: u64|
            has_key(merged(l, r, prefer_left), k) == (has_key(l, k) || has_key(r, k)),
        forall|k: u64|
            has_key(l, k) && (prefer_left || !has_key(r, k)) ==> value_of(
                merged(l, r, prefer_left),
                k,
            ) == value_of(l, k),
        forall|k: u64|
            has_key(r, k) && (!prefer_left || !has_key(l, k)) ==> value_of(
                merged(l, r, prefer_left),
                k,
            ) == value_of(r, k),
    decreases l.len() + r.len(),
{
    let m = merged(l, r, prefer_left);
    lemma_merged_sorted(l, r, prefer_left);
    if l.len() == 0 || r.len() == 0 {
    } else {
        let lt = l.drop_first();
        let rt = r.drop_first();
        assert(entries_sorted(lt));
        assert(entries_sorted(rt));
        let h = if l[0].0 < r[0].0 {
            l[0]
        } else if l[0].0 > r[0].0 {
            r[0]
        } else if prefer_left {
            l[0]
        } else {
            r[0]
        };
        let la = if l[0].0 <= r[0].0 {
            lt
        } else {
            l
        };
        let ra = if l[0].0 >= r[0].0 {
            rt
        } else {
            r
        };
        let rest = merged(la, ra, prefer_left);
        assert(m == seq![h] + rest);
        lemma_merged_overlay(la, ra, prefer_left);
        lemma_merged_sorted(la, ra, prefer_left);
        assert(m[0] == h);
        assert(m.drop_first() =~= rest);
        assert forall|k: u64|
            has_key(m, k) == (has_key(l, k) || has_key(r, k)) by {
            lemma_cons_lookup(m, k);
            lemma_cons_lookup(l, k);
            lemma_cons_lookup(r, k);
        }
        assert forall|k: u64|
            has_key(l, k) && (prefer_left || !has_key(r, k)) implies value_of(m, k) == value_of(
            l,
            k,
        ) by {
            lemma_cons_lookup(m, k);
            lemma_cons_lookup(l, k);
            lemma_cons_lookup(r, k);
            if has_key(l, k) && k < l[0].0 {
                let w = choose|i: int| 0 <= i < l.len() && l[i].0 == k;
                if w > 0 {
                    assert(l[0].0 < l[w].0);
                }
            }
            if has_key(r, k) && k < r[0].0 {
                let w = choose|i: int| 0 <= i < r.len() && r[i].0 == k;
                if w > 0 {
                    assert(r[0].0 < r[w].0);
                }
            }
            if k == h.0 {
                // the emitted head is the left entry whenever the left
                // stream holds the key and is preferred or unopposed
                assert(value_of(m, k) == h.1);
                assert(h == l[0]);
            } else {
                if l[0].0 == k {
                    // k == l[0].0 != h.0 can only happen when the right
                    // head went first, i.e. r[0].0 < l[0].0 == k
                    assert(h == r[0]);
                    assert(la == l);
                } else {
                    assert(has_key(lt, k));
                }
                assert(has_key(rest, k));
                assert(value_of(m, k) == value_of(rest, k));
                if l[0].0 == k {
                    assert(value_of(rest, k) == value_of(l, k));
                } else {
                    assert(value_of(rest, k) == value_of(lt, k));
                    assert(value_of(lt, k) == value_of(l, k));
                }
            }
        }
        assert forall|k: u64|
            has_key(r, k) && (!prefer_left || !has_key(l, k)) implies value_of(m, k) == value_of(
            r,
            k,
        ) by {
            lemma_cons_lookup(m, k);
            lemma_cons_lookup(l, k);
            lemma_cons_lookup(r, k);
            if has_key(l, k) && k < l[0].0 {
                let w = choose|i: int| 0 <= i < l.len() && l[i].0 == k;
                if w > 0 {
                    assert(l[0].0 < l[w].0);
                }
            }
            if has_key(r, k) && k < r[0].0 {
                let w = choose|i: int| 0 <= i < r.len() && r[i].0 == k;
                if w > 0 {
                    assert(r[0].0 < r[w].0);
                }
            }
            if k == h.0 {
                assert(value_of(m, k) == h.1);
                assert(h == r[0]);
            } else {
                if r[0].0 == k {
                    assert(h == l[0]);
                    assert(ra == r);
                } else {
                    assert(has_key(rt, k));
                }
                assert(has_key(rest, k));
                assert(value_of(m, k) == value_of(rest, k));
                if r[0].0 == k {
                    assert(value_of(rest, k) == value_of(r, k));
                } else {
                    assert(value_of(rest, k) == value_of(rt, k));
                    assert(value_of(rt, k) == value_of(r, k));
                }
            }
        }
    }
}

/// A merging iterator over two sorted entry streams.
pub struct MergeIter {
    pub left: Vec<(u64, u64)>,
    pub right: Vec<(u64, u64)>,
    pub li: usize,
    pub ri: usize,
    pub prefer_left: bool,
}

impl MergeIter {
    /// The entries the iterator has not yet yielded.
    pub open spec fn remaining(self) -> Seq<(u64, u64)> {
        merged(
            self.left@.subrange(self.li as int, self.left@.len() as int),
            self.right@.subrange(self.ri as int, self.right@.len() as int),
            self.prefer_left,
        )
    }

    /// Both stream positions lie within their streams.
    pub open spec fn wf(self) -> bool {
        self.li <= self.left@.len() && self.ri <= self.right@.len()
    }

    /// Start merging two sorted streams.
    pub fn merge(left: Vec<(u64, u64)>, right: Vec<(u64, u64)>, prefer_left: bool) -> (r:
        MergeIter)
        ensures
            r.wf(),
            r.remaining() == merged(left@, right@, prefer_left),
    {
        proof {
            assert(left@.subrange(0, left@.len() as int) =~= left@);
            assert(right@.subrange(0, right@.len() as int) =~= right@);
        }
        MergeIter { left, right, li: 0, ri: 0, prefer_left }
    }

    /// Yield the next entry of the union.
    pub fn next(&mut self) -> (r: Option<(u64, u64)>)
        requires
            old(self).wf(),
        ensures
            final(self).wf(),
            old(self).remaining().len() == 0 ==> r.is_none() && final(self).remaining() == old(self).remaining(),
            old(self).remaining().len() > 0 ==> r == Some(old(self).remaining()[0]) && final(self).remaining() == old(self).remaining().drop_first(),
    {
        let ghost ls = self.left@.subrange(self.li as int, self.left@.len() as int);
        let ghost rs = self.right@.subrange(self.ri as int, self.right@.len() as int);
        if self.li >= self.left.len() && self.ri >= self.right.len() {
            proof {
                assert(ls.len() == 0 && rs.len() == 0);
            }
            None
        } else if self.ri >= self.right.len() {
            let e = self.left[self.li];
            self.li = self.li + 1;
            proof {
                assert(rs.len() == 0);
                assert(e == ls[0]);
                assert(self.left@.subrange(self.li as int, self.left@.len() as int)
                    =~= ls.drop_first());
                assert(self.right@.subrange(self.ri as int, self.right@.len() as int) == rs);
                assert(merged(ls.drop_first(), rs, self.prefer_left) =~= ls.drop_first());
                assert(self.remaining() =~= old(self).remaining().drop_first());
            }
            Some(e)
        } else if self.li >= self.left.len() {
            let e = self.right[self.ri];
            self.ri = self.ri + 1;
            proof {
                assert(ls.len() == 0);
                assert(e == rs[0]);
                assert(self.right@.subrange(self.ri as int, self.right@.len() as int)
                    =~= rs.drop_first());
                assert(merged(ls, rs.drop_first(), self.prefer_left) =~= rs.drop_first());
                assert(self.remaining() =~= old(self).remaining().drop_first());
            }
            Some(e)
        } else {
            let le = self.left[self.li];
            let re = self.right[self.ri];
            proof {
                assert(le == ls[0]);
                assert(re == rs[0]);
            }
            if le.0 < re.0 {
                self.li = self.li + 1;
                proof {
                    assert(self.left@.subrange(self.li as int, self.left@.len() as int)
                        =~= ls.drop_first());
                    assert(old(self).remaining() == seq![le] + merged(
                        ls.drop_first(),
                        rs,
                        self.prefer_left,
                    ));
                    assert(old(self).remaining().drop_first() =~= merged(
                        ls.drop_first(),
                        rs,
                        self.prefer_left,
                    ));
                }
                Some(le)
            } else if le.0 > re.0 {
                self.ri = self.ri + 1;
                proof {
                    assert(self.right@.subrange(self.ri as int, self.right@.len() as int)
                        =~= rs.drop_first());
                    assert(old(self).remaining() == seq![re] + merged(
                        ls,
                        rs.drop_first(),
                        self.prefer_left,
                    ));
                    assert(old(self).remaining().drop_first() =~= merged(
                        ls,
                        rs.drop_first(),
                        self.prefer_left,
                    ));
                }
                Some(re)
            } else {
                let e = if self.prefer_left {
                    le
                } else {
                    re
                };
                self.li = self.li + 1;
                self.ri = self.ri + 1;
                proof {
                    assert(self.left@.subrange(self.li as int, self.left@.len() as int)
                        =~= ls.drop_first());
                    assert(self.right@.subrange(self.ri as int, self.right@.len() as int)
                        =~= rs.drop_first());
                    assert(old(self).remaining() == seq![e] + merged(
                        ls.drop_first(),
                        rs.drop_first(),
                        self.prefer_left,
                    ));
                    assert(old(self).remaining().drop_first() =~= merged(
                        ls.drop_first(),
                        rs.drop_first(),
                        self.prefer_left,
                    ));
                }
                Some(e)
            }
        }
    }
}

} // verus!
