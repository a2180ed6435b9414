//! An in-memory ordered map implemented as a wide-fanout B+ tree.
//!
//! Keys and values are `u64`. Internal nodes ("branches") map high keys
//! to child nodes; terminal nodes ("leaves") hold the key/value pairs in
//! sorted order. The tree is specified against its flattened, strictly
//! sorted sequence of entries: every operation states exactly how it
//! reads or rewrites that sequence.

use vstd::prelude::*;

pub mod config;
pub mod iter;
pub mod laws;
pub mod merge;
pub mod model;
pub mod node;
pub mod search;

pub use crate::iter::{Iter, OwnedIter, RangeBound};
pub use crate::merge::MergeIter;

use crate::merge::{merged, lemma_merged_sorted};
use crate::model::{
    entries_sorted, has_key, value_of, seq_insert, seq_remove, lemma_seq_insert, lemma_seq_remove,
    lemma_count_below_unique, lemma_count_below_is,
};
use crate::node::{
    Node, Leaf, Branch, InsertResult, lemma_wf_entries, lemma_pair_row, trim_root, build_leaf_row,
    build_level, lemma_seq_entries_singleton, row_coherent, full_packed, left_packed,
};

verus! {

/// The B+ tree: an optional root node plus a cached entry count.
pub struct PalmTree {
    size: usize,
    root: Option<Node>,
}

impl PalmTree {
    /// The entries of the tree, in strictly ascending key order.
    pub closed spec fn entries(self) -> Seq<(u64, u64)> {
        match self.root {
            None => Seq::empty(),
            Some(n) => n.entries(),
        }
    }

    /// The tree's invariant: the root (when present) is a well-formed
    /// node holding at least one entry, and the cached size equals the
    /// number of entries.
    pub closed spec fn wf(self) -> bool {
        &&& match self.root {
            None => self.size == 0,
            Some(n) => n.wf() && self.size == n.entries().len(),
        }
    }

    /// A well-formed tree's entries are strictly sorted.
    pub proof fn lemma_wf(self)
        requires
            self.wf(),
        ensures
            entries_sorted(self@),
    {
        match self.root {
            None => {},
            Some(n) => {
                lemma_wf_entries(n);
            },
        }
    }

    /// The root node, exposed for stating structural laws; `None`
    /// exactly when the tree is empty.
    pub closed spec fn root_node(self) -> Option<Node> {
        self.root
    }

    /// The tree has the shape a bulk load produces: every node off the
    /// rightmost path is completely full.
    pub open spec fn left_packed(self) -> bool {
        match self.root_node() {
            None => true,
            Some(n) => crate::node::left_packed(n),
        }
    }

    /// The root is trimmed: it is never a branch with a sole child.
    pub open spec fn root_collapsed(self) -> bool {
        match self.root_node() {
            None => true,
            Some(n) => n is Branch ==> n->Branch_0.children@.len() >= 2,
        }
    }

    /// The tree invariant grounds the structural laws: a well-formed
    /// tree either is empty with no root, or its root is a well-formed
    /// node carrying exactly the tree's entries — so `law_high_key`,
    /// `law_balance` and `law_fanout` apply to the root and,
    /// well-formedness being hereditary, to every node beneath it.
    pub proof fn law_tree_structure(self)
        requires
            self.wf(),
        ensures
            match self.root_node() {
                None => self@ == Seq::<(u64, u64)>::empty(),
                Some(n) => n.wf() && n.entries() == self@ && self@.len() >= 1,
            },
            (self.root_node() is None) <==> self@.len() == 0,
    {
        match self.root {
            None => {},
            Some(n) => {
                lemma_wf_entries(n);
            },
        }
    }

    /// An empty tree.
    pub fn new() -> (r: Self)
        ensures
            r.wf(),
            r@ == Seq::<(u64, u64)>::empty(),
            r.root_collapsed(),
            r.left_packed(),
    {
        PalmTree { size: 0, root: None }
    }

    /// Construct a tree from a list of entries in strictly ascending
    /// key order. The algorithm fills one leaf after another, then folds
    /// each finished row of nodes into a row of parents until a single
    /// root remains: every node but those on the rightmost path comes
    /// out full ("left-packed").
    pub fn load(input: Vec<(u64, u64)>) -> (r: Self)
        requires
            entries_sorted(input@),
        ensures
            r.wf(),
            r@ == input@,
            r.left_packed(),
            r.root_collapsed(),
    {
        if input.len() == 0 {
            return PalmTree::new();
        }
        let size = input.len();
        let mut nodes = build_leaf_row(&input);
        while nodes.len() > 1
            invariant
                row_coherent(nodes@),
                Node::seq_entries(nodes@) == input@,
                nodes@.len() >= 1,
                forall|j: int| 0 <= j < nodes@.len() - 1 ==> full_packed(#[trigger] nodes@[j]),
                left_packed(nodes@[nodes@.len() - 1]),
                nodes@.len() == 1 ==> (nodes@[0] is Branch ==> nodes@[0]->Branch_0.children@.len()
                    >= 2),
            decreases nodes@.len(),
        {
            nodes = build_level(nodes);
        }
        let ghost row = nodes@;
        let root = nodes.pop().unwrap();
        proof {
            assert(root == row[0]);
            assert(row =~= seq![root]);
            lemma_seq_entries_singleton(root);
            assert(root.entries() == input@);
            assert(left_packed(root)) by {
                assert(row[row.len() - 1] == root);
            }
        }
        PalmTree { size, root: Some(root) }
    }

    /// Construct a tree by inserting the given entries one at a time,
    /// in the order given: later entries overwrite earlier ones with
    /// the same key. The input need not be sorted; `load` is the fast
    /// path for sorted input.
    pub fn from_entries(input: Vec<(u64, u64)>) -> (r: Self)
        ensures
            r.wf(),
            r@ == crate::model::seq_insert_all(Seq::empty(), input@),
    {
        let ghost target = crate::model::seq_insert_all(Seq::empty(), input@);
        let mut out = Self::new();
        let mut i: usize = 0;
        proof {
            assert(input@.subrange(0, input@.len() as int) =~= input@);
        }
        while i < input.len()
            invariant
                out.wf(),
                out@.len() <= i <= input.len(),
                crate::model::seq_insert_all(
                    out@,
                    input@.subrange(i as int, input@.len() as int),
                ) == target,
            decreases input.len() - i,
        {
            let ghost rest = input@.subrange(i as int, input@.len() as int);
            let e = input[i];
            proof {
                out.lemma_wf();
                lemma_seq_insert(out@, e.0, e.1);
                assert(rest[0] == e);
            }
            out.insert(e.0, e.1);
            proof {
                assert(input@.subrange(i + 1, input@.len() as int) =~= rest.drop_first());
            }
            i += 1;
        }
        proof {
            assert(input@.subrange(input@.len() as int, input@.len() as int) =~= Seq::<(
                u64,
                u64,
            )>::empty());
        }
        out
    }

    /// The number of entries in the tree.
    pub fn len(&self) -> (r: usize)
        requires
            self.wf(),
        ensures
            r == self@.len(),
    {
        self.size
    }

    /// Whether the tree holds no entries.
    pub fn is_empty(&self) -> (r: bool)
        requires
            self.wf(),
        ensures
            r == (self@.len() == 0),
    {
        self.size == 0
    }

    /// Look up the value stored under `key`.
    pub fn get(&self, key: u64) -> (r: Option<u64>)
        requires
            self.wf(),
        ensures
            r == if has_key(self@, key) {
                Some(value_of(self@, key))
            } else {
                None::<u64>
            },
    {
        match &self.root {
            None => None,
            Some(root) => root.get(key),
        }
    }

    /// Borrow the value stored under `key` mutably, if present. While
    /// the borrow lives the caller may overwrite the value; the tree
    /// afterwards maps `key` to whatever was written, and every other
    /// entry is untouched.
    pub fn get_mut(&mut self, key: u64) -> (r: Option<&mut u64>)
        requires
            old(self).wf(),
        ensures
            match r {
                None => {
                    &&& !has_key(old(self)@, key)
                    &&& final(self).wf()
                    &&& final(self)@ == old(self)@
                },
                Some(p) => {
                    &&& has_key(old(self)@, key)
                    &&& *p == value_of(old(self)@, key)
                    &&& final(self).wf()
                    &&& final(self)@ == seq_insert(old(self)@, key, *final(p))
                },
            },
    {
        let ghost s0 = self@;
        proof {
            self.lemma_wf();
            if has_key(s0, key) {
                assert forall|v: u64| (#[trigger] seq_insert(s0, key, v)).len()
                    == s0.len() by {
                    lemma_seq_insert(s0, key, v);
                }
            }
        }
        match &mut self.root {
            None => None,
            Some(root) => {
                let ghost h = root.height();
                root.get_mut(key, Ghost(h))
            },
        }
    }

    /// Insert `(key, value)`: returns the value previously stored under
    /// `key`, if any. The entry count can reach the machine limit, so
    /// one free slot is required.
    pub fn insert(&mut self, key: u64, value: u64) -> (r: Option<u64>)
        requires
            old(self).wf(),
            old(self)@.len() < usize::MAX,
        ensures
            final(self).wf(),
            final(self)@ == seq_insert(old(self)@, key, value),
            r == if has_key(old(self)@, key) {
                Some(value_of(old(self)@, key))
            } else {
                None::<u64>
            },
            final(self)@.len() == old(self)@.len() + if has_key(old(self)@, key) {
                0int
            } else {
                1int
            },
    {
        let ghost s0 = self@;
        proof {
            self.lemma_wf();
            lemma_seq_insert(s0, key, value);
        }
        match self.root.take() {
            None => {
                let mut ks: Vec<u64> = Vec::new();
                let mut vs: Vec<u64> = Vec::new();
                ks.push(key);
                vs.push(value);
                let leaf = Leaf { keys: ks, values: vs };
                proof {
                    assert(leaf.entries() =~= seq![(key, value)]);
                    assert(seq_insert(s0, key, value) =~= seq![(key, value)]);
                }
                self.root = Some(Node::Leaf(leaf));
                self.size = 1;
                None
            },
            Some(root) => {
                let ghost h = root.height();
                match root.insert(key, value, Ghost(h)) {
                    InsertResult::Done(m, rep) => {
                        self.root = Some(m);
                        if rep.is_none() {
                            self.size = self.size + 1;
                        }
                        rep
                    },
                    InsertResult::Split(x, y, rep) => {
                        let hx = x.highest();
                        let hy = y.highest();
                        proof {
                            lemma_pair_row(x, y, hx, hy);
                        }
                        let mut ks: Vec<u64> = Vec::new();
                        let mut cs: Vec<Node> = Vec::new();
                        ks.push(hx);
                        ks.push(hy);
                        cs.push(x);
                        cs.push(y);
                        let b = Branch { keys: ks, children: cs };
                        proof {
                            assert(b.keys@ =~= seq![hx, hy]);
                            assert(b.children@ =~= seq![x, y]);
                            assert(Node::Branch(b).wf());
                            assert(Node::Branch(b).entries() == seq_insert(s0, key, value));
                        }
                        self.root = Some(Node::Branch(b));
                        if rep.is_none() {
                            self.size = self.size + 1;
                        }
                        rep
                    },
                }
            },
        }
    }

    /// Remove the entry keyed `key`, if present, returning the removed
    /// pair. Emptied nodes are dropped; a root left with a single child
    /// chain is collapsed.
    pub fn remove(&mut self, key: u64) -> (r: Option<(u64, u64)>)
        requires
            old(self).wf(),
        ensures
            final(self).wf(),
            final(self).root_collapsed(),
            final(self)@ == seq_remove(old(self)@, key),
            r == if has_key(old(self)@, key) {
                Some((key, value_of(old(self)@, key)))
            } else {
                None::<(u64, u64)>
            },
            final(self)@.len() == old(self)@.len() - if has_key(old(self)@, key) {
                1int
            } else {
                0int
            },
    {
        let ghost s0 = self@;
        proof {
            self.lemma_wf();
            lemma_seq_remove(s0, key);
        }
        match self.root.take() {
            None => {
                self.root = None;
                None
            },
            Some(root) => {
                let ghost h = root.height();
                let (sub, removed) = root.remove(key, Ghost(h));
                match sub {
                    None => {
                        self.root = None;
                        if removed.is_some() {
                            self.size = self.size - 1;
                        }
                    },
                    Some(m) => {
                        let t = trim_root(m);
                        self.root = Some(t);
                        if removed.is_some() {
                            self.size = self.size - 1;
                        }
                    },
                }
                removed
            },
        }
    }

    /// All entries of the tree, in ascending key order, as a vector.
    pub fn to_vec(&self) -> (r: Vec<(u64, u64)>)
        requires
            self.wf(),
        ensures
            r@ == self@,
    {
        let mut out: Vec<(u64, u64)> = Vec::new();
        match &self.root {
            None => {},
            Some(root) => {
                let ghost h = root.height();
                root.collect_into(&mut out, Ghost(h));
            },
        }
        out
    }

    /// An independent copy of the tree: the clone operation. The copy
    /// is rebuilt left-packed from the entries, so it observes the same
    /// map even where the original's node layout differs.
    pub fn duplicate(&self) -> (r: Self)
        requires
            self.wf(),
        ensures
            r.wf(),
            r@ == self@,
            r.left_packed(),
            r.root_collapsed(),
    {
        proof {
            self.lemma_wf();
        }
        let items = self.to_vec();
        Self::load(items)
    }

    /// Iterate over all entries in ascending key order.
    pub fn iter(&self) -> (r: Iter)
        requires
            self.wf(),
        ensures
            r.wf(),
            r.remaining() == self@,
    {
        self.range(RangeBound::Unbounded, RangeBound::Unbounded)
    }

    /// Iterate over the entries whose keys fall within the given
    /// bounds, in ascending key order. An inverted range (start above
    /// end, or equal with both ends excluded) is a caller error.
    pub fn range(&self, lo: RangeBound, hi: RangeBound) -> (r: Iter)
        requires
            self.wf(),
            crate::iter::valid_range(lo, hi),
        ensures
            r.wf(),
            r.remaining() == crate::iter::range_entries(self@, lo, hi),
    {
        proof {
            self.lemma_wf();
        }
        let items = self.to_vec();
        proof {
            crate::iter::lemma_range_positions(self@, lo, hi);
            if (crate::iter::lo_pos(self@, lo) == 0) && (crate::iter::hi_pos(self@, hi)
                == self@.len()) {
                assert(self@.subrange(0, self@.len() as int) =~= self@);
            }
        }
        Iter::new(items, lo, hi)
    }

    /// Consume the tree, yielding its entries in ascending key order.
    pub fn into_iter(self) -> (r: OwnedIter)
        requires
            self.wf(),
        ensures
            r.wf(),
            r.remaining() == self@,
    {
        let items = self.to_vec();
        OwnedIter::new(items)
    }

    /// Remove and return the entry with the lowest key, if any.
    pub fn remove_lowest(&mut self) -> (r: Option<(u64, u64)>)
        requires
            old(self).wf(),
        ensures
            final(self).wf(),
            old(self)@.len() > 0 ==> final(self).root_collapsed(),
            old(self)@.len() == 0 ==> r.is_none() && final(self)@ == old(self)@,
            old(self)@.len() > 0 ==> r == Some(old(self)@[0]) && final(self)@ == old(self)@.drop_first(),
    {
        let ghost s0 = self@;
        proof {
            self.lemma_wf();
        }
        if self.size == 0 {
            return None;
        }
        let k = match &self.root {
            None => 0,
            Some(root) => root.lowest(),
        };
        proof {
            assert(k == s0[0].0);
            lemma_count_below_is(s0, k, 0);
            lemma_count_below_unique(s0, k, 0);
            assert(seq_remove(s0, k) =~= s0.drop_first()) by {
                assert(has_key(s0, k));
                assert(s0.subrange(0, 0) + s0.subrange(1, s0.len() as int) =~= s0.drop_first());
            }
        }
        let removed = self.remove(k);
        proof {
            assert(removed == Some((k, value_of(s0, k))));
            assert(value_of(s0, k) == s0[0].1);
        }
        removed
    }

    /// Remove and return the entry with the highest key, if any.
    pub fn remove_highest(&mut self) -> (r: Option<(u64, u64)>)
        requires
            old(self).wf(),
        ensures
            final(self).wf(),
            old(self)@.len() > 0 ==> final(self).root_collapsed(),
            old(self)@.len() == 0 ==> r.is_none() && final(self)@ == old(self)@,
            old(self)@.len() > 0 ==> r == Some(old(self)@.last()) && final(self)@ == old(self)@.drop_last(),
    {
        let ghost s0 = self@;
        proof {
            self.lemma_wf();
        }
        if self.size == 0 {
            return None;
        }
        let k = match &self.root {
            None => 0,
            Some(root) => {
                proof {
                    lemma_wf_entries(self.root.unwrap());
                }
                root.highest()
            },
        };
        let ghost last_i = s0.len() - 1;
        proof {
            assert(s0.last() == s0[last_i]);
            assert(k == s0[last_i].0);
            lemma_count_below_unique(s0, k, last_i);
            assert(seq_remove(s0, k) =~= s0.drop_last()) by {
                assert(has_key(s0, k));
                assert(s0.subrange(0, last_i) + s0.subrange(last_i + 1, s0.len() as int)
                    =~= s0.drop_last());
            }
        }
        let removed = self.remove(k);
        proof {
            assert(removed == Some((k, value_of(s0, k))));
            assert(value_of(s0, k) == s0[last_i].1);
        }
        removed
    }
}

/// Run a merging iterator to completion, collecting its output.
fn drain_merge(it: MergeIter) -> (out: Vec<(u64, u64)>)
    requires
        it.wf(),
    ensures
        out@ == it.remaining(),
{
    let mut it = it;
    let ghost total = it.remaining();
    let mut out: Vec<(u64, u64)> = Vec::new();
    loop
        invariant
            it.wf(),
            out@ + it.remaining() == total,
        ensures
            it.wf(),
            out@ + it.remaining() == total,
            it.remaining().len() == 0,
        decreases it.remaining().len(),
    {
        let ghost rem = it.remaining();
        match it.next() {
            Some(e) => {
                out.push(e);
                proof {
                    assert(out@ + it.remaining() =~= total) by {
                        assert(rem == seq![e] + it.remaining()) by {
                            assert(rem[0] == e);
                            assert(rem =~= seq![e] + rem.drop_first());
                        }
                    }
                }
            },
            None => {
                break;
            },
        }
    }
    proof {
        assert(out@ =~= out@ + it.remaining());
    }
    out
}

impl PalmTree {
    /// Look up the value stored under `key` with linear scans instead
    /// of binary search; kept for comparison benchmarks.
    pub fn get_linear(&self, key: u64) -> (r: Option<u64>)
        requires
            self.wf(),
        ensures
            r == if has_key(self@, key) {
                Some(value_of(self@, key))
            } else {
                None::<u64>
            },
    {
        match &self.root {
            None => None,
            Some(root) => root.get_linear(key),
        }
    }

    /// Insert through the recursive root-first path. Splitting is
    /// resolved level by level on the way back up, so this path and
    /// `insert` build identical trees; the two entry points coincide.
    pub fn insert_recursive(&mut self, key: u64, value: u64) -> (r: Option<u64>)
        requires
            old(self).wf(),
            old(self)@.len() < usize::MAX,
        ensures
            final(self).wf(),
            final(self)@ == seq_insert(old(self)@, key, value),
            r == if has_key(old(self)@, key) {
                Some(value_of(old(self)@, key))
            } else {
                None::<u64>
            },
    {
        self.insert(key, value)
    }

    /// The union of two trees as a merging iterator, preferring the
    /// right tree's entry when both hold a key.
    pub fn merge_left_iter(left: Self, right: Self) -> (r: MergeIter)
        requires
            left.wf(),
            right.wf(),
        ensures
            r.wf(),
            r.remaining() == merged(left@, right@, false),
    {
        let lv = left.to_vec();
        let rv = right.to_vec();
        MergeIter::merge(lv, rv, false)
    }

    /// The union of two trees, preferring the right tree's entry when
    /// both hold a key.
    pub fn merge_left(left: Self, right: Self) -> (r: Self)
        requires
            left.wf(),
            right.wf(),
        ensures
            r.wf(),
            r@ == merged(left@, right@, false),
            r.left_packed(),
            r.root_collapsed(),
    {
        proof {
            left.lemma_wf();
            right.lemma_wf();
            lemma_merged_sorted(left@, right@, false);
        }
        let it = Self::merge_left_iter(left, right);
        let out = drain_merge(it);
        Self::load(out)
    }

    /// The union of two trees as a merging iterator, preferring the
    /// left tree's entry when both hold a key.
    pub fn merge_right_iter(left: Self, right: Self) -> (r: MergeIter)
        requires
            left.wf(),
            right.wf(),
        ensures
            r.wf(),
            r.remaining() == merged(left@, right@, true),
    {
        let lv = left.to_vec();
        let rv = right.to_vec();
        MergeIter::merge(lv, rv, true)
    }

    /// The union of two trees, preferring the left tree's entry when
    /// both hold a key.
    pub fn merge_right(left: Self, right: Self) -> (r: Self)
        requires
            left.wf(),
            right.wf(),
        ensures
            r.wf(),
            r@ == merged(left@, right@, true),
            r.left_packed(),
            r.root_collapsed(),
    {
        proof {
            left.lemma_wf();
            right.lemma_wf();
            lemma_merged_sorted(left@, right@, true);
        }
        let it = Self::merge_right_iter(left, right);
        let out = drain_merge(it);
        Self::load(out)
    }

    /// Merge `other` into this tree, preferring `other`'s entry when
    /// both hold a key.
    pub fn append_left(&mut self, other: Self)
        requires
            old(self).wf(),
            other.wf(),
        ensures
            final(self).wf(),
            final(self)@ == merged(old(self)@, other@, false),
            final(self).left_packed(),
            final(self).root_collapsed(),
    {
        proof {
            self.lemma_wf();
            other.lemma_wf();
            lemma_merged_sorted(self@, other@, false);
        }
        let lv = self.to_vec();
        let rv = other.to_vec();
        let it = MergeIter::merge(lv, rv, false);
        let out = drain_merge(it);
        *self = Self::load(out);
    }

    /// Merge `other` into this tree, keeping this tree's entry when
    /// both hold a key.
    pub fn append_right(&mut self, other: Self)
        requires
            old(self).wf(),
            other.wf(),
        ensures
            final(self).wf(),
            final(self)@ == merged(old(self)@, other@, true),
            final(self).left_packed(),
            final(self).root_collapsed(),
    {
        proof {
            self.lemma_wf();
            other.lemma_wf();
            lemma_merged_sorted(self@, other@, true);
        }
        let lv = self.to_vec();
        let rv = other.to_vec();
        let it = MergeIter::merge(lv, rv, true);
        let out = drain_merge(it);
        *self = Self::load(out);
    }
}

impl Default for PalmTree {
    /// The empty tree.
    fn default() -> (r: Self)
        ensures
            r.wf(),
            r@ == Seq::<(u64, u64)>::empty(),
    {
        PalmTree::new()
    }
}

impl View for PalmTree {
    type V = Seq<(u64, u64)>;

    closed spec fn view(&self) -> Seq<(u64, u64)> {
        self.entries()
    }
}

} // verus!
