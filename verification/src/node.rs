//! Tree nodes. A leaf holds parallel arrays of sorted keys and their
//! values; a branch holds parallel arrays of high keys and owned child
//! nodes. `Node` is the owning child cell: since leaves and branches are
//! different types, the cell is a tagged variant and the parent's arrays
//! hold cells, as sibling nodes always share one kind.

use vstd::prelude::*;

use crate::config::{BRANCH_FANOUT, LEAF_FANOUT};
use crate::model::{entries_sorted, has_key, value_of, keys_at_most, keys_above, seq_insert, seq_remove};
use crate::model::{
    lemma_count_below_unique, lemma_lookup_in_segment, lemma_count_below_is, lemma_seq_insert,
    lemma_seq_remove, lemma_seq_insert_segment, lemma_seq_remove_segment,
    lemma_seq_insert_segment_all,
};
use crate::search::{find_key, find_key_linear, keys_strictly_sorted, lemma_sorted_from_adjacent};

verus! {

/// A terminal node: `keys[i]` maps to `values[i]`, keys strictly sorted.
pub struct Leaf {
    pub keys: Vec<u64>,
    pub values: Vec<u64>,
}

/// An internal node: `keys[i]` is the highest key found anywhere in the
/// subtree `children[i]`.
pub struct Branch {
    pub keys: Vec<u64>,
    pub children: Vec<Node>,
}

/// An owning cell addressing either kind of node.
pub enum Node {
    Leaf(Leaf),
    Branch(Branch),
}

impl Leaf {
    /// The key/value pairs of the leaf, in key order.
    pub open spec fn entries(self) -> Seq<(u64, u64)> {
        Seq::new(self.keys@.len(), |i: int| (self.keys@[i], self.values@[i]))
    }

    /// Parallel arrays of equal length, at least one entry, at most
    /// `LEAF_FANOUT`, keys strictly sorted.
    pub open spec fn wf(self) -> bool {
        &&& self.values@.len() == self.keys@.len()
        &&& 1 <= self.keys@.len() <= LEAF_FANOUT
        &&& forall|i: int, j: int|
            0 <= i < j < self.keys@.len() ==> self.keys@[i] < self.keys@[j]
    }
}

impl Node {
    /// Leaves sit at height 0; a branch sits one above its first child.
    pub open spec fn height(self) -> nat
        decreases self,
    {
        match self {
            Node::Leaf(_) => 0,
            Node::Branch(b) => 1 + if b.children.len() == 0 {
                0
            } else {
                b.children[0].height()
            },
        }
    }

    /// The key/value pairs of the whole subtree, in key order.
    pub open spec fn entries(self) -> Seq<(u64, u64)>
        decreases self,
    {
        match self {
            Node::Leaf(l) => l.entries(),
            Node::Branch(b) => Node::seq_entries(b.children@),
        }
    }

    /// Concatenation of the entries of a sequence of sibling nodes.
    pub open spec fn seq_entries(cs: Seq<Node>) -> Seq<(u64, u64)>
        decreases cs,
    {
        if cs.len() == 0 {
            Seq::empty()
        } else {
            Node::seq_entries(cs.drop_last()) + cs.last().entries()
        }
    }

    /// The highest key of the subtree, as recorded in the node itself.
    pub open spec fn high_key(self) -> u64 {
        match self {
            Node::Leaf(l) => l.keys@.last(),
            Node::Branch(b) => b.keys@.last(),
        }
    }

    /// The lowest key of the subtree.
    pub open spec fn low_key(self) -> u64
        decreases self,
    {
        match self {
            Node::Leaf(l) => l.keys@[0],
            Node::Branch(b) => if b.children.len() == 0 {
                0
            } else {
                b.children[0].low_key()
            },
        }
    }

    /// Well-formedness. A leaf must satisfy `Leaf::wf`; a branch must
    /// have between 1 and `BRANCH_FANOUT` children forming a valid
    /// sibling row (see `branch_form`).
    pub open spec fn wf(self) -> bool
        decreases self,
    {
        match self {
            Node::Leaf(l) => l.wf(),
            Node::Branch(b) => {
                &&& 1 <= b.children@.len() <= BRANCH_FANOUT
                &&& branch_form(b.keys@, b.children@)
            },
        }
    }
}

/// A valid row of siblings under a branch: high keys kept in lockstep
/// with the children; all children well formed and of equal height;
/// each recorded high key exact; and each child's keys strictly above
/// the previous child's high key.
pub open spec fn branch_form(ks: Seq<u64>, cs: Seq<Node>) -> bool
    decreases cs,
{
    &&& ks.len() == cs.len()
    &&& forall|i: int| 0 <= i < cs.len() ==> cs[i].wf()
    &&& forall|i: int|
        0 <= i < cs.len() ==> (#[trigger] cs[i].height()) == cs[0].height()
    &&& forall|i: int| 0 <= i < cs.len() ==> ks[i] == (#[trigger] cs[i]).high_key()
    &&& forall|i: int| 0 < i < cs.len() ==> (#[trigger] cs[i]).low_key() > ks[i - 1]
}

/// A contiguous slice of a valid sibling row is itself a valid row.
pub proof fn lemma_branch_form_subrange(ks: Seq<u64>, cs: Seq<Node>, a: int, b: int)
    requires
        branch_form(ks, cs),
        0 <= a <= b <= cs.len(),
    ensures
        branch_form(ks.subrange(a, b), cs.subrange(a, b)),
{
    let ks2 = ks.subrange(a, b);
    let cs2 = cs.subrange(a, b);
    assert forall|i: int| 0 <= i < cs2.len() implies cs2[i].wf() by {
        assert(cs2[i] == cs[a + i]);
    }
    assert forall|i: int|
        0 <= i < cs2.len() implies (#[trigger] cs2[i].height()) == cs2[0].height() by {
        assert(cs2[i] == cs[a + i]);
        assert(cs2[0] == cs[a]);
        assert(cs[a + i].height() == cs[0].height());
        assert(cs[a].height() == cs[0].height());
    }
    assert forall|i: int| 0 <= i < cs2.len() implies ks2[i] == (#[trigger] cs2[i]).high_key() by {
        assert(cs2[i] == cs[a + i]);
        assert(ks2[i] == ks[a + i]);
    }
    assert forall|i: int|
        0 < i < cs2.len() implies (#[trigger] cs2[i]).low_key() > ks2[i - 1] by {
        assert(cs2[i] == cs[a + i]);
        assert(ks2[i - 1] == ks[a + i - 1]);
        assert(cs[a + i].low_key() > ks[a + i - 1]);
    }
}

/// Splitting a sibling sequence splits its entry concatenation.
pub proof fn lemma_seq_entries_split(cs: Seq<Node>, m: int)
    requires
        0 <= m <= cs.len(),
    ensures
        Node::seq_entries(cs) == Node::seq_entries(cs.subrange(0, m)) + Node::seq_entries(
            cs.subrange(m, cs.len() as int),
        ),
    decreases cs.len(),
{
    let n = cs.len() as int;
    if m == n {
        assert(cs.subrange(0, n) =~= cs);
        assert(Node::seq_entries(cs.subrange(m, n)) =~= Seq::empty());
        assert(Node::seq_entries(cs) =~= Node::seq_entries(cs.subrange(0, m)) + Node::seq_entries(
            cs.subrange(m, n),
        ));
    } else {
        let dl = cs.drop_last();
        lemma_seq_entries_split(dl, m);
        assert(dl.subrange(0, m) =~= cs.subrange(0, m));
        assert(dl.subrange(m, dl.len() as int) =~= cs.subrange(m, n).drop_last());
        assert(cs.subrange(m, n).last() == cs.last());
        assert(Node::seq_entries(cs.subrange(m, n)) == Node::seq_entries(
            cs.subrange(m, n).drop_last(),
        ) + cs.last().entries());
        assert(Node::seq_entries(cs) =~= Node::seq_entries(cs.subrange(0, m)) + Node::seq_entries(
            cs.subrange(m, n),
        ));
    }
}

/// Concatenating sibling sequences concatenates their entries.
pub proof fn lemma_seq_entries_concat(a: Seq<Node>, b: Seq<Node>)
    ensures
        Node::seq_entries(a + b) == Node::seq_entries(a) + Node::seq_entries(b),
{
    lemma_seq_entries_split(a + b, a.len() as int);
    assert((a + b).subrange(0, a.len() as int) =~= a);
    assert((a + b).subrange(a.len() as int, (a + b).len() as int) =~= b);
}

/// A sibling sequence of one node contributes exactly that node's entries.
pub proof fn lemma_seq_entries_singleton(x: Node)
    ensures
        Node::seq_entries(seq![x]) == x.entries(),
{
    let s = seq![x];
    assert(s.drop_last() =~= Seq::<Node>::empty());
    assert(Node::seq_entries(s.drop_last()) == Seq::<(u64, u64)>::empty());
    assert(s.last() == x);
    assert(Node::seq_entries(s) == Seq::<(u64, u64)>::empty() + x.entries());
    assert(Seq::<(u64, u64)>::empty() + x.entries() =~= x.entries());
}

/// The structure theorem for well-formed nodes: the flattened entries
/// are strictly sorted, non-empty, and bracketed by the node's low and
/// high keys, the high key being the one the parent records.
pub proof fn lemma_wf_entries(n: Node)
    requires
        n.wf(),
    ensures
        entries_sorted(n.entries()),
        n.entries().len() >= 1,
        n.entries().last().0 == n.high_key(),
        n.entries()[0].0 == n.low_key(),
        forall|i: int|
            0 <= i < n.entries().len() ==> n.low_key() <= (#[trigger] n.entries()[i]).0
                <= n.high_key(),
    decreases n.height() + 1, 0nat,
{
    match n {
        Node::Leaf(l) => {
            assert(n.entries().last() == n.entries()[n.entries().len() - 1]);
        },
        Node::Branch(b) => {
            lemma_branch_prefix(n, b, b.children@.len() as int);
            assert(b.children@.subrange(0, b.children@.len() as int) =~= b.children@);
            let e = n.entries();
            assert(e.last().0 == b.keys@[b.children@.len() - 1]);
            assert forall|i: int| 0 <= i < e.len() implies n.low_key() <= (#[trigger] e[i]).0
                <= n.high_key() by {
                if i > 0 {
                    assert(e[0].0 < e[i].0);
                }
                if i < e.len() - 1 {
                    assert(e[i].0 < e[e.len() - 1].0);
                }
                assert(e.last() == e[e.len() - 1]);
            }
        },
    }
}

/// Induction workhorse for `lemma_wf_entries`: the same facts for the
/// concatenation of the first `m` children of a well-formed branch.
proof fn lemma_branch_prefix(n: Node, b: Branch, m: int)
    requires
        n == Node::Branch(b),
        n.wf(),
        0 <= m <= b.children@.len(),
    ensures
        entries_sorted(Node::seq_entries(b.children@.subrange(0, m))),
        Node::seq_entries(b.children@.subrange(0, m)).len() >= m,
        m > 0 ==> Node::seq_entries(b.children@.subrange(0, m)).last().0 == b.keys@[m - 1],
        m > 0 ==> Node::seq_entries(b.children@.subrange(0, m))[0].0 == b.children@[0].low_key(),
        forall|i: int|
            0 <= i < Node::seq_entries(b.children@.subrange(0, m)).len() ==> (
            #[trigger] Node::seq_entries(b.children@.subrange(0, m))[i]).0 <= b.keys@[m - 1],
    decreases n.height(), m,
{
    if m > 0 {
        lemma_branch_prefix(n, b, m - 1);
        let child = b.children@[m - 1];
        assert(child.wf());
        assert(child.height() < n.height()) by {
            assert(child.height() == b.children@[0].height());
        }
        lemma_wf_entries(child);
        let pre = Node::seq_entries(b.children@.subrange(0, m - 1));
        let cur = b.children@.subrange(0, m);
        assert(cur.drop_last() =~= b.children@.subrange(0, m - 1));
        assert(cur.last() == child);
        let all = Node::seq_entries(cur);
        assert(all == pre + child.entries());
        let ce = child.entries();
        assert(ce.last().0 == b.keys@[m - 1]);
        if m > 1 {
            // the previous prefix tops out at keys[m-2], and every key of
            // the new child lies strictly above it
            assert(child.low_key() > b.keys@[m - 2]);
            assert forall|i: int, j: int| 0 <= i < j < all.len() implies all[i].0 < all[j].0 by {
                if j >= pre.len() && i < pre.len() {
                    assert(all[i].0 <= b.keys@[m - 2]);
                    assert(all[j].0 >= child.low_key());
                }
                if j >= pre.len() && i >= pre.len() {
                    assert(all[i] == ce[i - pre.len()]);
                    assert(all[j] == ce[j - pre.len()]);
                }
            }
        } else {
            assert(pre.len() == 0);
            assert(all =~= ce);
        }
        assert(all.last() == ce.last());
        assert forall|i: int| 0 <= i < all.len() implies (#[trigger] all[i]).0 <= b.keys@[m - 1] by {
            if i < all.len() - 1 {
                assert(all[i].0 < all[all.len() - 1].0);
            }
            assert(all.last() == all[all.len() - 1]);
        }
        if m > 1 {
            assert(all[0] == pre[0]);
        }
    }
}

/// In a valid sibling row, the high keys strictly increase.
pub proof fn lemma_form_keys_sorted(ks: Seq<u64>, cs: Seq<Node>)
    requires
        branch_form(ks, cs),
    ensures
        keys_strictly_sorted(ks),
{
    assert forall|i: int| 0 <= i < ks.len() - 1 implies #[trigger] ks[i] < ks[i + 1] by {
        let child = cs[i + 1];
        assert(child.wf());
        lemma_wf_entries(child);
        assert(ks[i] < child.low_key());
        assert(child.low_key() <= child.high_key()) by {
            assert(child.entries()[0].0 <= child.entries().last().0) by {
                assert(child.entries().last() == child.entries()[child.entries().len() - 1]);
                if child.entries().len() > 1 {
                    assert(child.entries()[0].0 < child.entries()[child.entries().len() - 1].0);
                }
            }
        }
    }
    lemma_sorted_from_adjacent(ks);
}

/// In a well-formed branch, the high keys strictly increase.
pub proof fn lemma_branch_keys_sorted(n: Node, b: Branch)
    requires
        n == Node::Branch(b),
        n.wf(),
    ensures
        keys_strictly_sorted(b.keys@),
{
    lemma_form_keys_sorted(b.keys@, b.children@);
}

/// Replacing child `i` of a valid sibling row by a short row `rs` (empty
/// when the child vanished, one node when it was updated in place, two
/// when it split) keeps the row valid and splices the replacement's
/// entries into the row's entry sequence.
#[verifier::rlimit(100)]
pub proof fn lemma_branch_replace(
    bk: Seq<u64>,
    ck: Seq<Node>,
    i: int,
    rks: Seq<u64>,
    rs: Seq<Node>,
)
    requires
        branch_form(bk, ck),
        0 <= i < ck.len(),
        rks.len() == rs.len(),
        forall|j: int| 0 <= j < rs.len() ==> (#[trigger] rs[j]).wf(),
        forall|j: int| 0 <= j < rs.len() ==> (#[trigger] rs[j]).height() == ck[0].height(),
        forall|j: int| 0 <= j < rs.len() ==> rks[j] == (#[trigger] rs[j]).high_key(),
        forall|j: int| 0 < j < rs.len() ==> (#[trigger] rs[j]).low_key() > rks[j - 1],
        i > 0 && rs.len() > 0 ==> rs[0].low_key() > bk[i - 1],
        i < ck.len() - 1 && rs.len() > 0 ==> rks.last() <= bk[i],
    ensures
        branch_form(
            bk.subrange(0, i) + rks + bk.subrange(i + 1, bk.len() as int),
            ck.subrange(0, i) + rs + ck.subrange(i + 1, ck.len() as int),
        ),
        Node::seq_entries(ck.subrange(0, i) + rs + ck.subrange(i + 1, ck.len() as int))
            == Node::seq_entries(ck.subrange(0, i)) + Node::seq_entries(rs) + Node::seq_entries(
            ck.subrange(i + 1, ck.len() as int),
        ),
        (ck.subrange(0, i) + rs + ck.subrange(i + 1, ck.len() as int)).len() == ck.len() - 1
            + rs.len(),
        (ck.len() - 1 + rs.len()) > 0 ==> (ck.subrange(0, i) + rs + ck.subrange(
            i + 1,
            ck.len() as int,
        ))[0].height() == ck[0].height(),
{
    let n = ck.len() as int;
    let ks2 = bk.subrange(0, i) + rks + bk.subrange(i + 1, n);
    let cs2 = ck.subrange(0, i) + rs + ck.subrange(i + 1, n);
    let r = rs.len() as int;
    lemma_form_keys_sorted(bk, ck);
    lemma_seq_entries_concat(ck.subrange(0, i) + rs, ck.subrange(i + 1, n));
    lemma_seq_entries_concat(ck.subrange(0, i), rs);
    assert((ck.subrange(0, i) + rs) + ck.subrange(i + 1, n) =~= cs2);
    // index map: j < i -> old j; i <= j < i + r -> rs[j - i]; j >= i + r -> old j + 1 - r
    assert(forall|j: int| 0 <= j < i ==> cs2[j] == ck[j] && ks2[j] == bk[j]);
    assert(forall|j: int| i <= j < i + r ==> cs2[j] == rs[j - i] && ks2[j] == rks[j - i]);
    assert(forall|j: int|
        i + r <= j < cs2.len() ==> cs2[j] == ck[j + 1 - r] && ks2[j] == bk[j + 1 - r]);
    assert forall|j: int| 0 <= j < cs2.len() implies (#[trigger] cs2[j]).wf() by {}
    if cs2.len() > 0 {
        assert forall|j: int|
            0 <= j < cs2.len() implies (#[trigger] cs2[j].height()) == cs2[0].height() by {
            assert(cs2[j].height() == ck[0].height());
            assert(cs2[0].height() == ck[0].height());
        }
    }
    assert forall|j: int| 0 <= j < cs2.len() implies ks2[j] == (#[trigger] cs2[j]).high_key() by {}
    assert forall|j: int|
        0 < j < cs2.len() implies (#[trigger] cs2[j]).low_key() > ks2[j - 1] by {
        if j < i {
            assert(cs2[j] == ck[j] && ks2[j - 1] == bk[j - 1]);
        } else if j == i && r > 0 {
            // left seam: first replacement child against bk[i - 1]
            assert(cs2[j] == rs[0] && ks2[j - 1] == bk[i - 1]);
        } else if i < j && j < i + r {
            assert(cs2[j] == rs[j - i] && ks2[j - 1] == rks[j - i - 1]);
        } else if j == i + r {
            // right seam: the old child i + 1 against the last replacement key
            assert(cs2[j] == ck[i + 1]);
            assert(ck[i + 1].low_key() > bk[i]);
            if r > 0 {
                assert(ks2[j - 1] == rks.last());
            } else {
                assert(ks2[j - 1] == bk[i - 1]);
                assert(bk[i - 1] < bk[i]);
            }
        } else {
            assert(cs2[j] == ck[j + 1 - r] && ks2[j - 1] == bk[j - r]);
        }
    }
}

/// Every entry of the children from position `m` on carries a key
/// strictly above the high key recorded at position `m - 1`.
pub proof fn lemma_branch_suffix(n: Node, b: Branch, m: int)
    requires
        n == Node::Branch(b),
        n.wf(),
        1 <= m <= b.children@.len(),
    ensures
        keys_above(
            Node::seq_entries(b.children@.subrange(m, b.children@.len() as int)),
            b.keys@[m - 1],
        ),
    decreases b.children@.len() - m,
{
    let len = b.children@.len() as int;
    let suf = b.children@.subrange(m, len);
    if m == len {
        assert(Node::seq_entries(suf) =~= Seq::empty());
    } else {
        let child = b.children@[m];
        assert(child.wf());
        lemma_wf_entries(child);
        lemma_branch_suffix(n, b, m + 1);
        lemma_branch_keys_sorted(n, b);
        lemma_seq_entries_split(suf, 1);
        assert(suf.subrange(1, suf.len() as int) =~= b.children@.subrange(m + 1, len));
        assert(suf.subrange(0, 1) =~= seq![child]);
        lemma_seq_entries_singleton(child);
        let ce = child.entries();
        let rest = Node::seq_entries(b.children@.subrange(m + 1, len));
        assert(Node::seq_entries(suf) == ce + rest);
        assert forall|i: int|
            0 <= i < Node::seq_entries(suf).len() implies (#[trigger] Node::seq_entries(suf)[i]).0
            > b.keys@[m - 1] by {
            if i < ce.len() {
                assert(Node::seq_entries(suf)[i] == ce[i]);
                assert(ce[i].0 >= child.low_key());
                assert(child.low_key() > b.keys@[m - 1]);
            } else {
                assert(Node::seq_entries(suf)[i] == rest[i - ce.len()]);
                assert(rest[i - ce.len()].0 > b.keys@[m]);
                assert(b.keys@[m - 1] < b.keys@[m]);
            }
        }
    }
}

/// The three-way decomposition of a well-formed branch around child `i`:
/// entries split as prefix + child + suffix, the prefix topping out at
/// `keys[i-1]` and the suffix staying above `keys[i]`.
pub proof fn lemma_branch_segments(n: Node, b: Branch, i: int)
    requires
        n == Node::Branch(b),
        n.wf(),
        0 <= i < b.children@.len(),
    ensures
        n.entries() == Node::seq_entries(b.children@.subrange(0, i)) + b.children@[i].entries()
            + Node::seq_entries(b.children@.subrange(i + 1, b.children@.len() as int)),
        i > 0 ==> keys_at_most(Node::seq_entries(b.children@.subrange(0, i)), b.keys@[i - 1]),
        i == 0 ==> Node::seq_entries(b.children@.subrange(0, i)) == Seq::<(u64, u64)>::empty(),
        keys_above(
            Node::seq_entries(b.children@.subrange(i + 1, b.children@.len() as int)),
            b.keys@[i],
        ),
{
    let len = b.children@.len() as int;
    lemma_seq_entries_split(b.children@, i);
    lemma_seq_entries_split(b.children@.subrange(i, len), 1);
    assert(b.children@.subrange(i, len).subrange(1, len - i) =~= b.children@.subrange(i + 1, len));
    assert(b.children@.subrange(i, len).subrange(0, 1) =~= seq![b.children@[i]]);
    lemma_seq_entries_singleton(b.children@[i]);
    assert(b.children@.subrange(0, len) =~= b.children@);
    if i > 0 {
        lemma_branch_prefix(n, b, i);
    } else {
        assert(b.children@.subrange(0, 0) =~= Seq::<Node>::empty());
    }
    lemma_branch_suffix(n, b, i + 1);
}

/// The outcome of an insertion into a node. `Done` carries the updated
/// node; `Split` carries the two halves the node had to divide into.
/// Both carry the value previously stored under the key, if any — the
/// "full node" state is resolved right here by splitting, so no
/// capacity signal ever travels further up than one level.
pub enum InsertResult {
    Done(Node, Option<u64>),
    Split(Node, Node, Option<u64>),
}

/// What an insertion of `(key, value)` into a subtree of height `h` with
/// entries `s` must produce.
pub open spec fn insert_ensures(r: InsertResult, s: Seq<(u64, u64)>, h: nat, key: u64, value: u64) -> bool {
    match r {
        InsertResult::Done(m, rep) => {
            &&& m.wf()
            &&& m.height() == h
            &&& m.entries() == seq_insert(s, key, value)
            &&& rep == if has_key(s, key) {
                Some(value_of(s, key))
            } else {
                None::<u64>
            }
        },
        InsertResult::Split(x, y, rep) => {
            &&& x.wf()
            &&& y.wf()
            &&& x.height() == h
            &&& y.height() == h
            &&& x.entries() + y.entries() == seq_insert(s, key, value)
            &&& rep == if has_key(s, key) {
                Some(value_of(s, key))
            } else {
                None::<u64>
            }
        },
    }
}

/// Descending into child `i` of a well-formed branch: the branch's
/// entries split around the child's, and point operations on the key
/// localize to the child, provided the search chose `i` correctly
/// (every earlier high key below the key; the high key at `i` at least
/// the key unless `i` is the last child).
pub proof fn lemma_point_descend(n0: Node, b: Branch, ii: int, key: u64)
    requires
        n0 == Node::Branch(b),
        n0.wf(),
        0 <= ii < b.children@.len(),
        forall|j: int| 0 <= j < ii ==> b.keys@[j] < key,
        ii < b.children@.len() - 1 ==> b.keys@[ii] >= key,
    ensures
        n0.entries() == Node::seq_entries(b.children@.subrange(0, ii)) + b.children@[ii].entries()
            + Node::seq_entries(b.children@.subrange(ii + 1, b.children@.len() as int)),
        entries_sorted(b.children@[ii].entries()),
        has_key(n0.entries(), key) == has_key(b.children@[ii].entries(), key),
        has_key(b.children@[ii].entries(), key) ==> value_of(n0.entries(), key) == value_of(
            b.children@[ii].entries(),
            key,
        ),
        entries_sorted(n0.entries()),
        forall|j: int|
            0 <= j < Node::seq_entries(b.children@.subrange(0, ii)).len() ==> (
            #[trigger] Node::seq_entries(b.children@.subrange(0, ii))[j]).0 < key,
        forall|j: int|
            0 <= j < Node::seq_entries(
                b.children@.subrange(ii + 1, b.children@.len() as int),
            ).len() ==> (#[trigger] Node::seq_entries(
                b.children@.subrange(ii + 1, b.children@.len() as int),
            )[j]).0 > key,
{
    let ck = b.children@;
    let bk = b.keys@;
    let n = ck.len() as int;
    lemma_wf_entries(n0);
    lemma_branch_segments(n0, b, ii);
    let pre_e = Node::seq_entries(ck.subrange(0, ii));
    let ce = ck[ii].entries();
    let suf_e = Node::seq_entries(ck.subrange(ii + 1, n));
    assert forall|j: int| 0 <= j < pre_e.len() implies (#[trigger] pre_e[j]).0 < key by {
        assert(ii > 0);
        assert(pre_e[j].0 <= bk[ii - 1]);
    }
    if ii < n - 1 {
        assert forall|j: int| 0 <= j < suf_e.len() implies (#[trigger] suf_e[j]).0 > key by {
            assert(suf_e[j].0 > bk[ii]);
        }
    } else {
        assert(ck.subrange(n, n) =~= Seq::<Node>::empty());
        assert(suf_e.len() == 0);
    }
    lemma_lookup_in_segment(pre_e, ce, suf_e, key);
}

/// Reassembling a branch after a child was rebuilt in place: a child
/// whose keys still fit strictly between the neighboring high keys
/// slots back in under its new high key.
pub proof fn lemma_reattach_one(bk: Seq<u64>, ck: Seq<Node>, ii: int, m: Node, nh: u64)
    requires
        branch_form(bk, ck),
        0 <= ii < ck.len(),
        m.wf(),
        m.height() == ck[0].height(),
        nh == m.high_key(),
        forall|idx: int|
            0 <= idx < m.entries().len() && ii > 0 ==> (#[trigger] m.entries()[idx]).0 > bk[ii
            - 1],
        forall|idx: int|
            0 <= idx < m.entries().len() && ii < ck.len() - 1 ==> (#[trigger] m.entries()[idx]).0
                <= bk[ii],
    ensures
        branch_form(
            bk.subrange(0, ii) + seq![nh] + bk.subrange(ii + 1, bk.len() as int),
            ck.subrange(0, ii) + seq![m] + ck.subrange(ii + 1, ck.len() as int),
        ),
        Node::seq_entries(ck.subrange(0, ii) + seq![m] + ck.subrange(ii + 1, ck.len() as int))
            == Node::seq_entries(ck.subrange(0, ii)) + m.entries() + Node::seq_entries(
            ck.subrange(ii + 1, ck.len() as int),
        ),
        (ck.subrange(0, ii) + seq![m] + ck.subrange(ii + 1, ck.len() as int)).len() == ck.len(),
        (ck.subrange(0, ii) + seq![m] + ck.subrange(ii + 1, ck.len() as int))[0].height() == ck[
        0].height(),
{
    lemma_wf_entries(m);
    assert(ii > 0 ==> m.low_key() > bk[ii - 1]) by {
        if ii > 0 {
            assert(m.entries()[0].0 == m.low_key());
        }
    }
    assert(ii < ck.len() - 1 ==> nh <= bk[ii]) by {
        if ii < ck.len() - 1 {
            assert(m.entries().last() == m.entries()[m.entries().len() - 1]);
            assert(m.entries().last().0 == m.high_key());
        }
    }
    lemma_branch_replace(bk, ck, ii, seq![nh], seq![m]);
    lemma_seq_entries_singleton(m);
}

/// Reassembling a branch after a child split: two halves whose joint
/// keys fit strictly between the neighboring high keys slot in side by
/// side under their high keys.
pub proof fn lemma_reattach_two(
    bk: Seq<u64>,
    ck: Seq<Node>,
    ii: int,
    x: Node,
    y: Node,
    hx: u64,
    hy: u64,
)
    requires
        branch_form(bk, ck),
        0 <= ii < ck.len(),
        x.wf(),
        y.wf(),
        x.height() == ck[0].height(),
        y.height() == ck[0].height(),
        entries_sorted(x.entries() + y.entries()),
        hx == x.high_key(),
        hy == y.high_key(),
        forall|idx: int|
            0 <= idx < (x.entries() + y.entries()).len() && ii > 0 ==> (#[trigger] (x.entries()
                + y.entries())[idx]).0 > bk[ii - 1],
        forall|idx: int|
            0 <= idx < (x.entries() + y.entries()).len() && ii < ck.len() - 1 ==> (#[trigger] (
            x.entries() + y.entries())[idx]).0 <= bk[ii],
    ensures
        branch_form(
            bk.subrange(0, ii) + seq![hx, hy] + bk.subrange(ii + 1, bk.len() as int),
            ck.subrange(0, ii) + seq![x, y] + ck.subrange(ii + 1, ck.len() as int),
        ),
        Node::seq_entries(ck.subrange(0, ii) + seq![x, y] + ck.subrange(ii + 1, ck.len() as int))
            == Node::seq_entries(ck.subrange(0, ii)) + (x.entries() + y.entries())
            + Node::seq_entries(ck.subrange(ii + 1, ck.len() as int)),
        (ck.subrange(0, ii) + seq![x, y] + ck.subrange(ii + 1, ck.len() as int)).len() == ck.len()
            + 1,
        (ck.subrange(0, ii) + seq![x, y] + ck.subrange(ii + 1, ck.len() as int))[0].height() == ck[
        0].height(),
{
    lemma_wf_entries(x);
    lemma_wf_entries(y);
    let xe = x.entries();
    let ye = y.entries();
    let s_new = xe + ye;
    assert(y.low_key() > hx) by {
        assert(s_new[xe.len() - 1] == xe[xe.len() - 1]);
        assert(xe.last() == xe[xe.len() - 1]);
        assert(s_new[xe.len() as int] == ye[0]);
        assert(s_new[xe.len() - 1].0 < s_new[xe.len() as int].0);
    }
    assert(ii > 0 ==> x.low_key() > bk[ii - 1]) by {
        if ii > 0 {
            assert(xe[0] == s_new[0]);
        }
    }
    assert(ii < ck.len() - 1 ==> hy <= bk[ii]) by {
        if ii < ck.len() - 1 {
            assert(ye.last() == ye[ye.len() - 1]);
            assert(ye[ye.len() - 1] == s_new[s_new.len() - 1]);
            assert(s_new.last() == s_new[s_new.len() - 1]);
        }
    }
    lemma_branch_replace(bk, ck, ii, seq![hx, hy], seq![x, y]);
    lemma_seq_entries_concat(seq![x], seq![y]);
    lemma_seq_entries_singleton(x);
    lemma_seq_entries_singleton(y);
    assert(seq![x] + seq![y] =~= seq![x, y]);
}

/// After inserting `key` into child `ii`, every key of the updated
/// entry sequence stays strictly above the previous high key and at
/// most the recorded high key (when those neighbors exist).
proof fn lemma_new_keys_bracket(bk: Seq<u64>, ck: Seq<Node>, ii: int, key: u64, value: u64)
    requires
        branch_form(bk, ck),
        0 <= ii < ck.len(),
        forall|j: int| 0 <= j < ii ==> bk[j] < key,
        ii < ck.len() - 1 ==> bk[ii] >= key,
    ensures
        forall|idx: int|
            0 <= idx < seq_insert(ck[ii].entries(), key, value).len() && ii > 0 ==> (
            #[trigger] seq_insert(ck[ii].entries(), key, value)[idx]).0 > bk[ii - 1],
        forall|idx: int|
            0 <= idx < seq_insert(ck[ii].entries(), key, value).len() && ii < ck.len() - 1 ==> (
            #[trigger] seq_insert(ck[ii].entries(), key, value)[idx]).0 <= bk[ii],
{
    let ce = ck[ii].entries();
    let s_new = seq_insert(ce, key, value);
    lemma_wf_entries(ck[ii]);
    lemma_seq_insert(ce, key, value);
    assert forall|idx: int|
        0 <= idx < s_new.len() && ii > 0 implies (#[trigger] s_new[idx]).0 > bk[ii - 1] by {
        if s_new[idx].0 != key {
            let w = choose|w: int| 0 <= w < ce.len() && ce[w].0 == s_new[idx].0;
            assert(ce[w].0 >= ck[ii].low_key());
            assert(ck[ii].low_key() > bk[ii - 1]);
        }
    }
    assert forall|idx: int|
        0 <= idx < s_new.len() && ii < ck.len() - 1 implies (#[trigger] s_new[idx]).0 <= bk[
    ii] by {
        if s_new[idx].0 != key {
            let w = choose|w: int| 0 <= w < ce.len() && ce[w].0 == s_new[idx].0;
            assert(ce[w].0 <= ck[ii].high_key());
        }
    }
}

/// Reassembling a branch after a child shrank in place: the surviving
/// child slots back in under its new high key.
pub proof fn lemma_remove_done(bk: Seq<u64>, ck: Seq<Node>, ii: int, key: u64, m: Node, nh: u64)
    requires
        branch_form(bk, ck),
        0 <= ii < ck.len(),
        m.wf(),
        m.height() == ck[0].height(),
        m.entries() == seq_remove(ck[ii].entries(), key),
        nh == m.high_key(),
    ensures
        branch_form(
            bk.subrange(0, ii) + seq![nh] + bk.subrange(ii + 1, bk.len() as int),
            ck.subrange(0, ii) + seq![m] + ck.subrange(ii + 1, ck.len() as int),
        ),
        Node::seq_entries(ck.subrange(0, ii) + seq![m] + ck.subrange(ii + 1, ck.len() as int))
            == Node::seq_entries(ck.subrange(0, ii)) + m.entries() + Node::seq_entries(
            ck.subrange(ii + 1, ck.len() as int),
        ),
        (ck.subrange(0, ii) + seq![m] + ck.subrange(ii + 1, ck.len() as int)).len() == ck.len(),
        (ck.subrange(0, ii) + seq![m] + ck.subrange(ii + 1, ck.len() as int))[0].height() == ck[
        0].height(),
{
    let ce = ck[ii].entries();
    let s_new = seq_remove(ce, key);
    lemma_wf_entries(ck[ii]);
    lemma_seq_remove(ce, key);
    lemma_wf_entries(m);
    // every surviving key was one of the child's keys, so the old
    // bracket between the neighboring high keys still holds
    assert forall|idx: int|
        0 <= idx < s_new.len() && ii > 0 implies (#[trigger] s_new[idx]).0 > bk[ii - 1] by {
        let w = choose|w: int| 0 <= w < ce.len() && ce[w].0 == s_new[idx].0;
        assert(ce[w].0 >= ck[ii].low_key());
        assert(ck[ii].low_key() > bk[ii - 1]);
    }
    assert forall|idx: int|
        0 <= idx < s_new.len() && ii < ck.len() - 1 implies (#[trigger] s_new[idx]).0 <= bk[
    ii] by {
        let w = choose|w: int| 0 <= w < ce.len() && ce[w].0 == s_new[idx].0;
        assert(ce[w].0 <= ck[ii].high_key());
    }
    assert(ii > 0 ==> m.low_key() > bk[ii - 1]) by {
        if ii > 0 {
            assert(m.entries()[0].0 == m.low_key());
        }
    }
    assert(ii < ck.len() - 1 ==> nh <= bk[ii]) by {
        if ii < ck.len() - 1 {
            assert(m.entries().last() == m.entries()[m.entries().len() - 1]);
            assert(m.entries().last().0 == m.high_key());
        }
    }
    lemma_branch_replace(bk, ck, ii, seq![nh], seq![m]);
    lemma_seq_entries_singleton(m);
}

/// What a removal of `key` from a subtree of height `h` with entries `s`
/// must produce: the updated node, or nothing when the subtree emptied
/// out, plus the removed pair.
pub open spec fn remove_ensures(
    r: (Option<Node>, Option<(u64, u64)>),
    s: Seq<(u64, u64)>,
    h: nat,
    key: u64,
) -> bool {
    &&& match r.0 {
        Some(m) => {
            &&& m.wf()
            &&& m.height() == h
            &&& m.entries() == seq_remove(s, key)
        },
        None => seq_remove(s, key).len() == 0,
    }
    &&& r.1 == if has_key(s, key) {
        Some((key, value_of(s, key)))
    } else {
        None::<(u64, u64)>
    }
}

/// Two freshly split halves form a valid two-node sibling row under
/// their high keys.
pub proof fn lemma_pair_row(x: Node, y: Node, hx: u64, hy: u64)
    requires
        x.wf(),
        y.wf(),
        x.height() == y.height(),
        entries_sorted(x.entries() + y.entries()),
        hx == x.high_key(),
        hy == y.high_key(),
    ensures
        branch_form(seq![hx, hy], seq![x, y]),
        Node::seq_entries(seq![x, y]) == x.entries() + y.entries(),
{
    lemma_wf_entries(x);
    lemma_wf_entries(y);
    let xe = x.entries();
    let ye = y.entries();
    assert(y.low_key() > hx) by {
        assert((xe + ye)[xe.len() - 1] == xe[xe.len() - 1]);
        assert(xe.last() == xe[xe.len() - 1]);
        assert((xe + ye)[xe.len() as int] == ye[0]);
        assert((xe + ye)[xe.len() - 1].0 < (xe + ye)[xe.len() as int].0);
    }
    lemma_seq_entries_concat(seq![x], seq![y]);
    lemma_seq_entries_singleton(x);
    lemma_seq_entries_singleton(y);
    assert(seq![x] + seq![y] =~= seq![x, y]);
    let ks = seq![hx, hy];
    let cs = seq![x, y];
    assert(forall|i: int| 0 <= i < cs.len() ==> (#[trigger] cs[i]).wf());
    assert(forall|i: int| 0 <= i < cs.len() ==> (#[trigger] cs[i].height()) == cs[0].height());
    assert(forall|i: int| 0 <= i < cs.len() ==> ks[i] == (#[trigger] cs[i]).high_key());
    assert(forall|i: int| 0 < i < cs.len() ==> (#[trigger] cs[i]).low_key() > ks[i - 1]);
}

/// Collapse a root whose chain of single-child branches adds height
/// without content: replace it by its sole child until a leaf or a
/// branch with at least two children is reached.
pub fn trim_root(n: Node) -> (r: Node)
    requires
        n.wf(),
    ensures
        r.wf(),
        r.entries() == n.entries(),
        r is Branch ==> r->Branch_0.children@.len() >= 2,
{
    let mut cur = n;
    loop
        invariant
            cur.wf(),
            cur.entries() == n.entries(),
        decreases cur.height(),
    {
        match cur {
            Node::Branch(mut b) => {
                if b.children.len() == 1 {
                    let ghost ck = b.children@;
                    proof {
                        assert(ck =~= seq![ck[0]]);
                        lemma_seq_entries_singleton(ck[0]);
                        assert(Node::Branch(b).entries() == ck[0].entries());
                        assert(ck[0].height() < Node::Branch(b).height());
                    }
                    let only = b.children.pop().unwrap();
                    proof {
                        assert(only == ck[0]);
                    }
                    cur = only;
                } else {
                    return Node::Branch(b);
                }
            },
            Node::Leaf(l) => {
                return Node::Leaf(l);
            },
        }
    }
}

/// Swapping child `ii` of a valid sibling row for any node with the
/// same key profile (height, low key and high key all unchanged) keeps
/// the row valid under the same high keys and splices the new child's
/// entries in. Quantified over the replacement, this is the form needed
/// when a child is rebuilt through a mutable borrow.
pub proof fn lemma_value_update_replace(bk: Seq<u64>, ck: Seq<Node>, ii: int)
    requires
        branch_form(bk, ck),
        0 <= ii < ck.len(),
    ensures
        forall|m: Node|
            (m.wf() && m.height() == ck[ii].height() && m.high_key() == ck[ii].high_key()
                && m.low_key() == ck[ii].low_key()) ==> {
                &&& branch_form(bk, #[trigger] ck.update(ii, m))
                &&& Node::seq_entries(ck.update(ii, m)) == Node::seq_entries(
                    ck.subrange(0, ii),
                ) + m.entries() + Node::seq_entries(ck.subrange(ii + 1, ck.len() as int))
                &&& ck.update(ii, m)[0].height() == ck[0].height()
                &&& ck.update(ii, m)[0].low_key() == ck[0].low_key()
            },
{
    assert forall|m: Node|
        (m.wf() && m.height() == ck[ii].height() && m.high_key() == ck[ii].high_key()
            && m.low_key() == ck[ii].low_key()) implies {
            &&& branch_form(bk, #[trigger] ck.update(ii, m))
            &&& Node::seq_entries(ck.update(ii, m)) == Node::seq_entries(ck.subrange(0, ii))
                + m.entries() + Node::seq_entries(ck.subrange(ii + 1, ck.len() as int))
            &&& ck.update(ii, m)[0].height() == ck[0].height()
            &&& ck.update(ii, m)[0].low_key() == ck[0].low_key()
        } by {
        lemma_wf_entries(ck[ii]);
        lemma_wf_entries(m);
        assert(m.height() == ck[0].height());
        assert forall|idx: int|
            0 <= idx < m.entries().len() && ii > 0 implies (#[trigger] m.entries()[idx]).0 > bk[ii
            - 1] by {
            assert(m.entries()[idx].0 >= m.low_key());
            assert(ck[ii].low_key() > bk[ii - 1]);
        }
        assert forall|idx: int|
            0 <= idx < m.entries().len() && ii < ck.len() - 1 implies (#[trigger] m.entries()[
            idx]).0 <= bk[ii] by {
            assert(m.entries()[idx].0 <= m.high_key());
            assert(bk[ii] == ck[ii].high_key());
        }
        lemma_reattach_one(bk, ck, ii, m, m.high_key());
        assert(bk.subrange(0, ii) + seq![m.high_key()] + bk.subrange(ii + 1, bk.len() as int)
            =~= bk);
        assert(ck.subrange(0, ii) + seq![m] + ck.subrange(ii + 1, ck.len() as int) =~= ck.update(
            ii,
            m,
        ));
        if ii > 0 {
            assert(ck.update(ii, m)[0] == ck[0]);
        }
    }
}

/// A completely full subtree: every branch holds exactly
/// `BRANCH_FANOUT` children and every leaf exactly `LEAF_FANOUT`
/// entries.
pub open spec fn full_packed(n: Node) -> bool
    decreases n,
{
    match n {
        Node::Leaf(l) => l.keys@.len() == LEAF_FANOUT,
        Node::Branch(b) => b.children@.len() == BRANCH_FANOUT && forall|i: int|
            0 <= i < b.children@.len() ==> full_packed(#[trigger] b.children@[i]),
    }
}

/// A left-packed subtree, the shape a bulk load produces: every node
/// off the rightmost path is completely full, so only the rightmost
/// child at each level may be partial.
pub open spec fn left_packed(n: Node) -> bool
    decreases n,
{
    match n {
        Node::Leaf(_) => true,
        Node::Branch(b) => {
            &&& forall|i: int|
                0 <= i < b.children@.len() - 1 ==> full_packed(#[trigger] b.children@[i])
            &&& (b.children@.len() > 0 ==> left_packed(b.children@[b.children@.len() - 1]))
        },
    }
}

/// A completely full subtree is in particular left-packed.
pub proof fn lemma_full_is_left(n: Node)
    requires
        full_packed(n),
    ensures
        left_packed(n),
    decreases n,
{
    match n {
        Node::Leaf(_) => {},
        Node::Branch(b) => {
            lemma_full_is_left(b.children@[b.children@.len() - 1]);
        },
    }
}

/// A row of siblings as built during a bulk load, before their parents
/// exist: all well formed, of equal height, each node's keys strictly
/// above its left neighbor's high key.
pub open spec fn row_coherent(cs: Seq<Node>) -> bool {
    &&& forall|i: int| 0 <= i < cs.len() ==> (#[trigger] cs[i]).wf()
    &&& forall|i: int| 0 <= i < cs.len() ==> (#[trigger] cs[i].height()) == cs[0].height()
    &&& forall|i: int|
        0 < i < cs.len() ==> (#[trigger] cs[i]).low_key() > cs[i - 1].high_key()
}

/// Appending a node to a sibling row appends its entries.
pub proof fn lemma_seq_entries_push(cs: Seq<Node>, x: Node)
    ensures
        Node::seq_entries(cs.push(x)) == Node::seq_entries(cs) + x.entries(),
{
    assert(cs.push(x).drop_last() =~= cs);
    assert(cs.push(x).last() == x);
}

/// Fill leaves of `LEAF_FANOUT` entries (the last one possibly shorter)
/// from a sorted entry list: the first level of a bulk load.
#[verifier::rlimit(100)]
pub fn build_leaf_row(input: &Vec<(u64, u64)>) -> (r: Vec<Node>)
    requires
        entries_sorted(input@),
        input.len() >= 1,
    ensures
        row_coherent(r@),
        Node::seq_entries(r@) == input@,
        r@.len() >= 1,
        forall|j: int| 0 <= j < r@.len() ==> (#[trigger] r@[j]) is Leaf,
        forall|j: int| 0 <= j < r@.len() - 1 ==> full_packed(#[trigger] r@[j]),
        left_packed(r@[r@.len() - 1]),
{
    let mut nodes: Vec<Node> = Vec::new();
    let mut pos: usize = 0;
    while pos < input.len()
        invariant
            entries_sorted(input@),
            pos <= input.len(),
            row_coherent(nodes@),
            Node::seq_entries(nodes@) == input@.subrange(0, pos as int),
            pos > 0 ==> nodes@.len() >= 1 && nodes@.last().high_key() == input@[pos - 1].0,
            nodes@.len() >= 1 ==> nodes@[0].height() == 0,
            pos == 0 ==> nodes@.len() == 0,
            forall|j: int| 0 <= j < nodes@.len() ==> (#[trigger] nodes@[j]) is Leaf,
            pos < input.len() ==> forall|j: int|
                0 <= j < nodes@.len() ==> full_packed(#[trigger] nodes@[j]),
            forall|j: int| 0 <= j < nodes@.len() - 1 ==> full_packed(#[trigger] nodes@[j]),
        decreases input.len() - pos,
    {
        let end: usize = if input.len() - pos > LEAF_FANOUT {
            pos + LEAF_FANOUT
        } else {
            input.len()
        };
        let mut ks: Vec<u64> = Vec::new();
        let mut vs: Vec<u64> = Vec::new();
        let mut j: usize = pos;
        while j < end
            invariant
                pos <= j <= end <= input.len(),
                ks@.len() == j - pos,
                vs@.len() == j - pos,
                forall|m: int| 0 <= m < ks@.len() ==> ks@[m] == input@[pos + m].0,
                forall|m: int| 0 <= m < vs@.len() ==> vs@[m] == input@[pos + m].1,
            decreases end - j,
        {
            ks.push(input[j].0);
            vs.push(input[j].1);
            j += 1;
        }
        let leaf = Leaf { keys: ks, values: vs };
        let ghost node = Node::Leaf(leaf);
        proof {
            assert(leaf.entries() =~= input@.subrange(pos as int, end as int));
            assert(leaf.wf()) by {
                assert forall|a: int, c: int|
                    0 <= a < c < leaf.keys@.len() implies leaf.keys@[a] < leaf.keys@[c] by {
                    assert(input@[pos + a].0 < input@[pos + c].0);
                }
            }
            assert(node.high_key() == input@[end - 1].0) by {
                assert(leaf.keys@.last() == leaf.keys@[leaf.keys@.len() - 1]);
            }
            assert(node.low_key() == input@[pos as int].0);
            if pos > 0 {
                assert(input@[pos - 1].0 < input@[pos as int].0);
            }
            lemma_seq_entries_push(nodes@, node);
            assert(input@.subrange(0, pos as int) + input@.subrange(pos as int, end as int)
                =~= input@.subrange(0, end as int));
            // a chunk cut short of the fanout only happens at the end of
            // the input, so every leaf before the last is full
            if end < input.len() {
                assert(end - pos == LEAF_FANOUT);
                assert(full_packed(node));
            }
            assert(left_packed(node));
        }
        nodes.push(Node::Leaf(leaf));
        pos = end;
    }
    proof {
        assert(input@.subrange(0, input@.len() as int) =~= input@);
    }
    nodes
}

/// Appending one finished parent to the row of parents built so far
/// keeps that row coherent and extends its entries by the group the
/// parent covers.
proof fn lemma_level_extend(n0: Seq<Node>, consumed: int, c: int, out_row: Seq<Node>, parent: Branch)
    requires
        row_coherent(n0),
        0 <= consumed,
        consumed + c <= n0.len(),
        1 <= c <= BRANCH_FANOUT,
        parent.children@ == n0.subrange(consumed, consumed + c),
        parent.keys@.len() == c,
        forall|m: int|
            0 <= m < c ==> parent.keys@[m] == (#[trigger] n0.subrange(consumed, consumed + c)[
            m]).high_key(),
        row_coherent(out_row),
        Node::seq_entries(out_row) == Node::seq_entries(n0.subrange(0, consumed)),
        consumed > 0 ==> out_row.len() >= 1 && out_row.last().high_key() == n0[consumed
            - 1].high_key(),
        out_row.len() >= 1 ==> out_row[0].height() == 1 + n0[0].height(),
        consumed == 0 ==> out_row.len() == 0,
    ensures
        row_coherent(out_row.push(Node::Branch(parent))),
        Node::seq_entries(out_row.push(Node::Branch(parent))) == Node::seq_entries(
            n0.subrange(0, consumed + c),
        ),
        out_row.push(Node::Branch(parent)).last().high_key() == n0[consumed + c - 1].high_key(),
        out_row.push(Node::Branch(parent))[0].height() == 1 + n0[0].height(),
{
    let pnode = Node::Branch(parent);
    lemma_group_parent(n0, consumed, c, parent);
    lemma_seq_entries_push(out_row, pnode);
    lemma_seq_entries_split(n0.subrange(0, consumed + c), consumed);
    assert(n0.subrange(0, consumed + c).subrange(0, consumed) =~= n0.subrange(0, consumed));
    assert(n0.subrange(0, consumed + c).subrange(consumed, consumed + c) =~= n0.subrange(
        consumed,
        consumed + c,
    ));
    let row2 = out_row.push(pnode);
    assert(row2.last() == pnode);
    assert forall|i: int| 0 <= i < row2.len() implies (#[trigger] row2[i]).wf() by {
        if i < out_row.len() {
            assert(row2[i] == out_row[i]);
        }
    }
    assert forall|i: int|
        0 <= i < row2.len() implies (#[trigger] row2[i].height()) == row2[0].height() by {
        if i < out_row.len() {
            assert(row2[i] == out_row[i]);
        }
        if out_row.len() > 0 {
            assert(row2[0] == out_row[0]);
        }
    }
    assert forall|i: int|
        0 < i < row2.len() implies (#[trigger] row2[i]).low_key() > row2[i - 1].high_key() by {
        if i < out_row.len() {
            assert(row2[i] == out_row[i]);
            assert(row2[i - 1] == out_row[i - 1]);
        } else {
            assert(row2[i] == pnode);
            if out_row.len() > 0 {
                assert(row2[i - 1] == out_row[out_row.len() - 1]);
                assert(out_row.last() == out_row[out_row.len() - 1]);
                assert(pnode.low_key() == n0[consumed].low_key());
                assert(n0[consumed].low_key() > n0[consumed - 1].high_key());
            }
        }
    }
}

/// The packing half of a level step: a group cut short of the fanout
/// only happens at the end of the row, so every parent before the last
/// comes out completely full, and the last parent is left-packed
/// because only its rightmost child (the row's last node) may be
/// partial.
proof fn lemma_level_packing(n0: Seq<Node>, consumed: int, c: int, out_row: Seq<Node>, parent: Branch)
    requires
        0 <= consumed,
        consumed + c <= n0.len(),
        1 <= c <= BRANCH_FANOUT,
        parent.children@ == n0.subrange(consumed, consumed + c),
        forall|j: int| 0 <= j < n0.len() - 1 ==> full_packed(#[trigger] n0[j]),
        left_packed(n0[n0.len() - 1]),
        forall|j: int| 0 <= j < out_row.len() ==> full_packed(#[trigger] out_row[j]),
        consumed + c < n0.len() ==> c == BRANCH_FANOUT,
    ensures
        consumed + c < n0.len() ==> forall|j: int|
            0 <= j < out_row.push(Node::Branch(parent)).len() ==> full_packed(
                #[trigger] out_row.push(Node::Branch(parent))[j],
            ),
        forall|j: int|
            0 <= j < out_row.push(Node::Branch(parent)).len() - 1 ==> full_packed(
                #[trigger] out_row.push(Node::Branch(parent))[j],
            ),
        consumed + c == n0.len() ==> left_packed(
            out_row.push(Node::Branch(parent))[out_row.len() as int],
        ),
{
    let pnode = Node::Branch(parent);
    let row2 = out_row.push(pnode);
    if consumed + c < n0.len() {
        assert(full_packed(pnode)) by {
            assert(parent.children@.len() == BRANCH_FANOUT);
            assert forall|m: int|
                0 <= m < parent.children@.len() implies full_packed(
                #[trigger] parent.children@[m],
            ) by {
                assert(parent.children@[m] == n0[consumed + m]);
                assert(consumed + m < n0.len() - 1);
            }
        }
        assert forall|j: int| 0 <= j < row2.len() implies full_packed(#[trigger] row2[j]) by {
            if j < out_row.len() {
                assert(row2[j] == out_row[j]);
            } else {
                assert(row2[j] == pnode);
            }
        }
    } else {
        assert(left_packed(pnode)) by {
            assert forall|m: int|
                0 <= m < parent.children@.len() - 1 implies full_packed(
                #[trigger] parent.children@[m],
            ) by {
                assert(parent.children@[m] == n0[consumed + m]);
                assert(consumed + m < n0.len() - 1);
            }
            assert(parent.children@[parent.children@.len() - 1] == n0[n0.len() - 1]);
        }
        assert(row2[out_row.len() as int] == pnode);
    }
    assert forall|j: int| 0 <= j < row2.len() - 1 implies full_packed(#[trigger] row2[j]) by {
        assert(row2[j] == out_row[j]);
    }
}

/// One parent built over a contiguous group of a coherent row is a
/// well-formed branch carrying exactly the group's entries.
proof fn lemma_group_parent(n0: Seq<Node>, consumed: int, c: int, parent: Branch)
    requires
        row_coherent(n0),
        0 <= consumed,
        consumed + c <= n0.len(),
        1 <= c <= BRANCH_FANOUT,
        parent.children@ == n0.subrange(consumed, consumed + c),
        parent.keys@.len() == c,
        forall|m: int|
            0 <= m < c ==> parent.keys@[m] == (#[trigger] n0.subrange(consumed, consumed + c)[
            m]).high_key(),
    ensures
        Node::Branch(parent).wf(),
        Node::Branch(parent).entries() == Node::seq_entries(n0.subrange(consumed, consumed + c)),
        Node::Branch(parent).high_key() == n0[consumed + c - 1].high_key(),
        Node::Branch(parent).low_key() == n0[consumed].low_key(),
        Node::Branch(parent).height() == 1 + n0[0].height(),
        consumed > 0 ==> Node::Branch(parent).low_key() > n0[consumed - 1].high_key(),
{
    let group = n0.subrange(consumed, consumed + c);
    assert(branch_form(parent.keys@, parent.children@)) by {
        assert forall|m: int|
            0 <= m < group.len() implies (#[trigger] group[m]).wf() && group[m].height()
            == group[0].height() by {
            assert(group[m] == n0[consumed + m]);
            assert(group[0] == n0[consumed]);
        }
        assert forall|m: int|
            0 < m < group.len() implies (#[trigger] group[m]).low_key() > parent.keys@[m - 1] by {
            assert(group[m] == n0[consumed + m]);
            assert(group[m - 1] == n0[consumed + m - 1]);
            assert(n0[consumed + m].low_key() > n0[consumed + m - 1].high_key());
        }
    }
    assert(Node::Branch(parent).high_key() == group[c - 1].high_key()) by {
        assert(parent.keys@.last() == parent.keys@[c - 1]);
    }
    assert(Node::Branch(parent).height() == 1 + group[0].height()) by {
        assert(parent.children@[0] == group[0]);
    }
    assert(group[0] == n0[consumed]);
    assert(group[c - 1] == n0[consumed + c - 1]);
    assert(n0[consumed].height() == n0[0].height());
    if consumed > 0 {
        assert(n0[consumed].low_key() > n0[consumed - 1].high_key());
    }
}

/// Group a coherent row into parents of up to `BRANCH_FANOUT` children:
/// one level of a bulk load. A row longer than one fanout shrinks
/// strictly; a shorter one folds into a single node.
#[verifier::rlimit(100)]
pub fn build_level(nodes: Vec<Node>) -> (r: Vec<Node>)
    requires
        row_coherent(nodes@),
        nodes.len() >= 1,
        forall|j: int| 0 <= j < nodes@.len() - 1 ==> full_packed(#[trigger] nodes@[j]),
        left_packed(nodes@[nodes@.len() - 1]),
    ensures
        row_coherent(r@),
        Node::seq_entries(r@) == Node::seq_entries(nodes@),
        r@.len() >= 1,
        nodes@.len() <= BRANCH_FANOUT ==> r@.len() == 1,
        nodes@.len() > BRANCH_FANOUT ==> 2 <= r@.len() < nodes@.len(),
        forall|j: int| 0 <= j < r@.len() - 1 ==> full_packed(#[trigger] r@[j]),
        left_packed(r@[r@.len() - 1]),
        r@.len() == 1 ==> r@[0] is Branch && r@[0]->Branch_0.children@.len() == nodes@.len(),
    decreases nodes@.len(),
{
    let ghost n0 = nodes@;
    let mut nodes = nodes;
    let mut out: Vec<Node> = Vec::new();
    let ghost mut consumed: int = 0;
    while nodes.len() > 0
        invariant
            row_coherent(n0),
            forall|j: int| 0 <= j < n0.len() - 1 ==> full_packed(#[trigger] n0[j]),
            n0.len() >= 1,
            left_packed(n0[n0.len() - 1]),
            consumed == n0.len() - nodes@.len(),
            0 <= consumed <= n0.len(),
            nodes@ == n0.subrange(consumed, n0.len() as int),
            row_coherent(out@),
            Node::seq_entries(out@) == Node::seq_entries(n0.subrange(0, consumed)),
            consumed > 0 ==> out@.len() >= 1 && out@.last().high_key() == n0[consumed - 1].high_key(),
            out@.len() >= 1 ==> out@[0].height() == 1 + n0[0].height(),
            consumed == 0 ==> out@.len() == 0,
            nodes@.len() > 0 ==> consumed == out@.len() * BRANCH_FANOUT,
            consumed <= out@.len() * BRANCH_FANOUT,
            out@.len() >= 1 ==> consumed >= (out@.len() - 1) * BRANCH_FANOUT + 1,
            nodes@.len() > 0 ==> forall|j: int|
                0 <= j < out@.len() ==> full_packed(#[trigger] out@[j]),
            forall|j: int| 0 <= j < out@.len() - 1 ==> full_packed(#[trigger] out@[j]),
            consumed == n0.len() && out@.len() >= 1 ==> left_packed(out@[out@.len() - 1]),
            out@.len() == 1 ==> out@[0] is Branch && out@[0]->Branch_0.children@.len()
                == consumed,
        decreases nodes@.len(),
    {
        let c: usize = if nodes.len() > BRANCH_FANOUT {
            BRANCH_FANOUT
        } else {
            nodes.len()
        };
        let ghost group = n0.subrange(consumed, consumed + c);
        let mut ks: Vec<u64> = Vec::new();
        let mut cs: Vec<Node> = Vec::new();
        let mut j: usize = 0;
        while j < c
            invariant
                row_coherent(n0),
                0 <= consumed,
                consumed + c <= n0.len(),
                j <= c,
                group == n0.subrange(consumed, consumed + c),
                nodes@ == n0.subrange(consumed + j, n0.len() as int),
                cs@ == group.subrange(0, j as int),
                ks@.len() == j,
                forall|m: int| 0 <= m < j ==> ks@[m] == (#[trigger] group[m]).high_key(),
            decreases c - j,
        {
            proof {
                assert(nodes@[0] == n0[consumed + j]);
                assert(n0[consumed + j].wf());
            }
            let child = nodes.remove(0);
            let hk = child.highest();
            ks.push(hk);
            cs.push(child);
            proof {
                assert(cs@ =~= group.subrange(0, j + 1));
                assert(nodes@ =~= n0.subrange(consumed + j + 1, n0.len() as int));
            }
            j += 1;
        }
        let parent = Branch { keys: ks, children: cs };
        proof {
            assert(parent.children@ =~= group);
            lemma_level_extend(n0, consumed, c as int, out@, parent);
            lemma_level_packing(n0, consumed, c as int, out@, parent);
        }
        out.push(Node::Branch(parent));
        proof {
            consumed = consumed + c;
        }
    }
    proof {
        assert(n0.subrange(0, n0.len() as int) =~= n0);
        let oc = out@.len() as int;
        let nn = n0.len() as int;
        let bb = BRANCH_FANOUT as int;
        assert(consumed == nn);
        if nn > bb {
            assert(oc < nn) by (nonlinear_arith)
                requires
                    (oc - 1) * bb + 1 <= nn,
                    nn > bb,
                    bb >= 4,
                    oc >= 1,
            ;
            assert(oc >= 2) by (nonlinear_arith)
                requires
                    nn <= oc * bb,
                    nn > bb,
                    bb >= 4,
                    oc >= 1,
            ;
        } else {
            assert(oc == 1) by (nonlinear_arith)
                requires
                    (oc - 1) * bb + 1 <= nn,
                    nn <= oc * bb,
                    1 <= nn <= bb,
                    bb >= 4,
                    oc >= 1,
            ;
        }
    }
    out
}

impl Leaf {
    /// Leaf keys mirror the keys of the leaf's entries.
    proof fn lemma_entries(self)
        requires
            self.wf(),
        ensures
            entries_sorted(self.entries()),
            self.entries().len() == self.keys@.len(),
            forall|i: int|
                0 <= i < self.keys@.len() ==> (#[trigger] self.entries()[i]) == (self.keys@[i],
                self.values@[i]),
    {
    }

    /// Insert `(key, value)` into the leaf, replacing the value if the
    /// key is present and splitting the leaf into halves if it is full.
    #[verifier::rlimit(100)]
    #[verifier::spinoff_prover]
    fn insert(self, key: u64, value: u64) -> (r: InsertResult)
        requires
            self.wf(),
        ensures
            insert_ensures(r, self.entries(), 0, key, value),
    {
        let mut this = self;
        let ghost l0 = this;
        let ghost s = this.entries();
        proof {
            l0.lemma_entries();
        }
        let i_opt = find_key(&this.keys, key);
        let i: usize = match i_opt {
            Some(i) => i,
            None => this.keys.len(),
        };
        proof {
            assert(forall|j: int| 0 <= j < i ==> s[j].0 < key);
            assert(forall|j: int| i <= j < s.len() ==> (#[trigger] s[j]).0 >= key);
        }
        if i < this.keys.len() && this.keys[i] == key {
            let old_v = this.values[i];
            this.values[i] = value;
            proof {
                lemma_count_below_unique(s, key, i as int);
                assert(this.entries() =~= s.update(i as int, (key, value)));
            }
            InsertResult::Done(Node::Leaf(this), Some(old_v))
        } else {
            proof {
                assert forall|j: int| i <= j < s.len() implies (#[trigger] s[j]).0 > key by {
                    if j > i {
                        assert(s[i as int].0 < s[j].0);
                    }
                }
                assert(!has_key(s, key));
                lemma_count_below_is(s, key, i as int);
            }
            if this.keys.len() < LEAF_FANOUT {
                this.keys.insert(i, key);
                this.values.insert(i, value);
                proof {
                    assert(this.entries() =~= s.subrange(0, i as int) + seq![(key, value)]
                        + s.subrange(i as int, s.len() as int));
                    lemma_seq_insert(s, key, value);
                    this.lemma_wf_from_entries(seq_insert(s, key, value));
                }
                InsertResult::Done(Node::Leaf(this), None)
            } else {
                let half: usize = this.keys.len() / 2;
                let rk = this.keys.split_off(half);
                let rv = this.values.split_off(half);
                let mut right = Leaf { keys: rk, values: rv };
                let ghost le = this.entries();
                let ghost re = right.entries();
                proof {
                    assert(le =~= s.subrange(0, half as int));
                    assert(re =~= s.subrange(half as int, s.len() as int));
                    assert(Seq::<(u64, u64)>::empty() + le + re =~= s);
                    assert(le + re + Seq::<(u64, u64)>::empty() =~= s);
                }
                if i <= half {
                    proof {
                        assert forall|j: int| 0 <= j < re.len() implies re[j].0 > key by {
                            assert(re[j] == s[half + j]);
                        }
                        lemma_seq_insert_segment(
                            Seq::<(u64, u64)>::empty(),
                            le,
                            re,
                            key,
                            value,
                        );
                        assert(Seq::<(u64, u64)>::empty() + seq_insert(le, key, value) + re
                            =~= seq_insert(le, key, value) + re);
                        assert(forall|j: int| 0 <= j < i ==> le[j].0 < key);
                        assert(forall|j: int| i <= j < le.len() ==> (#[trigger] le[j]).0 >= key);
                        lemma_count_below_is(le, key, i as int);
                        assert(!has_key(le, key)) by {
                            assert forall|j: int| 0 <= j < le.len() implies (#[trigger] le[j]).0
                                != key by {
                                assert(le[j] == s[j]);
                            }
                        }
                    }
                    this.keys.insert(i, key);
                    this.values.insert(i, value);
                    proof {
                        assert(this.entries() =~= le.subrange(0, i as int) + seq![(key, value)]
                            + le.subrange(i as int, le.len() as int));
                        lemma_seq_insert(le, key, value);
                        this.lemma_wf_from_entries(seq_insert(le, key, value));
                        right.lemma_wf_from_entries(re);
                        assert(this.entries() + right.entries() == seq_insert(s, key, value));
                    }
                    InsertResult::Split(Node::Leaf(this), Node::Leaf(right), None)
                } else {
                    proof {
                        assert forall|j: int| 0 <= j < le.len() implies le[j].0 < key by {
                            assert(le[j] == s[j]);
                        }
                        lemma_seq_insert_segment(
                            le,
                            re,
                            Seq::<(u64, u64)>::empty(),
                            key,
                            value,
                        );
                        assert(le + seq_insert(re, key, value) + Seq::<(u64, u64)>::empty()
                            =~= le + seq_insert(re, key, value));
                        assert(forall|j: int| 0 <= j < i - half ==> (#[trigger] re[j]).0 < key);
                        assert forall|j: int| i - half <= j < re.len() implies (#[trigger] re[j]).0
                            >= key by {
                            assert(re[j] == s[half + j]);
                        }
                        lemma_count_below_is(re, key, i as int - half as int);
                        assert(!has_key(re, key)) by {
                            assert forall|j: int| 0 <= j < re.len() implies (#[trigger] re[j]).0
                                != key by {
                                assert(re[j] == s[half + j]);
                            }
                        }
                    }
                    right.keys.insert(i - half, key);
                    right.values.insert(i - half, value);
                    proof {
                        assert(right.entries() =~= re.subrange(0, i as int - half as int) + seq![
                            (key, value)] + re.subrange(i as int - half as int, re.len() as int));
                        lemma_seq_insert(re, key, value);
                        right.lemma_wf_from_entries(seq_insert(re, key, value));
                        this.lemma_wf_from_entries(le);
                        assert(this.entries() + right.entries() == seq_insert(s, key, value));
                    }
                    InsertResult::Split(Node::Leaf(this), Node::Leaf(right), None)
                }
            }
        }
    }

    /// Remove the entry keyed `key` from the leaf, if present. Returns
    /// the leaf (or nothing if it emptied out) and the removed pair.
    fn remove(self, key: u64) -> (r: (Option<Node>, Option<(u64, u64)>))
        requires
            self.wf(),
        ensures
            remove_ensures(r, self.entries(), 0, key),
    {
        let mut this = self;
        let ghost s = this.entries();
        proof {
            this.lemma_entries();
        }
        let i_opt = find_key(&this.keys, key);
        match i_opt {
            Some(i) if this.keys[i] == key => {
                let rk = this.keys.remove(i);
                let rv = this.values.remove(i);
                proof {
                    lemma_count_below_unique(s, key, i as int);
                    lemma_seq_remove(s, key);
                    assert(this.entries() =~= s.subrange(0, i as int) + s.subrange(
                        i as int + 1,
                        s.len() as int,
                    ));
                }
                if this.keys.len() == 0 {
                    (None, Some((rk, rv)))
                } else {
                    proof {
                        this.lemma_wf_from_entries(seq_remove(s, key));
                    }
                    (Some(Node::Leaf(this)), Some((rk, rv)))
                }
            },
            _ => {
                proof {
                    assert(!has_key(s, key)) by {
                        assert forall|j: int| 0 <= j < s.len() implies (#[trigger] s[j]).0
                            != key by {
                            assert(s[j].0 == this.keys@[j]);
                            match i_opt {
                                Some(i) => {
                                    if j < i {
                                        assert(this.keys@[j] < key);
                                    } else if j > i {
                                        assert(this.keys@[i as int] < this.keys@[j]);
                                        assert(this.keys@[i as int] >= key);
                                    }
                                },
                                None => {},
                            }
                        }
                    }
                }
                (Some(Node::Leaf(this)), None)
            },
        }
    }

    /// A leaf whose entries equal a sorted sequence of fitting length is
    /// well formed.
    proof fn lemma_wf_from_entries(self, s: Seq<(u64, u64)>)
        requires
            self.entries() == s,
            entries_sorted(s),
            1 <= self.keys@.len() <= LEAF_FANOUT,
            self.values@.len() == self.keys@.len(),
        ensures
            self.wf(),
    {
        assert forall|i: int, j: int|
            0 <= i < j < self.keys@.len() implies self.keys@[i] < self.keys@[j] by {
            assert(s[i] == (self.keys@[i], self.values@[i]));
            assert(s[j] == (self.keys@[j], self.values@[j]));
        }
    }
}

impl Node {
    /// The highest key present in the subtree.
    pub fn highest(&self) -> (r: u64)
        requires
            self.wf(),
        ensures
            r == self.high_key(),
    {
        match self {
            Node::Leaf(l) => l.keys[l.keys.len() - 1],
            Node::Branch(b) => b.keys[b.keys.len() - 1],
        }
    }

    /// Insert `(key, value)` into the subtree. A full leaf or branch on
    /// the insertion path splits into two halves, handed back to the
    /// caller level by level; only the root's caller ever sees a split
    /// escape the tree.
    pub fn insert(self, key: u64, value: u64, Ghost(h): Ghost<nat>) -> (r: InsertResult)
        requires
            self.wf(),
            self.height() == h,
        ensures
            insert_ensures(r, self.entries(), h, key, value),
        decreases h, 1int,
    {
        match self {
            Node::Leaf(l) => l.insert(key, value),
            Node::Branch(b) => Node::insert_branch(b, key, value, Ghost(h)),
        }
    }

    /// The branch case of `insert`: descend into the chosen child, then
    /// slot the updated child (or its two halves) back in, splitting
    /// this branch too if the extra child overflows it.
    #[verifier::rlimit(100)]
    #[verifier::spinoff_prover]
    fn insert_branch(b: Branch, key: u64, value: u64, Ghost(h): Ghost<nat>) -> (r: InsertResult)
        requires
            Node::Branch(b).wf(),
            Node::Branch(b).height() == h,
        ensures
            insert_ensures(r, Node::Branch(b).entries(), h, key, value),
        decreases h, 0int,
    {
        let ghost n0 = Node::Branch(b);
        match Node::Branch(b) {
            Node::Leaf(l) => l.insert(key, value),
            Node::Branch(mut b) => {
                let ghost bk = b.keys@;
                let ghost ck = b.children@;
                proof {
                    lemma_branch_keys_sorted(n0, b);
                }
                let len = b.keys.len();
                let i_opt = find_key(&b.keys, key);
                let i: usize = match i_opt {
                    Some(i) => i,
                    None => len - 1,
                };
                let ghost ii = i as int;
                let ghost pre_e = Node::seq_entries(ck.subrange(0, ii));
                let ghost ce = ck[ii].entries();
                let ghost suf_e = Node::seq_entries(ck.subrange(ii + 1, ck.len() as int));
                proof {
                    lemma_point_descend(n0, b, ii, key);
                    lemma_seq_insert_segment(pre_e, ce, suf_e, key, value);
                    assert(ck[ii].height() == ck[0].height());
                    assert(n0.height() == 1 + ck[0].height());
                }
                let _hk = b.keys.remove(i);
                let child = b.children.remove(i);
                proof {
                    assert(child == ck[ii]);
                    assert(child.height() == (h - 1) as nat);
                }
                let res = child.insert(key, value, Ghost((h - 1) as nat));
                let ghost s_new = seq_insert(ce, key, value);
                proof {
                    lemma_new_keys_bracket(bk, ck, ii, key, value);
                    lemma_seq_insert(ce, key, value);
                }
                match res {
                    InsertResult::Done(m, rep) => {
                        let nn = Node::reattach_one(b, i, m, Ghost(bk), Ghost(ck));
                        proof {
                            assert(nn.entries() == pre_e + s_new + suf_e);
                            assert(nn.height() == h);
                        }
                        InsertResult::Done(nn, rep)
                    },
                    InsertResult::Split(x, y, rep) => {
                        let pair = Node::reattach_two(b, i, x, y, Ghost(bk), Ghost(ck));
                        match pair {
                            (left, None) => {
                                proof {
                                    assert(left.entries() == pre_e + (x.entries() + y.entries())
                                        + suf_e);
                                    assert(left.entries() == pre_e + s_new + suf_e);
                                    assert(left.height() == h);
                                }
                                InsertResult::Done(left, rep)
                            },
                            (left, Some(rt)) => {
                                proof {
                                    assert(left.entries() + rt.entries() == pre_e + (x.entries()
                                        + y.entries()) + suf_e);
                                    assert(left.entries() + rt.entries() == pre_e + s_new + suf_e);
                                    assert(left.height() == h);
                                    assert(rt.height() == h);
                                }
                                InsertResult::Split(left, rt, rep)
                            },
                        }
                    },
                }
            },
        }
    }

    /// Put the rebuilt child `m` back at position `i` of a branch whose
    /// child `i` was taken out.
    #[verifier::rlimit(100)]
    #[verifier::spinoff_prover]
    fn reattach_one(
        b: Branch,
        i: usize,
        m: Node,
        Ghost(bk): Ghost<Seq<u64>>,
        Ghost(ck): Ghost<Seq<Node>>,
    ) -> (r: Node)
        requires
            branch_form(bk, ck),
            1 <= ck.len() <= BRANCH_FANOUT,
            i < ck.len(),
            b.keys@ == bk.remove(i as int),
            b.children@ == ck.remove(i as int),
            m.wf(),
            m.height() == ck[0].height(),
            forall|idx: int|
                0 <= idx < m.entries().len() && i > 0 ==> (#[trigger] m.entries()[idx]).0 > bk[i
                - 1],
            forall|idx: int|
                0 <= idx < m.entries().len() && i < ck.len() - 1 ==> (#[trigger] m.entries()[
                idx]).0 <= bk[i as int],
        ensures
            r.wf(),
            r.height() == 1 + ck[0].height(),
            r.entries() == Node::seq_entries(ck.subrange(0, i as int)) + m.entries()
                + Node::seq_entries(ck.subrange(i as int + 1, ck.len() as int)),
    {
        let mut b = b;
        let nh = m.highest();
        b.keys.insert(i, nh);
        b.children.insert(i, m);
        proof {
            lemma_reattach_one(bk, ck, i as int, m, nh);
            assert(b.keys@ =~= bk.subrange(0, i as int) + seq![nh] + bk.subrange(
                i as int + 1,
                bk.len() as int,
            ));
            assert(b.children@ =~= ck.subrange(0, i as int) + seq![m] + ck.subrange(
                i as int + 1,
                ck.len() as int,
            ));
            assert(Node::Branch(b).wf());
        }
        Node::Branch(b)
    }

    /// Put the two halves of a split child back at position `i` of a
    /// branch whose child `i` was taken out, splitting the branch too
    /// if the extra node overflows it.
    #[verifier::rlimit(100)]
    #[verifier::spinoff_prover]
    fn reattach_two(
        b: Branch,
        i: usize,
        x: Node,
        y: Node,
        Ghost(bk): Ghost<Seq<u64>>,
        Ghost(ck): Ghost<Seq<Node>>,
    ) -> (r: (Node, Option<Node>))
        requires
            branch_form(bk, ck),
            1 <= ck.len() <= BRANCH_FANOUT,
            i < ck.len(),
            b.keys@ == bk.remove(i as int),
            b.children@ == ck.remove(i as int),
            x.wf(),
            y.wf(),
            x.height() == ck[0].height(),
            y.height() == ck[0].height(),
            entries_sorted(x.entries() + y.entries()),
            forall|idx: int|
                0 <= idx < (x.entries() + y.entries()).len() && i > 0 ==> (#[trigger] (x.entries()
                    + y.entries())[idx]).0 > bk[i - 1],
            forall|idx: int|
                0 <= idx < (x.entries() + y.entries()).len() && i < ck.len() - 1 ==> (#[trigger] (
                x.entries() + y.entries())[idx]).0 <= bk[i as int],
        ensures
            r.0.wf(),
            r.0.height() == 1 + ck[0].height(),
            match r.1 {
                None => r.0.entries() == Node::seq_entries(ck.subrange(0, i as int)) + (x.entries()
                    + y.entries()) + Node::seq_entries(ck.subrange(i as int + 1, ck.len() as int)),
                Some(z) => z.wf() && z.height() == 1 + ck[0].height() && r.0.entries()
                    + z.entries() == Node::seq_entries(ck.subrange(0, i as int)) + (x.entries()
                    + y.entries()) + Node::seq_entries(ck.subrange(i as int + 1, ck.len() as int)),
            },
    {
        let mut b = b;
        let ghost ii = i as int;
        let hx = x.highest();
        let hy = y.highest();
        b.keys.insert(i, hy);
        b.children.insert(i, y);
        b.keys.insert(i, hx);
        b.children.insert(i, x);
        proof {
            lemma_reattach_two(bk, ck, ii, x, y, hx, hy);
            assert(b.keys@ =~= bk.subrange(0, ii) + seq![hx, hy] + bk.subrange(
                ii + 1,
                bk.len() as int,
            ));
            assert(b.children@ =~= ck.subrange(0, ii) + seq![x, y] + ck.subrange(
                ii + 1,
                ck.len() as int,
            ));
            assert(branch_form(b.keys@, b.children@));
            assert(b.children@[0].height() == ck[0].height());
        }
        if b.children.len() <= BRANCH_FANOUT {
            proof {
                assert(Node::Branch(b).wf());
            }
            (Node::Branch(b), None)
        } else {
            let half: usize = b.children.len() / 2;
            let ghost ks2 = b.keys@;
            let ghost cs2 = b.children@;
            let rk = b.keys.split_off(half);
            let rc = b.children.split_off(half);
            let right = Branch { keys: rk, children: rc };
            proof {
                lemma_branch_form_subrange(ks2, cs2, 0, half as int);
                lemma_branch_form_subrange(ks2, cs2, half as int, cs2.len() as int);
                lemma_seq_entries_split(cs2, half as int);
                assert(Node::Branch(b).wf());
                assert(Node::Branch(right).wf());
                assert(b.children@[0] == cs2[0]);
                assert(right.children@[0] == cs2[half as int]);
                assert(cs2[half as int].height() == cs2[0].height());
            }
            (Node::Branch(b), Some(Node::Branch(right)))
        }
    }

    /// Remove the entry keyed `key` from the subtree, if present.
    /// Emptied nodes are excised on the way back up; nothing is
    /// rebalanced, so surviving nodes may stay sparse.
    #[verifier::rlimit(100)]
    pub fn remove(self, key: u64, Ghost(h): Ghost<nat>) -> (r: (
        Option<Node>,
        Option<(u64, u64)>,
    ))
        requires
            self.wf(),
            self.height() == h,
        ensures
            remove_ensures(r, self.entries(), h, key),
        decreases h,
    {
        let ghost n0 = self;
        match self {
            Node::Leaf(l) => l.remove(key),
            Node::Branch(mut b) => {
                let ghost bk = b.keys@;
                let ghost ck = b.children@;
                proof {
                    lemma_branch_keys_sorted(n0, b);
                }
                let i_opt = find_key(&b.keys, key);
                let i: usize = match i_opt {
                    Some(i) => i,
                    None => 0,
                };
                if i_opt.is_none() {
                    proof {
                        lemma_wf_entries(n0);
                        assert(!has_key(n0.entries(), key)) by {
                            assert forall|j: int|
                                0 <= j < n0.entries().len() implies (#[trigger] n0.entries()[j]).0
                                != key by {
                                assert(n0.entries()[j].0 <= n0.high_key());
                                assert(n0.high_key() == bk[bk.len() - 1]);
                                assert(bk.last() < key);
                            }
                        }
                    }
                    return (Some(Node::Branch(b)), None);
                }
                let ghost ii = i as int;
                let ghost pre_e = Node::seq_entries(ck.subrange(0, ii));
                let ghost ce = ck[ii].entries();
                let ghost suf_e = Node::seq_entries(ck.subrange(ii + 1, ck.len() as int));
                proof {
                    lemma_point_descend(n0, b, ii, key);
                    lemma_seq_remove_segment(pre_e, ce, suf_e, key);
                    assert(ck[ii].height() == ck[0].height());
                    assert(n0.height() == 1 + ck[0].height());
                }
                let _hk = b.keys.remove(i);
                let child = b.children.remove(i);
                proof {
                    assert(child == ck[ii]);
                    assert(child.height() == (h - 1) as nat);
                }
                let (sub, removed) = child.remove(key, Ghost((h - 1) as nat));
                let ghost s_new = seq_remove(ce, key);
                match sub {
                    Some(m) => {
                        let nh = m.highest();
                        b.keys.insert(i, nh);
                        b.children.insert(i, m);
                        proof {
                            lemma_remove_done(bk, ck, ii, key, m, nh);
                            assert(b.keys@ =~= bk.subrange(0, ii) + seq![nh] + bk.subrange(
                                ii + 1,
                                bk.len() as int,
                            ));
                            assert(b.children@ =~= ck.subrange(0, ii) + seq![m] + ck.subrange(
                                ii + 1,
                                ck.len() as int,
                            ));
                            assert(Node::Branch(b).wf());
                            assert(Node::Branch(b).height() == h);
                            assert(Node::Branch(b).entries() == pre_e + s_new + suf_e);
                        }
                        (Some(Node::Branch(b)), removed)
                    },
                    None => {
                        proof {
                            lemma_branch_replace(bk, ck, ii, Seq::empty(), Seq::empty());
                            assert(b.keys@ =~= bk.subrange(0, ii) + Seq::<u64>::empty()
                                + bk.subrange(ii + 1, bk.len() as int));
                            assert(b.children@ =~= ck.subrange(0, ii) + Seq::<Node>::empty()
                                + ck.subrange(ii + 1, ck.len() as int));
                            assert(Node::seq_entries(Seq::<Node>::empty()) == Seq::<(
                                u64,
                                u64,
                            )>::empty());
                            assert(s_new.len() == 0);
                            assert(pre_e + s_new + suf_e =~= pre_e + Seq::<(u64, u64)>::empty()
                                + suf_e);
                            assert(Node::seq_entries(b.children@) == pre_e + Seq::<(
                                u64,
                                u64,
                            )>::empty() + suf_e);
                            assert(seq_remove(n0.entries(), key) == pre_e + s_new + suf_e);
                        }
                        if b.children.len() == 0 {
                            proof {
                                assert(seq_remove(n0.entries(), key).len() == 0);
                            }
                            (None, removed)
                        } else {
                            proof {
                                assert(Node::Branch(b).wf());
                                assert(Node::Branch(b).height() == h);
                                assert(Node::Branch(b).entries() == seq_remove(
                                    n0.entries(),
                                    key,
                                ));
                            }
                            (Some(Node::Branch(b)), removed)
                        }
                    },
                }
            },
        }
    }

    /// Append the subtree's entries, in key order, to `out`.
    pub fn collect_into(&self, out: &mut Vec<(u64, u64)>, Ghost(h): Ghost<nat>)
        requires
            self.wf(),
            self.height() == h,
        ensures
            final(out)@ == old(out)@ + self.entries(),
        decreases h,
    {
        match self {
            Node::Leaf(l) => {
                let mut j: usize = 0;
                while j < l.keys.len()
                    invariant
                        self.wf(),
                        *self == Node::Leaf(*l),
                        j <= l.keys.len(),
                        out@ == old(out)@ + self.entries().subrange(0, j as int),
                    decreases l.keys.len() - j,
                {
                    let ghost before = out@;
                    out.push((l.keys[j], l.values[j]));
                    proof {
                        assert(self.entries().subrange(0, j + 1) =~= self.entries().subrange(
                            0,
                            j as int,
                        ).push((l.keys@[j as int], l.values@[j as int])));
                        assert(out@ =~= old(out)@ + self.entries().subrange(0, j + 1));
                    }
                    j += 1;
                }
                proof {
                    assert(self.entries().subrange(0, l.keys@.len() as int) =~= self.entries());
                }
            },
            Node::Branch(b) => {
                let mut j: usize = 0;
                while j < b.children.len()
                    invariant
                        self.wf(),
                        *self == Node::Branch(*b),
                        self.height() == h,
                        j <= b.children.len(),
                        out@ == old(out)@ + Node::seq_entries(b.children@.subrange(0, j as int)),
                    decreases b.children.len() - j,
                {
                    proof {
                        assert(b.children@.subrange(0, 0) =~= Seq::<Node>::empty());
                        assert(b.children@[j as int].wf());
                        assert(b.children@[j as int].height() == b.children@[0].height());
                        assert(self.height() == 1 + b.children@[0].height());
                    }
                    let child = &b.children[j];
                    child.collect_into(out, Ghost((h - 1) as nat));
                    proof {
                        assert(b.children@.subrange(0, j + 1).drop_last() =~= b.children@.subrange(
                            0,
                            j as int,
                        ));
                        assert(b.children@.subrange(0, j + 1).last() == b.children@[j as int]);
                        assert(out@ =~= old(out)@ + Node::seq_entries(
                            b.children@.subrange(0, j + 1),
                        ));
                    }
                    j += 1;
                }
                proof {
                    assert(b.children@.subrange(0, b.children@.len() as int) =~= b.children@);
                }
            },
        }
    }

    /// Borrow the value stored under `key` mutably. While the borrow
    /// lives, the caller may overwrite the value; the subtree afterwards
    /// holds whatever was written, under an unchanged key structure.
    #[verifier::rlimit(100)]
    #[verifier::spinoff_prover]
    pub fn get_mut(&mut self, key: u64, Ghost(h): Ghost<nat>) -> (r: Option<&mut u64>)
        requires
            old(self).wf(),
            old(self).height() == h,
        ensures
            match r {
                None => {
                    &&& !has_key(old(self).entries(), key)
                    &&& final(self).wf()
                    &&& final(self).height() == h
                    &&& final(self).entries() == old(self).entries()
                    &&& final(self).high_key() == old(self).high_key()
                    &&& final(self).low_key() == old(self).low_key()
                },
                Some(p) => {
                    &&& has_key(old(self).entries(), key)
                    &&& *p == value_of(old(self).entries(), key)
                    &&& final(self).wf()
                    &&& final(self).height() == h
                    &&& final(self).entries() == seq_insert(old(self).entries(), key, *final(p))
                    &&& final(self).high_key() == old(self).high_key()
                    &&& final(self).low_key() == old(self).low_key()
                },
            },
        decreases h,
    {
        match self {
            Node::Leaf(l) => {
                let ghost l0 = *l;
                let ghost s = l0.entries();
                proof {
                    l0.lemma_entries();
                }
                match find_key(&l.keys, key) {
                    Some(i) => {
                        if l.keys[i] == key {
                            proof {
                                lemma_count_below_unique(s, key, i as int);
                                assert forall|l2: Leaf|
                                    (l2.keys@ == l0.keys@ && l2.values@.len() == l0.values@.len()
                                        && (exists|v: u64|
                                        l2.values@ == l0.values@.update(i as int, v))) implies ((
                                #[trigger] l2.entries()) == seq_insert(s, key, l2.values@[i as int])
                                    && l2.wf()) by {
                                    let v = choose|v: u64|
                                        l2.values@ == l0.values@.update(i as int, v);
                                    assert(l2.values@[i as int] == v);
                                    assert(l2.entries() =~= s.update(i as int, (key, v)));
                                    assert(seq_insert(s, key, v) == s.update(i as int, (key, v)));
                                }
                            }
                            Some(&mut l.values[i])
                        } else {
                            proof {
                                assert(!has_key(s, key)) by {
                                    assert forall|j: int|
                                        0 <= j < s.len() implies (#[trigger] s[j]).0 != key by {
                                        assert(s[j].0 == l0.keys@[j]);
                                        if j < i {
                                            assert(l0.keys@[j] < key);
                                        } else if j > i {
                                            assert(l0.keys@[i as int] < l0.keys@[j]);
                                        }
                                    }
                                }
                            }
                            None
                        }
                    },
                    None => {
                        proof {
                            assert(!has_key(s, key)) by {
                                assert forall|j: int|
                                    0 <= j < s.len() implies (#[trigger] s[j]).0 != key by {
                                    assert(s[j].0 == l0.keys@[j]);
                                }
                            }
                        }
                        None
                    },
                }
            },
            Node::Branch(b) => {
                let ghost bval = *b;
                let ghost n0 = Node::Branch(bval);
                let ghost bk = bval.keys@;
                let ghost ck = bval.children@;
                proof {
                    lemma_branch_keys_sorted(n0, bval);
                }
                match find_key(&b.keys, key) {
                    None => {
                        proof {
                            lemma_wf_entries(n0);
                            assert(!has_key(n0.entries(), key)) by {
                                assert forall|j: int|
                                    0 <= j < n0.entries().len() implies (
                                #[trigger] n0.entries()[j]).0 != key by {
                                    assert(n0.entries()[j].0 <= n0.high_key());
                                    assert(n0.high_key() == bk[bk.len() - 1]);
                                    assert(bk.last() < key);
                                }
                            }
                        }
                        None
                    },
                    Some(i) => {
                        let ghost ii = i as int;
                        let ghost pre_e = Node::seq_entries(ck.subrange(0, ii));
                        let ghost ce = ck[ii].entries();
                        let ghost suf_e = Node::seq_entries(ck.subrange(ii + 1, ck.len() as int));
                        proof {
                            lemma_point_descend(n0, bval, ii, key);
                            lemma_seq_insert_segment_all(pre_e, ce, suf_e, key);
                            lemma_value_update_replace(bk, ck, ii);
                            assert(ck[ii].height() == ck[0].height());
                            assert(n0.height() == 1 + ck[0].height());
                        }
                        let child = &mut b.children[i];
                        child.get_mut(key, Ghost((h - 1) as nat))
                    },
                }
            },
        }
    }

    /// The lowest key present in the subtree.
    pub fn lowest(&self) -> (r: u64)
        requires
            self.wf(),
        ensures
            self.entries().len() >= 1 && r == self.entries()[0].0,
    {
        let mut cur: &Node = self;
        proof {
            lemma_wf_entries(*self);
        }
        loop
            invariant
                cur.wf(),
                self.wf(),
                self.entries().len() >= 1,
                cur.entries()[0] == self.entries()[0],
                cur.entries().len() >= 1,
            decreases cur.height(),
        {
            match cur {
                Node::Branch(b) => {
                    proof {
                        lemma_branch_segments(*cur, *b, 0);
                        lemma_wf_entries(b.children@[0]);
                        assert(cur.entries()[0] == b.children@[0].entries()[0]) by {
                            assert(Node::seq_entries(b.children@.subrange(0, 0)) == Seq::<(
                                u64,
                                u64,
                            )>::empty()) by {
                                assert(b.children@.subrange(0, 0) =~= Seq::<Node>::empty());
                            }
                        }
                        assert(b.children@[0].height() < cur.height());
                    }
                    cur = &b.children[0];
                },
                Node::Leaf(l) => {
                    proof {
                        assert(cur.entries()[0] == (l.keys@[0], l.values@[0]));
                    }
                    return l.keys[0];
                },
            }
        }
    }

    /// Binary-search descent: look up the value stored under `key`.
    pub fn get(&self, key: u64) -> (r: Option<u64>)
        requires
            self.wf(),
        ensures
            r == if has_key(self.entries(), key) {
                Some(value_of(self.entries(), key))
            } else {
                None::<u64>
            },
    {
        let mut cur: &Node = self;
        proof {
            lemma_wf_entries(*self);
        }
        loop
            invariant
                cur.wf(),
                self.wf(),
                entries_sorted(cur.entries()),
                has_key(self.entries(), key) == has_key(cur.entries(), key),
                has_key(cur.entries(), key) ==> value_of(self.entries(), key) == value_of(
                    cur.entries(),
                    key,
                ),
            decreases cur.height(),
        {
            match cur {
                Node::Branch(b) => {
                    proof {
                        lemma_branch_keys_sorted(*cur, *b);
                    }
                    match find_key(&b.keys, key) {
                        Some(i) => {
                            proof {
                                lemma_branch_segments(*cur, *b, i as int);
                                let pre = Node::seq_entries(b.children@.subrange(0, i as int));
                                let suf = Node::seq_entries(
                                    b.children@.subrange(i + 1, b.children@.len() as int),
                                );
                                let ce = b.children@[i as int].entries();
                                assert(forall|j: int| 0 <= j < pre.len() ==> pre[j].0 < key);
                                assert(forall|j: int| 0 <= j < suf.len() ==> suf[j].0 > key);
                                lemma_lookup_in_segment(pre, ce, suf, key);
                                assert(b.children@[i as int].wf());
                                assert(b.children@[i as int].height() < cur.height()) by {
                                    assert(b.children@[i as int].height() == b.children@[
                                    0].height());
                                }
                            }
                            cur = &b.children[i];
                        },
                        None => {
                            proof {
                                lemma_wf_entries(*cur);
                                assert(!has_key(cur.entries(), key)) by {
                                    assert forall|j: int|
                                        0 <= j < cur.entries().len() implies (
                                    #[trigger] cur.entries()[j]).0 != key by {
                                        assert(cur.entries()[j].0 <= cur.high_key());
                                        assert(cur.high_key() == b.keys@[b.keys@.len() - 1]);
                                        assert(b.keys@.last() < key);
                                    }
                                }
                            }
                            return None;
                        },
                    }
                },
                Node::Leaf(l) => {
                    match find_key(&l.keys, key) {
                        Some(i) => {
                            if l.keys[i] == key {
                                proof {
                                    assert(cur.entries()[i as int] == (l.keys@[i as int], l.values@[
                                    i as int]));
                                    lemma_count_below_unique(cur.entries(), key, i as int);
                                }
                                return Some(l.values[i]);
                            } else {
                                proof {
                                    assert(!has_key(cur.entries(), key)) by {
                                        assert forall|j: int|
                                            0 <= j < cur.entries().len() implies (
                                        #[trigger] cur.entries()[j]).0 != key by {
                                            assert(cur.entries()[j].0 == l.keys@[j]);
                                            if j < i {
                                                assert(l.keys@[j] < key);
                                            } else if j > i {
                                                assert(l.keys@[i as int] < l.keys@[j]);
                                            }
                                        }
                                    }
                                }
                                return None;
                            }
                        },
                        None => {
                            proof {
                                assert(!has_key(cur.entries(), key)) by {
                                    assert forall|j: int|
                                        0 <= j < cur.entries().len() implies (
                                    #[trigger] cur.entries()[j]).0 != key by {
                                        assert(cur.entries()[j].0 == l.keys@[j]);
                                    }
                                }
                            }
                            return None;
                        },
                    }
                },
            }
        }
    }

    /// Linear-scan descent: the same lookup as `get`, driven by the
    /// linear search primitive; kept for comparison benchmarks.
    pub fn get_linear(&self, key: u64) -> (r: Option<u64>)
        requires
            self.wf(),
        ensures
            r == if has_key(self.entries(), key) {
                Some(value_of(self.entries(), key))
            } else {
                None::<u64>
            },
    {
        let mut cur: &Node = self;
        proof {
            lemma_wf_entries(*self);
        }
        loop
            invariant
                cur.wf(),
                self.wf(),
                entries_sorted(cur.entries()),
                has_key(self.entries(), key) == has_key(cur.entries(), key),
                has_key(cur.entries(), key) ==> value_of(self.entries(), key) == value_of(
                    cur.entries(),
                    key,
                ),
            decreases cur.height(),
        {
            match cur {
                Node::Branch(b) => {
                    proof {
                        lemma_branch_keys_sorted(*cur, *b);
                    }
                    match find_key_linear(&b.keys, key) {
                        Some(i) => {
                            proof {
                                lemma_branch_segments(*cur, *b, i as int);
                                let pre = Node::seq_entries(b.children@.subrange(0, i as int));
                                let suf = Node::seq_entries(
                                    b.children@.subrange(i + 1, b.children@.len() as int),
                                );
                                let ce = b.children@[i as int].entries();
                                assert(forall|j: int| 0 <= j < pre.len() ==> pre[j].0 < key);
                                assert(forall|j: int| 0 <= j < suf.len() ==> suf[j].0 > key);
                                lemma_lookup_in_segment(pre, ce, suf, key);
                                assert(b.children@[i as int].wf());
                                assert(b.children@[i as int].height() < cur.height()) by {
                                    assert(b.children@[i as int].height() == b.children@[
                                    0].height());
                                }
                            }
                            cur = &b.children[i];
                        },
                        None => {
                            proof {
                                lemma_wf_entries(*cur);
                                assert(!has_key(cur.entries(), key)) by {
                                    assert forall|j: int|
                                        0 <= j < cur.entries().len() implies (
                                    #[trigger] cur.entries()[j]).0 != key by {
                                        assert(cur.entries()[j].0 <= cur.high_key());
                                        assert(cur.high_key() == b.keys@[b.keys@.len() - 1]);
                                        assert(b.keys@.last() < key);
                                    }
                                }
                            }
                            return None;
                        },
                    }
                },
                Node::Leaf(l) => {
                    match find_key_linear(&l.keys, key) {
                        Some(i) => {
                            if l.keys[i] == key {
                                proof {
                                    assert(cur.entries()[i as int] == (l.keys@[i as int], l.values@[
                                    i as int]));
                                    lemma_count_below_unique(cur.entries(), key, i as int);
                                }
                                return Some(l.values[i]);
                            } else {
                                proof {
                                    assert(!has_key(cur.entries(), key)) by {
                                        assert forall|j: int|
                                            0 <= j < cur.entries().len() implies (
                                        #[trigger] cur.entries()[j]).0 != key by {
                                            assert(cur.entries()[j].0 == l.keys@[j]);
                                            if j < i {
                                                assert(l.keys@[j] < key);
                                            } else if j > i {
                                                assert(l.keys@[i as int] < l.keys@[j]);
                                            }
                                        }
                                    }
                                }
                                return None;
                            }
                        },
                        None => {
                            proof {
                                assert(!has_key(cur.entries(), key)) by {
                                    assert forall|j: int|
                                        0 <= j < cur.entries().len() implies (
                                    #[trigger] cur.entries()[j]).0 != key by {
                                        assert(cur.entries()[j].0 == l.keys@[j]);
                                    }
                                }
                            }
                            return None;
                        },
                    }
                },
            }
        }
    }
}

} // verus!
