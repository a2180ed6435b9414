//! The laws this library promises, stated once and proved here against
//! the same specification functions its contracts use: structural
//! invariants of well-formed nodes (exact high keys, uniform leaf
//! depth, fanout bounds, no duplicate keys) and the algebra of the
//! point operations (insert/remove round trips, replacement, lookup
//! consistency, and the empty-window range cases).

use vstd::prelude::*;

use crate::config::{BRANCH_FANOUT, LEAF_FANOUT};
use crate::iter::{RangeBound, range_entries};
use crate::model::{
    entries_sorted, has_key, value_of, seq_insert, seq_remove, count_below, lemma_seq_insert,
    lemma_seq_remove, lemma_count_below_split, lemma_count_below_unique, lemma_count_below_is,
};
use crate::node::{Node, Branch, lemma_wf_entries};

verus! {

/// High keys are exact: in every well-formed branch, the recorded key
/// at position `i` is the last (hence greatest) key of the subtree
/// rooted at child `i`, and no key in that subtree exceeds it. Since
/// well-formedness is hereditary, this holds of every branch of a tree.
pub proof fn law_high_key(b: Branch)
    requires
        Node::Branch(b).wf(),
    ensures
        forall|i: int|
            0 <= i < b.children@.len() ==> b.keys@[i] == (
            #[trigger] b.children@[i]).entries().last().0,
        forall|i: int, j: int|
            0 <= i < b.children@.len() && 0 <= j < b.children@[i].entries().len() ==> (
            #[trigger] b.children@[i].entries()[j]).0 <= b.keys@[i],
        forall|i: int|
            0 <= i < b.children@.len() ==> b.keys@[i] == (#[trigger] b.children@[i]).high_key(),
{
    assert forall|i: int|
        0 <= i < b.children@.len() implies b.keys@[i] == (
    #[trigger] b.children@[i]).entries().last().0 by {
        lemma_wf_entries(b.children@[i]);
    }
    assert forall|i: int, j: int|
        0 <= i < b.children@.len() && 0 <= j < b.children@[i].entries().len() implies (
    #[trigger] b.children@[i].entries()[j]).0 <= b.keys@[i] by {
        lemma_wf_entries(b.children@[i]);
        assert(b.children@[i].entries().last() == b.children@[i].entries()[b.children@[
        i].entries().len() - 1]);
        if j < b.children@[i].entries().len() - 1 {
            assert(b.children@[i].entries()[j].0 < b.children@[i].entries()[b.children@[
            i].entries().len() - 1].0);
        }
    }
}

/// Every leaf of a subtree sits exactly `d` levels below it.
pub open spec fn leaves_at_depth(n: Node, d: int) -> bool
    decreases n,
{
    match n {
        Node::Leaf(_) => d == 0,
        Node::Branch(b) => d >= 1 && forall|i: int|
            0 <= i < b.children@.len() ==> leaves_at_depth(#[trigger] b.children@[i], d - 1),
    }
}

/// Balance: in a well-formed tree every leaf has the same depth from
/// the root, namely the tree's height.
pub proof fn law_balance(n: Node)
    requires
        n.wf(),
    ensures
        leaves_at_depth(n, n.height() as int),
    decreases n,
{
    match n {
        Node::Leaf(_) => {},
        Node::Branch(b) => {
            assert forall|i: int|
                0 <= i < b.children@.len() implies leaves_at_depth(
                #[trigger] b.children@[i],
                n.height() as int - 1,
            ) by {
                assert(b.children@[i].wf());
                law_balance(b.children@[i]);
                assert(b.children@[i].height() == b.children@[0].height());
            }
        },
    }
}

/// Fanout bounds: a well-formed branch has between 1 and
/// `BRANCH_FANOUT` children, a well-formed leaf between 1 and
/// `LEAF_FANOUT` entries. Empty nodes never survive an operation;
/// only an empty tree as a whole holds no node at all. Since
/// well-formedness is hereditary, this holds of every node of a tree.
pub proof fn law_fanout(n: Node)
    requires
        n.wf(),
    ensures
        n is Branch ==> 1 <= n->Branch_0.children@.len() <= BRANCH_FANOUT,
        n is Leaf ==> 1 <= n->Leaf_0.keys@.len() <= LEAF_FANOUT,
{
}

/// No duplicates: a sorted entry sequence holds each key in at most
/// one slot.
pub proof fn law_no_dup(s: Seq<(u64, u64)>)
    requires
        entries_sorted(s),
    ensures
        forall|i: int, j: int|
            0 <= i < s.len() && 0 <= j < s.len() && s[i].0 == s[j].0 ==> i == j,
{
    assert forall|i: int, j: int|
        0 <= i < s.len() && 0 <= j < s.len() && s[i].0 == s[j].0 implies i == j by {
        if i < j {
            assert(s[i].0 < s[j].0);
        }
        if j < i {
            assert(s[j].0 < s[i].0);
        }
    }
}

/// Inserting an absent key and then removing it restores the original
/// entries, and with them the original size. (When the key was already
/// present this fails: the insert overwrote the old value, and the
/// removal then deletes the entry outright.)
pub proof fn law_insert_remove(s: Seq<(u64, u64)>, k: u64, v: u64)
    requires
        entries_sorted(s),
        !has_key(s, k),
    ensures
        seq_remove(seq_insert(s, k, v), k) == s,
        seq_insert(s, k, v).len() == s.len() + 1,
        seq_remove(seq_insert(s, k, v), k).len() == s.len(),
{
    lemma_count_below_split(s, k);
    lemma_seq_insert(s, k, v);
    let c = count_below(s, k);
    let r = seq_insert(s, k, v);
    assert(r[c] == (k, v));
    lemma_count_below_unique(r, k, c);
    assert(seq_remove(r, k) =~= s) by {
        assert(r.subrange(0, c) =~= s.subrange(0, c));
        assert(r.subrange(c + 1, r.len() as int) =~= s.subrange(c, s.len() as int));
        assert(s.subrange(0, c) + s.subrange(c, s.len() as int) =~= s);
    }
}

/// Inserting twice under one key leaves a single entry carrying the
/// second value, and the second insertion finds the first value in
/// place (so `insert` reports it as replaced).
pub proof fn law_insert_insert(s: Seq<(u64, u64)>, k: u64, v1: u64, v2: u64)
    requires
        entries_sorted(s),
    ensures
        seq_insert(seq_insert(s, k, v1), k, v2) == seq_insert(s, k, v2),
        has_key(seq_insert(s, k, v1), k),
        value_of(seq_insert(s, k, v1), k) == v1,
        forall|i: int, j: int|
            0 <= i < seq_insert(seq_insert(s, k, v1), k, v2).len() && 0 <= j < seq_insert(
                seq_insert(s, k, v1),
                k,
                v2,
            ).len() && seq_insert(seq_insert(s, k, v1), k, v2)[i].0 == k && seq_insert(
                seq_insert(s, k, v1),
                k,
                v2,
            )[j].0 == k ==> i == j,
{
    lemma_count_below_split(s, k);
    lemma_seq_insert(s, k, v1);
    let r1 = seq_insert(s, k, v1);
    lemma_seq_insert(r1, k, v2);
    let c = count_below(s, k);
    if has_key(s, k) {
        lemma_count_below_unique(r1, k, c);
        assert(seq_insert(r1, k, v2) =~= seq_insert(s, k, v2));
    } else {
        assert(r1[c] == (k, v1));
        lemma_count_below_unique(r1, k, c);
        assert(seq_insert(r1, k, v2) =~= r1.update(c, (k, v2)));
        assert(seq_insert(r1, k, v2) =~= seq_insert(s, k, v2));
    }
    law_no_dup(seq_insert(r1, k, v2));
}

/// Lookup is consistent with the last write: after an insert the key
/// maps to the inserted value; after a removal it is gone; every other
/// key is untouched either way. `get`'s own contract then ties the
/// returned option to these facts.
pub proof fn law_get_consistent(s: Seq<(u64, u64)>, k: u64, v: u64)
    requires
        entries_sorted(s),
    ensures
        has_key(seq_insert(s, k, v), k),
        value_of(seq_insert(s, k, v), k) == v,
        !has_key(seq_remove(s, k), k),
        forall|q: u64|
            q != k && has_key(s, q) ==> has_key(seq_insert(s, k, v), q) && value_of(
                seq_insert(s, k, v),
                q,
            ) == value_of(s, q),
        forall|q: u64|
            q != k && has_key(s, q) ==> has_key(seq_remove(s, k), q) && value_of(
                seq_remove(s, k),
                q,
            ) == value_of(s, q),
{
    lemma_seq_insert(s, k, v);
    lemma_seq_remove(s, k);
}

/// A range from a key to the same key, excluding the end, is empty.
pub proof fn law_range_empty(s: Seq<(u64, u64)>, a: u64)
    requires
        entries_sorted(s),
    ensures
        range_entries(s, RangeBound::Included(a), RangeBound::Excluded(a)) == Seq::<(
            u64,
            u64,
        )>::empty(),
{
    lemma_count_below_split(s, a);
    assert(s.subrange(count_below(s, a), count_below(s, a)) =~= Seq::<(u64, u64)>::empty());
}

/// A range closed below the least key is empty.
pub proof fn law_range_below_min(s: Seq<(u64, u64)>, low: u64)
    requires
        entries_sorted(s),
        forall|i: int| 0 <= i < s.len() ==> (#[trigger] s[i]).0 >= low,
    ensures
        range_entries(s, RangeBound::Unbounded, RangeBound::Excluded(low)) == Seq::<(
            u64,
            u64,
        )>::empty(),
{
    lemma_count_below_is(s, low, 0);
    assert(s.subrange(0, 0) =~= Seq::<(u64, u64)>::empty());
}

/// A range opening above the greatest key is empty.
pub proof fn law_range_above_max(s: Seq<(u64, u64)>, high: u64)
    requires
        entries_sorted(s),
        forall|i: int| 0 <= i < s.len() ==> (#[trigger] s[i]).0 < high,
    ensures
        range_entries(s, RangeBound::Included(high), RangeBound::Unbounded) == Seq::<(
            u64,
            u64,
        )>::empty(),
{
    lemma_count_below_is(s, high, s.len() as int);
    assert(s.subrange(s.len() as int, s.len() as int) =~= Seq::<(u64, u64)>::empty());
}

/// Removing the only entry leaves the empty view, and a subsequent
/// insert yields exactly the singleton view — the same view a fresh
/// tree would produce, so a tree emptied by deletion is observationally
/// a fresh tree.
pub proof fn law_empty_cycle(s: Seq<(u64, u64)>, k: u64, v: u64)
    requires
        entries_sorted(s),
        s.len() == 1,
    ensures
        seq_remove(s, s[0].0).len() == 0,
        seq_insert(Seq::empty(), k, v) == seq![(k, v)],
{
    lemma_seq_remove(s, s[0].0);
    lemma_count_below_unique(s, s[0].0, 0);
    assert(seq_insert(Seq::<(u64, u64)>::empty(), k, v) =~= seq![(k, v)]);
}

/// The two construction paths agree: inserting a strictly ascending
/// entry list one element at a time produces the same map view that
/// `load` builds in one pass, namely the list itself. (The node layout
/// may differ — `load` packs to the left — but the observable map is
/// identical.)
pub proof fn law_sequential_insert_matches_load(input: Seq<(u64, u64)>)
    requires
        entries_sorted(input),
    ensures
        crate::model::seq_insert_all(Seq::empty(), input) == input,
{
    lemma_insert_all_append(Seq::empty(), input);
    assert(Seq::<(u64, u64)>::empty() + input =~= input);
}

/// Inserting keys that all lie strictly above an accumulated sorted
/// prefix appends them in order.
proof fn lemma_insert_all_append(acc: Seq<(u64, u64)>, items: Seq<(u64, u64)>)
    requires
        entries_sorted(acc + items),
    ensures
        crate::model::seq_insert_all(acc, items) == acc + items,
    decreases items.len(),
{
    if items.len() == 0 {
        assert(acc + items =~= acc);
    } else {
        let e = items[0];
        let s = acc + items;
        assert(!has_key(acc, e.0)) by {
            assert forall|j: int| 0 <= j < acc.len() implies (#[trigger] acc[j]).0 != e.0 by {
                assert(s[j] == acc[j]);
                assert(s[acc.len() as int] == e);
                assert(s[j].0 < s[acc.len() as int].0);
            }
        }
        assert(entries_sorted(acc)) by {
            assert forall|a: int, b: int|
                0 <= a < b < acc.len() implies acc[a].0 < acc[b].0 by {
                assert(s[a] == acc[a]);
                assert(s[b] == acc[b]);
            }
        }
        lemma_count_below_split(acc, e.0);
        assert(count_below(acc, e.0) == acc.len()) by {
            assert forall|j: int| 0 <= j < acc.len() implies acc[j].0 < e.0 by {
                assert(s[j] == acc[j]);
                assert(s[acc.len() as int] == e);
                assert(s[j].0 < s[acc.len() as int].0);
            }
            lemma_count_below_is(acc, e.0, acc.len() as int);
        }
        assert(seq_insert(acc, e.0, e.1) =~= acc.push(e)) by {
            assert(acc.subrange(0, acc.len() as int) =~= acc);
            assert(acc.subrange(acc.len() as int, acc.len() as int) =~= Seq::<(u64, u64)>::empty());
        }
        assert(acc.push(e) + items.drop_first() =~= acc + items);
        lemma_insert_all_append(acc.push(e), items.drop_first());
    }
}

/// A double-ended iterator's forward-consumed prefix, remaining window
/// and backward-consumed suffix partition the underlying entries: the
/// two directions never overlap and, once the window is empty, jointly
/// cover every entry exactly once.
pub proof fn law_double_ended_partition(items: Seq<(u64, u64)>, front: int, back: int)
    requires
        0 <= front <= back <= items.len(),
    ensures
        items == items.subrange(0, front) + items.subrange(front, back) + items.subrange(
            back,
            items.len() as int,
        ),
{
    assert(items =~= items.subrange(0, front) + items.subrange(front, back) + items.subrange(
        back,
        items.len() as int,
    ));
}

} // verus!
