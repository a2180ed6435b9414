//! The mathematical model of the tree: a strictly sorted sequence of
//! key/value pairs, together with the point operations (lookup, insert,
//! remove) expressed on such sequences. Every public contract of the
//! crate is stated in terms of these functions.

use vstd::prelude::*;

verus! {

/// Entry keys strictly increase from left to right.
pub open spec fn entries_sorted(s: Seq<(u64, u64)>) -> bool {
    forall|i: int, j: int| 0 <= i < j < s.len() ==> s[i].0 < s[j].0
}

/// Some entry of `s` carries the key `k`.
pub open spec fn has_key(s: Seq<(u64, u64)>, k: u64) -> bool {
    exists|i: int| 0 <= i < s.len() && s[i].0 == k
}

/// The number of entries of `s` whose key is strictly below `k`.
/// On a sorted sequence this is the position where `k` lives or
/// would be inserted.
pub open spec fn count_below(s: Seq<(u64, u64)>, k: u64) -> int
    decreases s.len(),
{
    if s.len() == 0 {
        0
    } else {
        count_below(s.drop_last(), k) + if s.last().0 < k {
            1int
        } else {
            0int
        }
    }
}

/// The number of entries of `s` whose key is at most `k`.
pub open spec fn count_at_most(s: Seq<(u64, u64)>, k: u64) -> int
    decreases s.len(),
{
    if s.len() == 0 {
        0
    } else {
        count_at_most(s.drop_last(), k) + if s.last().0 <= k {
            1int
        } else {
            0int
        }
    }
}

/// On a sorted sequence, `count_at_most` splits the sequence exactly.
pub proof fn lemma_count_at_most_split(s: Seq<(u64, u64)>, k: u64)
    requires
        entries_sorted(s),
    ensures
        0 <= count_at_most(s, k) <= s.len(),
        forall|i: int| 0 <= i < count_at_most(s, k) ==> s[i].0 <= k,
        forall|i: int| count_at_most(s, k) <= i < s.len() ==> s[i].0 > k,
    decreases s.len(),
{
    if s.len() > 0 {
        let t = s.drop_last();
        assert(entries_sorted(t));
        lemma_count_at_most_split(t, k);
        let c = count_at_most(s, k);
        if s.last().0 <= k {
            assert(count_at_most(t, k) == s.len() - 1) by {
                if count_at_most(t, k) < t.len() {
                    assert(t[count_at_most(t, k)].0 > k);
                    assert(s[count_at_most(t, k)].0 < s[s.len() - 1].0);
                }
            }
            assert(forall|i: int| 0 <= i < c - 1 ==> s[i].0 == t[i].0);
            assert forall|i: int| 0 <= i < c implies s[i].0 <= k by {
                if i < s.len() - 1 {
                    assert(s[i].0 < s[s.len() - 1].0);
                }
            }
        } else {
            assert(c == count_at_most(t, k));
            assert forall|i: int| 0 <= i < c implies s[i].0 <= k by {
                assert(t[i].0 <= k);
            }
            assert forall|i: int| c <= i < s.len() implies s[i].0 > k by {
                if i < s.len() - 1 {
                    assert(t[i].0 > k);
                }
            }
        }
    }
}

/// A position that splits the keys at `k` (inclusive on the left) pins
/// `count_at_most` to it.
pub proof fn lemma_count_at_most_is(s: Seq<(u64, u64)>, k: u64, i: int)
    requires
        0 <= i <= s.len(),
        forall|j: int| 0 <= j < i ==> s[j].0 <= k,
        forall|j: int| i <= j < s.len() ==> s[j].0 > k,
    ensures
        count_at_most(s, k) == i,
    decreases s.len(),
{
    if s.len() == 0 {
    } else if i == s.len() {
        lemma_count_at_most_is(s.drop_last(), k, i - 1);
    } else {
        lemma_count_at_most_is(s.drop_last(), k, i);
    }
}

/// The value stored under `k`; meaningful when `has_key(s, k)` and
/// `entries_sorted(s)` hold.
pub open spec fn value_of(s: Seq<(u64, u64)>, k: u64) -> u64 {
    s[count_below(s, k)].1
}

/// `s` with the entry `(k, v)` inserted at its sorted position, or with
/// the value under `k` replaced by `v` if the key is already present.
pub open spec fn seq_insert(s: Seq<(u64, u64)>, k: u64, v: u64) -> Seq<(u64, u64)> {
    let c = count_below(s, k);
    if has_key(s, k) {
        s.update(c, (k, v))
    } else {
        s.subrange(0, c) + seq![(k, v)] + s.subrange(c, s.len() as int)
    }
}

/// `s` with the entry keyed `k` removed, if present.
pub open spec fn seq_remove(s: Seq<(u64, u64)>, k: u64) -> Seq<(u64, u64)> {
    let c = count_below(s, k);
    if has_key(s, k) {
        s.subrange(0, c) + s.subrange(c + 1, s.len() as int)
    } else {
        s
    }
}

/// `s` after inserting every entry of `items` in turn, first to last.
pub open spec fn seq_insert_all(s: Seq<(u64, u64)>, items: Seq<(u64, u64)>) -> Seq<(u64, u64)>
    decreases items.len(),
{
    if items.len() == 0 {
        s
    } else {
        seq_insert_all(seq_insert(s, items[0].0, items[0].1), items.drop_first())
    }
}

/// Every key of `s` is at most `hi`.
pub open spec fn keys_at_most(s: Seq<(u64, u64)>, hi: u64) -> bool {
    forall|i: int| 0 <= i < s.len() ==> s[i].0 <= hi
}

/// Every key of `s` is strictly above `lo`.
pub open spec fn keys_above(s: Seq<(u64, u64)>, lo: u64) -> bool {
    forall|i: int| 0 <= i < s.len() ==> s[i].0 > lo
}

pub proof fn lemma_count_below_bounds(s: Seq<(u64, u64)>, k: u64)
    ensures
        0 <= count_below(s, k) <= s.len(),
    decreases s.len(),
{
    if s.len() > 0 {
        lemma_count_below_bounds(s.drop_last(), k);
    }
}

/// On a sorted sequence, `count_below` splits the sequence exactly:
/// everything before it is below `k`, everything from it on is at or
/// above `k`, and if `k` occurs at all it occurs right there.
pub proof fn lemma_count_below_split(s: Seq<(u64, u64)>, k: u64)
    requires
        entries_sorted(s),
    ensures
        0 <= count_below(s, k) <= s.len(),
        forall|i: int| 0 <= i < count_below(s, k) ==> s[i].0 < k,
        forall|i: int| count_below(s, k) <= i < s.len() ==> s[i].0 >= k,
        has_key(s, k) ==> count_below(s, k) < s.len() && s[count_below(s, k)].0 == k,
        !has_key(s, k) ==> forall|i: int|
            0 <= i < s.len() ==> s[i].0 != k,
    decreases s.len(),
{
    lemma_count_below_bounds(s, k);
    if s.len() > 0 {
        let t = s.drop_last();
        assert(entries_sorted(t));
        lemma_count_below_split(t, k);
        let c = count_below(s, k);
        if s.last().0 < k {
            // every earlier key is below the last one, hence below k
            assert(forall|i: int| 0 <= i < s.len() - 1 ==> s[i].0 < k);
            assert(count_below(t, k) == s.len() - 1) by {
                if count_below(t, k) < t.len() {
                    assert(t[count_below(t, k)].0 >= k);
                }
            }
            assert(c == s.len());
            assert(forall|i: int| 0 <= i < c ==> s[i].0 < k);
        } else {
            assert(c == count_below(t, k));
            assert forall|i: int| 0 <= i < c implies s[i].0 < k by {
                assert(t[i].0 < k);
            }
            assert forall|i: int| c <= i < s.len() implies s[i].0 >= k by {
                if i < s.len() - 1 {
                    assert(t[i].0 >= k);
                }
            }
            if has_key(s, k) {
                let w = choose|i: int| 0 <= i < s.len() && s[i].0 == k;
                if w < s.len() - 1 {
                    assert(t[w].0 == k);
                    assert(has_key(t, k));
                } else {
                    assert(s[c].0 >= k);
                    assert(s[c].0 <= k) by {
                        if c < s.len() - 1 {
                            assert(s[c].0 < s[s.len() - 1].0);
                        }
                    }
                }
            }
        }
    }
}

/// Inserting preserves sortedness and performs the map update:
/// the result holds `k` with value `v`, every other key keeps its
/// value, and the length grows exactly when the key was absent.
pub proof fn lemma_seq_insert(s: Seq<(u64, u64)>, k: u64, v: u64)
    requires
        entries_sorted(s),
    ensures
        entries_sorted(seq_insert(s, k, v)),
        seq_insert(s, k, v).len() == s.len() + if has_key(s, k) {
            0int
        } else {
            1int
        },
        has_key(seq_insert(s, k, v), k),
        value_of(seq_insert(s, k, v), k) == v,
        forall|i: int|
            0 <= i < seq_insert(s, k, v).len() ==> (#[trigger] seq_insert(s, k, v)[i].0 == k
                || has_key(s, seq_insert(s, k, v)[i].0)),
        forall|q: u64| has_key(s, q) ==> has_key(seq_insert(s, k, v), q),
        forall|q: u64|
            q != k && has_key(s, q) ==> value_of(seq_insert(s, k, v), q) == value_of(s, q),
{
    lemma_count_below_split(s, k);
    let r = seq_insert(s, k, v);
    let c = count_below(s, k);
    if has_key(s, k) {
        assert(entries_sorted(r));
        lemma_count_below_same_keys(s, r);
        assert(has_key(r, k)) by {
            assert(r[c].0 == k);
        }
        lemma_count_below_split(r, k);
        assert(count_below(r, k) == c) by {
            lemma_count_below_unique(r, k, c);
        }
        assert(forall|q: u64| has_key(s, q) ==> has_key(r, q)) by {
            assert forall|q: u64| has_key(s, q) implies has_key(r, q) by {
                let w = choose|i: int| 0 <= i < s.len() && s[i].0 == q;
                if w == c {
                    assert(r[c].0 == k);
                    assert(q == k);
                } else {
                    assert(r[w].0 == q);
                }
            }
        }
        assert forall|q: u64| q != k && has_key(s, q) implies value_of(r, q) == value_of(s, q) by {
            lemma_count_below_split(r, q);
            lemma_count_below_split(s, q);
            let cq = count_below(s, q);
            assert(s[cq].0 == q);
            assert(cq != c);
            assert(r[cq].0 == q);
            lemma_count_below_unique(r, q, cq);
        }
    } else {
        assert(r.len() == s.len() + 1);
        assert(r[c] == (k, v));
        assert(forall|i: int| 0 <= i < c ==> r[i] == s[i]);
        assert(forall|i: int| c < i < r.len() ==> r[i] == s[i - 1]);
        assert(entries_sorted(r)) by {
            assert forall|i: int, j: int| 0 <= i < j < r.len() implies r[i].0 < r[j].0 by {
                if i < c && j > c {
                    assert(s[i].0 < k);
                    assert(s[j - 1].0 >= k);
                    assert(s[j - 1].0 != k);
                }
                if i == c && j > c {
                    assert(s[j - 1].0 >= k && s[j - 1].0 != k);
                }
            }
        }
        assert(has_key(r, k)) by {
            assert(r[c].0 == k);
        }
        lemma_count_below_unique(r, k, c);
        assert forall|q: u64| q != k && has_key(s, q) implies value_of(r, q) == value_of(s, q)
            && has_key(r, q) by {
            lemma_count_below_split(s, q);
            let cq = count_below(s, q);
            assert(s[cq].0 == q);
            if cq < c {
                assert(r[cq].0 == q);
                lemma_count_below_unique(r, q, cq);
            } else {
                assert(r[cq + 1].0 == q);
                lemma_count_below_unique(r, q, cq + 1);
            }
        }
        assert forall|q: u64| q == k && has_key(s, q) implies has_key(r, q) by {}
        assert forall|q: u64| q != k && has_key(s, q) implies has_key(r, q) by {
            lemma_count_below_split(s, q);
            let cq = count_below(s, q);
            if cq < c {
                assert(r[cq].0 == q);
            } else {
                assert(r[cq + 1].0 == q);
            }
        }
    }
}

/// In a sorted sequence an occurrence of `k` at position `i` pins
/// `count_below` to `i`.
pub proof fn lemma_count_below_unique(s: Seq<(u64, u64)>, k: u64, i: int)
    requires
        entries_sorted(s),
        0 <= i < s.len(),
        s[i].0 == k,
    ensures
        count_below(s, k) == i,
        has_key(s, k),
        value_of(s, k) == s[i].1,
{
    lemma_count_below_split(s, k);
    let c = count_below(s, k);
    assert(has_key(s, k));
    if c < i {
        assert(s[c].0 < s[i].0);
        assert(s[c].0 >= k);
    }
    if c > i {
        assert(s[i].0 < k);
    }
}

/// Two sequences with pointwise equal keys have the same `count_below`.
proof fn lemma_count_below_same_keys(s: Seq<(u64, u64)>, t: Seq<(u64, u64)>)
    requires
        s.len() == t.len(),
        forall|i: int| 0 <= i < s.len() ==> s[i].0 == t[i].0,
    ensures
        forall|k: u64| count_below(s, k) == count_below(t, k),
    decreases s.len(),
{
    if s.len() > 0 {
        lemma_count_below_same_keys(s.drop_last(), t.drop_last());
        assert forall|k: u64| count_below(s, k) == count_below(t, k) by {
            assert(count_below(s.drop_last(), k) == count_below(t.drop_last(), k));
            assert(s.last().0 == t.last().0);
        }
    }
}

/// A sorted sequence position `i` that splits the keys around `k`
/// pins `count_below` to `i`.
pub proof fn lemma_count_below_is(s: Seq<(u64, u64)>, k: u64, i: int)
    requires
        0 <= i <= s.len(),
        forall|j: int| 0 <= j < i ==> s[j].0 < k,
        forall|j: int| i <= j < s.len() ==> s[j].0 >= k,
    ensures
        count_below(s, k) == i,
    decreases s.len(),
{
    if s.len() == 0 {
    } else if i == s.len() {
        lemma_count_below_is(s.drop_last(), k, i - 1);
    } else {
        lemma_count_below_is(s.drop_last(), k, i);
    }
}

/// `count_below` distributes over concatenation.
pub proof fn lemma_count_below_concat(a: Seq<(u64, u64)>, b: Seq<(u64, u64)>, k: u64)
    ensures
        count_below(a + b, k) == count_below(a, k) + count_below(b, k),
    decreases b.len(),
{
    if b.len() == 0 {
        assert(a + b =~= a);
    } else {
        lemma_count_below_concat(a, b.drop_last(), k);
        assert((a + b).drop_last() =~= a + b.drop_last());
        assert((a + b).last() == b.last());
    }
}

/// `has_key` distributes over concatenation.
pub proof fn lemma_has_key_concat(a: Seq<(u64, u64)>, b: Seq<(u64, u64)>, k: u64)
    ensures
        has_key(a + b, k) == (has_key(a, k) || has_key(b, k)),
{
    if has_key(a + b, k) {
        let w = choose|i: int| 0 <= i < (a + b).len() && (a + b)[i].0 == k;
        if w < a.len() {
            assert(a[w].0 == k);
        } else {
            assert(b[w - a.len()].0 == k);
        }
    }
    if has_key(a, k) {
        let w = choose|i: int| 0 <= i < a.len() && a[i].0 == k;
        assert((a + b)[w].0 == k);
    }
    if has_key(b, k) {
        let w = choose|i: int| 0 <= i < b.len() && b[i].0 == k;
        assert((a + b)[a.len() + w].0 == k);
    }
}

/// In a sorted sequence split into three segments where the outer two
/// avoid `k`'s position, lookup of `k` happens entirely in the middle.
pub proof fn lemma_lookup_in_segment(
    a: Seq<(u64, u64)>,
    mid: Seq<(u64, u64)>,
    c: Seq<(u64, u64)>,
    k: u64,
)
    requires
        entries_sorted(a + mid + c),
        forall|i: int| 0 <= i < a.len() ==> a[i].0 < k,
        forall|i: int| 0 <= i < c.len() ==> c[i].0 > k,
    ensures
        has_key(a + mid + c, k) == has_key(mid, k),
        count_below(a + mid + c, k) == a.len() + count_below(mid, k),
        has_key(mid, k) ==> value_of(a + mid + c, k) == value_of(mid, k),
        entries_sorted(mid),
    decreases 0int,
{
    let s = a + mid + c;
    lemma_has_key_concat(a + mid, c, k);
    lemma_has_key_concat(a, mid, k);
    assert(!has_key(a, k));
    assert(!has_key(c, k));
    lemma_count_below_concat(a + mid, c, k);
    lemma_count_below_concat(a, mid, k);
    lemma_count_below_is(a, k, a.len() as int);
    lemma_count_below_is(c, k, 0);
    assert(count_below(s, k) == a.len() + count_below(mid, k));
    assert(entries_sorted(mid)) by {
        assert forall|i: int, j: int| 0 <= i < j < mid.len() implies mid[i].0 < mid[j].0 by {
            assert(s[a.len() + i] == mid[i]);
            assert(s[a.len() + j] == mid[j]);
        }
    }
    if has_key(mid, k) {
        lemma_count_below_split(mid, k);
        let cm = count_below(mid, k);
        assert(s[a.len() + cm] == mid[cm]);
        assert(value_of(s, k) == s[a.len() + cm].1);
    }
}

/// Looking a key up in a sorted sequence decomposes along its head.
pub proof fn lemma_cons_lookup(s: Seq<(u64, u64)>, k: u64)
    requires
        entries_sorted(s),
        s.len() > 0,
    ensures
        has_key(s, k) == (s[0].0 == k || has_key(s.drop_first(), k)),
        s[0].0 == k ==> value_of(s, k) == s[0].1,
        s[0].0 != k && has_key(s.drop_first(), k) ==> value_of(s, k) == value_of(
            s.drop_first(),
            k,
        ),
{
    let t = s.drop_first();
    if s[0].0 == k {
        lemma_count_below_unique(s, k, 0);
    } else if s[0].0 < k {
        assert(seq![s[0]] + t + Seq::<(u64, u64)>::empty() =~= s);
        lemma_lookup_in_segment(seq![s[0]], t, Seq::empty(), k);
        if has_key(t, k) {
            let w = choose|i: int| 0 <= i < t.len() && t[i].0 == k;
            assert(s[w + 1].0 == k);
        }
    } else {
        assert(!has_key(s, k)) by {
            assert forall|i: int| 0 <= i < s.len() implies (#[trigger] s[i]).0 != k by {
                if i > 0 {
                    assert(s[0].0 < s[i].0);
                }
            }
        }
        assert(!has_key(t, k)) by {
            if has_key(t, k) {
                let w = choose|i: int| 0 <= i < t.len() && t[i].0 == k;
                assert(s[w + 1].0 == k);
            }
        }
    }
}

/// Inserting a key that belongs in the middle segment leaves the outer
/// segments untouched.
pub proof fn lemma_seq_insert_segment(
    a: Seq<(u64, u64)>,
    mid: Seq<(u64, u64)>,
    c: Seq<(u64, u64)>,
    k: u64,
    v: u64,
)
    requires
        entries_sorted(a + mid + c),
        forall|i: int| 0 <= i < a.len() ==> a[i].0 < k,
        forall|i: int| 0 <= i < c.len() ==> c[i].0 > k,
    ensures
        seq_insert(a + mid + c, k, v) == a + seq_insert(mid, k, v) + c,
{
    let s = a + mid + c;
    lemma_lookup_in_segment(a, mid, c, k);
    lemma_count_below_split(mid, k);
    let cm = count_below(mid, k);
    let cs = count_below(s, k);
    assert(cs == a.len() + cm);
    if has_key(mid, k) {
        assert(s.update(cs, (k, v)) =~= a + mid.update(cm, (k, v)) + c);
    } else {
        assert(s.subrange(0, cs) =~= a + mid.subrange(0, cm));
        assert(s.subrange(cs, s.len() as int) =~= mid.subrange(cm, mid.len() as int) + c);
        assert(s.subrange(0, cs) + seq![(k, v)] + s.subrange(cs, s.len() as int) =~= a + (
        mid.subrange(0, cm) + seq![(k, v)] + mid.subrange(cm, mid.len() as int)) + c);
    }
}

/// `lemma_seq_insert_segment`, quantified over the inserted value: the
/// form needed when the value is only determined later, through a
/// mutable borrow.
pub proof fn lemma_seq_insert_segment_all(
    a: Seq<(u64, u64)>,
    mid: Seq<(u64, u64)>,
    c: Seq<(u64, u64)>,
    k: u64,
)
    requires
        entries_sorted(a + mid + c),
        forall|i: int| 0 <= i < a.len() ==> a[i].0 < k,
        forall|i: int| 0 <= i < c.len() ==> c[i].0 > k,
    ensures
        forall|v: u64|
            seq_insert(a + mid + c, k, v) == a + (#[trigger] seq_insert(mid, k, v)) + c,
{
    assert forall|v: u64|
        seq_insert(a + mid + c, k, v) == a + (#[trigger] seq_insert(mid, k, v)) + c by {
        lemma_seq_insert_segment(a, mid, c, k, v);
    }
}

/// Removing a key that can only live in the middle segment leaves the
/// outer segments untouched.
pub proof fn lemma_seq_remove_segment(
    a: Seq<(u64, u64)>,
    mid: Seq<(u64, u64)>,
    c: Seq<(u64, u64)>,
    k: u64,
)
    requires
        entries_sorted(a + mid + c),
        forall|i: int| 0 <= i < a.len() ==> a[i].0 < k,
        forall|i: int| 0 <= i < c.len() ==> c[i].0 > k,
    ensures
        seq_remove(a + mid + c, k) == a + seq_remove(mid, k) + c,
{
    let s = a + mid + c;
    lemma_lookup_in_segment(a, mid, c, k);
    lemma_count_below_split(mid, k);
    let cm = count_below(mid, k);
    let cs = count_below(s, k);
    if has_key(mid, k) {
        assert(s.subrange(0, cs) =~= a + mid.subrange(0, cm));
        assert(s.subrange(cs + 1, s.len() as int) =~= mid.subrange(cm + 1, mid.len() as int) + c);
        assert(s.subrange(0, cs) + s.subrange(cs + 1, s.len() as int) =~= a + (mid.subrange(0, cm)
            + mid.subrange(cm + 1, mid.len() as int)) + c);
    } else {
        assert(seq_remove(s, k) == s);
        assert(a + seq_remove(mid, k) + c =~= s);
    }
}

/// Removing preserves sortedness and deletes exactly the entry keyed
/// `k`, leaving every other entry in place.
pub proof fn lemma_seq_remove(s: Seq<(u64, u64)>, k: u64)
    requires
        entries_sorted(s),
    ensures
        entries_sorted(seq_remove(s, k)),
        seq_remove(s, k).len() == s.len() - if has_key(s, k) {
            1int
        } else {
            0int
        },
        !has_key(seq_remove(s, k), k),
        forall|q: u64| q != k && has_key(s, q) ==> has_key(seq_remove(s, k), q),
        forall|q: u64|
            q != k && has_key(s, q) ==> value_of(seq_remove(s, k), q) == value_of(s, q),
        forall|i: int|
            0 <= i < seq_remove(s, k).len() ==> has_key(s, #[trigger] seq_remove(s, k)[i].0),
{
    lemma_count_below_split(s, k);
    let r = seq_remove(s, k);
    let c = count_below(s, k);
    if has_key(s, k) {
        assert(forall|i: int| 0 <= i < c ==> r[i] == s[i]);
        assert(forall|i: int| c <= i < r.len() ==> r[i] == s[i + 1]);
        assert(entries_sorted(r));
        assert(!has_key(r, k)) by {
            assert forall|i: int| 0 <= i < r.len() implies r[i].0 != k by {
                if i < c {
                    assert(s[i].0 < k);
                } else {
                    assert(s[i + 1].0 > s[c].0);
                }
            }
        }
        assert forall|q: u64| q != k && has_key(s, q) implies has_key(r, q) && value_of(r, q)
            == value_of(s, q) by {
            lemma_count_below_split(s, q);
            let cq = count_below(s, q);
            assert(s[cq].0 == q);
            if cq < c {
                assert(r[cq].0 == q);
                lemma_count_below_unique(r, q, cq);
            } else {
                assert(cq != c);
                assert(r[cq - 1].0 == q);
                lemma_count_below_unique(r, q, cq - 1);
            }
        }
        assert forall|i: int| 0 <= i < r.len() implies has_key(s, #[trigger] r[i].0) by {
            if i < c {
                assert(r[i] == s[i]);
            } else {
                assert(r[i] == s[i + 1]);
            }
        }
    }
}

} // verus!
