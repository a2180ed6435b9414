//! Search primitives over sorted key arrays: branchy binary search and
//! its "find or neighbor" variants, plus a linear-scan version kept for
//! comparison. Every node operation of the tree goes through these.

use vstd::prelude::*;

verus! {

/// Keys strictly increase from left to right.
pub open spec fn keys_strictly_sorted(s: Seq<u64>) -> bool {
    forall|i: int, j: int| 0 <= i < j < s.len() ==> s[i] < s[j]
}

/// Strict sortedness follows from strictness of every adjacent pair.
pub proof fn lemma_sorted_from_adjacent(s: Seq<u64>)
    requires
        forall|i: int| 0 <= i < s.len() - 1 ==> #[trigger] s[i] < s[i + 1],
    ensures
        keys_strictly_sorted(s),
{
    assert forall|i: int, j: int| 0 <= i < j < s.len() implies s[i] < s[j] by {
        lemma_chain_lt(s, i, j);
    }
}

proof fn lemma_chain_lt(s: Seq<u64>, i: int, j: int)
    requires
        forall|m: int| 0 <= m < s.len() - 1 ==> #[trigger] s[m] < s[m + 1],
        0 <= i < j < s.len(),
    ensures
        s[i] < s[j],
    decreases j - i,
{
    if j > i + 1 {
        lemma_chain_lt(s, i, j - 1);
    }
}

/// Find `key` in `keys`, or the closest higher key: returns the first
/// index whose key is at least `key`, or `None` when every key is lower.
pub fn find_key(keys: &Vec<u64>, key: u64) -> (r: Option<usize>)
    requires
        keys_strictly_sorted(keys@),
    ensures
        match r {
            Some(i) => i < keys.len() && keys@[i as int] >= key && forall|j: int|
                0 <= j < i ==> keys@[j] < key,
            None => forall|j: int| 0 <= j < keys.len() ==> keys@[j] < key,
        },
{
    let size = keys.len();
    if size == 0 {
        return None;
    }
    let mut low: usize = 0;
    let mut high: usize = size - 1;
    while low != high
        invariant
            keys_strictly_sorted(keys@),
            size == keys.len(),
            0 <= low <= high < size,
            forall|j: int| 0 <= j < low ==> keys@[j] < key,
            high == size - 1 || keys@[high as int] >= key,
        decreases high - low,
    {
        let mid: usize = low + (high - low) / 2;
        if keys[mid] < key {
            low = mid + 1;
        } else {
            high = mid;
        }
    }
    if keys[low] < key {
        None
    } else {
        Some(low)
    }
}

/// Find `key` in `keys`, or the closest higher key, assuming the highest
/// key is not lower than `key` and `keys` is not empty: returns the first
/// index whose key is at least `key`.
pub fn find_key_or_next(keys: &Vec<u64>, key: u64) -> (r: usize)
    requires
        keys_strictly_sorted(keys@),
        keys.len() > 0,
        keys@.last() >= key,
    ensures
        r < keys.len(),
        keys@[r as int] >= key,
        forall|j: int| 0 <= j < r ==> keys@[j] < key,
{
    let size = keys.len();
    let mut low: usize = 0;
    let mut high: usize = size - 1;
    while low != high
        invariant
            keys_strictly_sorted(keys@),
            size == keys.len(),
            0 <= low <= high < size,
            forall|j: int| 0 <= j < low ==> keys@[j] < key,
            keys@[high as int] >= key,
        decreases high - low,
    {
        let mid: usize = low + (high - low) / 2;
        if keys[mid] < key {
            low = mid + 1;
        } else {
            high = mid;
        }
    }
    low
}

/// Find `key` in `keys`, or the closest lower key, assuming the lowest
/// key is not higher than `key` and `keys` is not empty: returns the last
/// index whose key is at most `key`.
pub fn find_key_or_prev(keys: &Vec<u64>, key: u64) -> (r: usize)
    requires
        keys_strictly_sorted(keys@),
        keys.len() > 0,
        keys@[0] <= key,
    ensures
        r < keys.len(),
        keys@[r as int] <= key,
        forall|j: int| r < j < keys.len() ==> keys@[j] > key,
{
    let size = keys.len();
    let mut low: usize = 0;
    let mut high: usize = size - 1;
    while low != high
        invariant
            keys_strictly_sorted(keys@),
            size == keys.len(),
            0 <= low <= high < size,
            keys@[low as int] <= key,
            forall|j: int| high < j < size ==> keys@[j] > key,
        decreases high - low,
    {
        let mid: usize = low + (high - low + 1) / 2;
        if keys[mid] > key {
            high = mid - 1;
        } else {
            low = mid;
        }
    }
    low
}

/// Linear-scan version of `find_key`, kept for comparison benchmarks.
/// It needs no sortedness: it returns the first index whose key is at
/// least `key`, or `None` when every key is lower.
pub fn find_key_linear(keys: &Vec<u64>, key: u64) -> (r: Option<usize>)
    ensures
        match r {
            Some(i) => i < keys.len() && keys@[i as int] >= key && forall|j: int|
                0 <= j < i ==> keys@[j] < key,
            None => forall|j: int| 0 <= j < keys.len() ==> keys@[j] < key,
        },
{
    let mut index: usize = 0;
    while index < keys.len()
        invariant
            index <= keys.len(),
            forall|j: int| 0 <= j < index ==> keys@[j] < key,
        decreases keys.len() - index,
    {
        if key <= keys[index] {
            return Some(index);
        }
        index += 1;
    }
    None
}

} // verus!
