use palmtree::{MergeIter, PalmTree};

fn tree_of(entries: &[(u64, u64)]) -> PalmTree {
    let mut t: PalmTree = PalmTree::new();
    for e in entries.iter() {
        t.insert(e.0, e.1);
    }
    t
}

fn drain(mut it: MergeIter) -> Vec<(u64, u64)> {
    let mut out: Vec<(u64, u64)> = Vec::new();
    while let Some(e) = it.next() {
        out.push(e);
    }
    out
}

#[test]
fn merge_iter_interleaves_sorted_streams() {
    let left: Vec<(u64, u64)> = vec![(1, 10), (3, 30), (5, 50)];
    let right: Vec<(u64, u64)> = vec![(2, 21), (3, 31), (4, 41)];
    let prefer_left = drain(MergeIter::merge(left.clone(), right.clone(), true));
    assert_eq!(vec![(1, 10), (2, 21), (3, 30), (4, 41), (5, 50)], prefer_left);
    let prefer_right = drain(MergeIter::merge(left, right, false));
    assert_eq!(vec![(1, 10), (2, 21), (3, 31), (4, 41), (5, 50)], prefer_right);
}

#[test]
fn merge_left_prefers_right_on_equal_keys() {
    let a = tree_of(&[(1, 100), (2, 200)]);
    let b = tree_of(&[(2, 999), (3, 300)]);
    let m = PalmTree::merge_left(a, b);
    assert_eq!(vec![(1, 100), (2, 999), (3, 300)], m.to_vec());
}

#[test]
fn merge_right_prefers_left_on_equal_keys() {
    let a = tree_of(&[(1, 100), (2, 200)]);
    let b = tree_of(&[(2, 999), (3, 300)]);
    let m = PalmTree::merge_right(a, b);
    assert_eq!(vec![(1, 100), (2, 200), (3, 300)], m.to_vec());
}

#[test]
fn merge_iters_expose_union() {
    let a = tree_of(&[(1, 1), (2, 2)]);
    let b = tree_of(&[(2, 20), (4, 4)]);
    let out = drain(PalmTree::merge_left_iter(a, b));
    assert_eq!(vec![(1, 1), (2, 20), (4, 4)], out);
    let a2 = tree_of(&[(1, 1), (2, 2)]);
    let b2 = tree_of(&[(2, 20), (4, 4)]);
    let out2 = drain(PalmTree::merge_right_iter(a2, b2));
    assert_eq!(vec![(1, 1), (2, 2), (4, 4)], out2);
}

#[test]
fn append_left_and_right() {
    let mut a = tree_of(&[(1, 1), (5, 5)]);
    let b = tree_of(&[(5, 55), (9, 9)]);
    a.append_left(b);
    assert_eq!(vec![(1, 1), (5, 55), (9, 9)], a.to_vec());

    let mut c = tree_of(&[(1, 1), (5, 5)]);
    let d = tree_of(&[(5, 55), (9, 9)]);
    c.append_right(d);
    assert_eq!(vec![(1, 1), (5, 5), (9, 9)], c.to_vec());
}

#[test]
fn append_into_empty_tree() {
    let mut a: PalmTree = PalmTree::new();
    let b = tree_of(&[(4, 4), (8, 8)]);
    a.append_left(b);
    assert_eq!(vec![(4, 4), (8, 8)], a.to_vec());
}
