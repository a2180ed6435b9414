use palmtree::{PalmTree, RangeBound};

fn ascending(n: u64) -> Vec<(u64, u64)> {
    let mut v: Vec<(u64, u64)> = Vec::new();
    let mut i: u64 = 0;
    while i < n {
        v.push((i, i));
        i += 1;
    }
    v
}

fn collect_iter(tree: &PalmTree) -> Vec<(u64, u64)> {
    let mut it = tree.iter();
    let mut out: Vec<(u64, u64)> = Vec::new();
    while let Some(e) = it.next() {
        out.push(e);
    }
    out
}

fn collect_range(tree: &PalmTree, lo: RangeBound, hi: RangeBound) -> Vec<(u64, u64)> {
    let mut it = tree.range(lo, hi);
    let mut out: Vec<(u64, u64)> = Vec::new();
    while let Some(e) = it.next() {
        out.push(e);
    }
    out
}

fn fixed_two_leaf_input() -> Vec<(u64, u64)> {
    vec![
        (0, 171),
        (1, 248),
        (5, 189),
        (7, 122),
        (8, 189),
        (9, 11),
        (10, 165),
        (11, 215),
        (13, 243),
        (15, 0),
        (17, 0),
        (21, 245),
        (24, 5),
        (30, 0),
        (31, 255),
        (32, 10),
        (35, 0),
        (41, 255),
        (52, 82),
        (54, 28),
        (58, 0),
        (59, 255),
        (61, 11),
        (64, 238),
        (78, 59),
        (80, 255),
        (82, 82),
        (85, 238),
        (91, 91),
        (93, 243),
        (104, 115),
        (115, 115),
        (121, 121),
        (122, 255),
        (124, 10),
        (126, 251),
        (127, 85),
        (131, 131),
        (133, 115),
        (135, 0),
        (138, 126),
        (142, 238),
        (148, 158),
        (152, 242),
        (158, 138),
        (164, 0),
        (166, 164),
        (170, 170),
        (177, 78),
        (184, 17),
        (189, 255),
        (202, 54),
        (213, 215),
        (215, 50),
        (219, 255),
        (227, 164),
        (238, 246),
        (242, 18),
        (243, 242),
        (245, 243),
        (246, 127),
        (248, 170),
        (249, 255),
        (251, 184),
        (254, 242),
        (255, 54),
    ]
}

#[test]
fn consuming_iter() {
    let size: u64 = 65536;
    let tree = PalmTree::load(ascending(size));
    let mut it = tree.into_iter();
    let mut index: u64 = 0;
    while let Some((k, v)) = it.next() {
        assert_eq!(index, k);
        assert_eq!(index, v);
        index += 1;
    }
    assert_eq!(size, index);
}

#[test]
fn iter_iterate_single_leaf() {
    let size: u64 = 64;
    let tree = PalmTree::load(ascending(size));
    let mut it = tree.iter();
    while let Some(_e) = it.next() {}
}

#[test]
fn mod_iterate_single_leaf() {
    let size: u64 = 64;
    let tree = PalmTree::load(ascending(size));
    let mut it = tree.iter();
    while let Some(_e) = it.next() {}
}

#[test]
fn iter_iterate_forward() {
    let size: u64 = 65536;
    let tree = PalmTree::load(ascending(size));
    let expected = ascending(size);
    let result = collect_iter(&tree);
    assert_eq!(expected, result);
}

#[test]
fn mod_iterate_forward() {
    let size: u64 = 65536;
    let tree = PalmTree::load(ascending(size));
    let expected = ascending(size);
    let result = collect_iter(&tree);
    assert_eq!(expected, result);
}

#[test]
fn iter_iterate_backward() {
    let size: u64 = 65536;
    let tree = PalmTree::load(ascending(size));
    let mut expected = ascending(size);
    expected.reverse();
    let mut it = tree.iter();
    let mut result: Vec<(u64, u64)> = Vec::new();
    while let Some(e) = it.next_back() {
        result.push(e);
    }
    assert_eq!(expected, result);
}

#[test]
fn mod_iterate_backward() {
    let size: u64 = 65536;
    let tree = PalmTree::load(ascending(size));
    let mut expected = ascending(size);
    expected.reverse();
    let mut it = tree.iter();
    let mut result: Vec<(u64, u64)> = Vec::new();
    while let Some(e) = it.next_back() {
        result.push(e);
    }
    assert_eq!(expected, result);
}

#[test]
fn iter_empty_range_iter() {
    let tree = PalmTree::load(ascending(1));
    let expected: Vec<(u64, u64)> = Vec::new();
    let result = collect_range(&tree, RangeBound::Included(0), RangeBound::Excluded(0));
    assert_eq!(expected, result);
}

#[test]
fn mod_empty_range_iter() {
    let tree = PalmTree::load(ascending(1));
    let expected: Vec<(u64, u64)> = Vec::new();
    let result = collect_range(&tree, RangeBound::Included(0), RangeBound::Excluded(0));
    assert_eq!(expected, result);
}

#[test]
fn iter_wide_end_range_iter() {
    let tree = PalmTree::load(ascending(1));
    let expected: Vec<(u64, u64)> = vec![(0, 0)];
    let result = collect_range(&tree, RangeBound::Included(0), RangeBound::Excluded(255));
    assert_eq!(expected, result);
}

#[test]
fn mod_wide_end_range_iter() {
    let tree = PalmTree::load(ascending(1));
    let expected: Vec<(u64, u64)> = vec![(0, 0)];
    let result = collect_range(&tree, RangeBound::Included(0), RangeBound::Excluded(255));
    assert_eq!(expected, result);
}

#[test]
fn iter_wide_start_range_iter() {
    let tree = PalmTree::load(ascending(1));
    let expected: Vec<(u64, u64)> = Vec::new();
    let result = collect_range(&tree, RangeBound::Included(100), RangeBound::Unbounded);
    assert_eq!(expected, result);
}

#[test]
fn mod_wide_start_range_iter() {
    let tree = PalmTree::load(ascending(1));
    let expected: Vec<(u64, u64)> = Vec::new();
    let result = collect_range(&tree, RangeBound::Included(100), RangeBound::Unbounded);
    assert_eq!(expected, result);
}

#[test]
fn iter_end_before_first_key_iter() {
    let mut v: Vec<(u64, u64)> = Vec::new();
    v.push((1, 1));
    let tree = PalmTree::load(v);
    let expected: Vec<(u64, u64)> = Vec::new();
    let result = collect_range(&tree, RangeBound::Unbounded, RangeBound::Excluded(0));
    assert_eq!(expected, result);
}

#[test]
fn mod_end_before_first_key_iter() {
    let mut v: Vec<(u64, u64)> = Vec::new();
    v.push((1, 1));
    let tree = PalmTree::load(v);
    let expected: Vec<(u64, u64)> = Vec::new();
    let result = collect_range(&tree, RangeBound::Unbounded, RangeBound::Excluded(0));
    assert_eq!(expected, result);
}

#[test]
fn iter_start_after_last_key_iter() {
    let mut v: Vec<(u64, u64)> = Vec::new();
    v.push((1, 1));
    let tree = PalmTree::load(v);
    let expected: Vec<(u64, u64)> = Vec::new();
    let result = collect_range(&tree, RangeBound::Included(3), RangeBound::Unbounded);
    assert_eq!(expected, result);
}

#[test]
fn mod_start_after_last_key_iter() {
    let mut v: Vec<(u64, u64)> = Vec::new();
    v.push((1, 1));
    let tree = PalmTree::load(v);
    let expected: Vec<(u64, u64)> = Vec::new();
    let result = collect_range(&tree, RangeBound::Included(3), RangeBound::Unbounded);
    assert_eq!(expected, result);
}

#[test]
fn iter_end_before_last_key_iter() {
    let tree = PalmTree::load(ascending(2));
    let expected: Vec<(u64, u64)> = vec![(0, 0)];
    let result = collect_range(&tree, RangeBound::Unbounded, RangeBound::Included(0));
    assert_eq!(expected, result);
}

#[test]
fn mod_end_before_last_key_iter() {
    let tree = PalmTree::load(ascending(2));
    let expected: Vec<(u64, u64)> = vec![(0, 0)];
    let result = collect_range(&tree, RangeBound::Unbounded, RangeBound::Included(0));
    assert_eq!(expected, result);
}

#[test]
fn iter_range_with_deleted_max() {
    let mut tree: PalmTree = PalmTree::new();
    tree.insert(0, 0);
    tree.insert(1, 136);
    tree.remove(1);
    let result = collect_range(&tree, RangeBound::Included(1), RangeBound::Excluded(2));
    let expected: Vec<(u64, u64)> = Vec::new();
    assert_eq!(expected, result);
}

#[test]
fn mod_range_with_deleted_max() {
    let mut tree: PalmTree = PalmTree::new();
    tree.insert(0, 0);
    tree.insert(1, 136);
    tree.remove(1);
    let result = collect_range(&tree, RangeBound::Included(1), RangeBound::Excluded(2));
    let expected: Vec<(u64, u64)> = Vec::new();
    assert_eq!(expected, result);
    assert_eq!(vec![(0, 0)], collect_iter(&tree));
}

#[test]
fn iter_iterate_over_emptied_tree() {
    let mut tree: PalmTree = PalmTree::new();
    tree.insert(0, 0);
    tree.remove(0);
    let result = collect_iter(&tree);
    let expected: Vec<(u64, u64)> = Vec::new();
    assert_eq!(expected, result);
}

#[test]
fn mod_iterate_over_emptied_tree() {
    let mut tree: PalmTree = PalmTree::new();
    tree.insert(0, 0);
    tree.remove(0);
    let result = collect_iter(&tree);
    let expected: Vec<(u64, u64)> = Vec::new();
    assert_eq!(expected, result);
}

#[test]
fn iter_closing_bound_lies_past_target_leaf() {
    let input = fixed_two_leaf_input();
    let tree = PalmTree::load(input.clone());
    let result = collect_range(&tree, RangeBound::Unbounded, RangeBound::Excluded(253));
    let mut expected: Vec<(u64, u64)> = Vec::new();
    for e in input.iter() {
        if e.0 < 253 {
            expected.push(*e);
        }
    }
    assert_eq!(expected, result);
}

#[test]
fn mod_closing_bound_lies_past_target_leaf() {
    let input = fixed_two_leaf_input();
    let tree = PalmTree::load(input.clone());
    let result = collect_range(&tree, RangeBound::Unbounded, RangeBound::Excluded(253));
    let mut expected: Vec<(u64, u64)> = Vec::new();
    for e in input.iter() {
        if e.0 < 253 {
            expected.push(*e);
        }
    }
    assert_eq!(expected, result);
}

#[test]
fn double_ended_meet_without_overlap() {
    let tree = PalmTree::load(ascending(100));
    let mut it = tree.iter();
    let mut front: Vec<(u64, u64)> = Vec::new();
    let mut back: Vec<(u64, u64)> = Vec::new();
    let mut take_front: bool = true;
    loop {
        if take_front {
            match it.next() {
                Some(e) => front.push(e),
                None => break,
            }
        } else {
            match it.next_back() {
                Some(e) => back.push(e),
                None => break,
            }
        }
        take_front = !take_front;
    }
    back.reverse();
    front.extend(back);
    assert_eq!(ascending(100), front);
}

#[test]
fn owned_iter_reports_exact_size() {
    let tree = PalmTree::load(ascending(10));
    let mut it = tree.into_iter();
    assert_eq!(10, it.len());
    it.next();
    it.next_back();
    assert_eq!(8, it.len());
}

#[test]
fn iter_len_tracks_window() {
    let tree = PalmTree::load(ascending(10));
    let mut it = tree.iter();
    assert_eq!(10, it.len());
    it.next();
    it.next_back();
    assert_eq!(8, it.len());
}

#[test]
fn collect_rev_is_reversed_collect() {
    let tree = PalmTree::load(ascending(1000));
    let forward = tree.iter().collect();
    let mut backward = tree.iter().collect_rev();
    backward.reverse();
    assert_eq!(forward, backward);
    assert_eq!(ascending(1000), forward);
}
