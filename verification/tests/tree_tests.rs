use palmtree::PalmTree;

fn ascending(n: u64) -> Vec<(u64, u64)> {
    let mut v: Vec<(u64, u64)> = Vec::new();
    let mut i: u64 = 0;
    while i < n {
        v.push((i, i));
        i += 1;
    }
    v
}

fn collect_iter(tree: &PalmTree) -> Vec<(u64, u64)> {
    let mut it = tree.iter();
    let mut out: Vec<(u64, u64)> = Vec::new();
    while let Some(e) = it.next() {
        out.push(e);
    }
    out
}

#[test]
fn lookup_empty() {
    let tree: PalmTree = PalmTree::new();
    assert_eq!(None, tree.get(1337));
}

#[test]
fn lookup_single() {
    let mut tree: PalmTree = PalmTree::new();
    tree.insert(1337, 31337);
    assert_eq!(None, tree.get(1336));
    assert_eq!(Some(31337), tree.get(1337));
    assert_eq!(None, tree.get(1338));
}

#[test]
fn insert_in_sequence() {
    let mut tree: PalmTree = PalmTree::new();
    let iters: u64 = 131_072;
    let mut i: u64 = 0;
    while i < iters {
        tree.insert(i, i);
        i += 1;
    }
    let mut j: u64 = 0;
    while j < iters {
        assert_eq!(Some(j), tree.get(j));
        j += 1;
    }
}

#[test]
fn load_from_ordered_stream() {
    let size: u64 = 131_072;
    let tree = PalmTree::load(ascending(size));
    let mut i: u64 = 0;
    while i < size {
        assert_eq!(Some(i), tree.get(i));
        i += 1;
    }
}

#[test]
fn delete_delete_delete() {
    let mut tree = PalmTree::load(ascending(131_072));
    let mut i: u64 = 31337;
    while i < 41337 {
        assert_eq!(Some((i, i)), tree.remove(i));
        assert_eq!(None, tree.remove(i));
        i += 1;
    }
}

#[test]
fn small_delete() {
    let mut tree = PalmTree::load(ascending(64));
    assert_eq!(Some((0, 0)), tree.remove(0));
    assert_eq!(None, tree.remove(0));
}

#[test]
fn insert_into_emptied_tree() {
    let mut tree: PalmTree = PalmTree::new();
    tree.insert(0, 0);
    tree.remove(0);
    tree.insert(0, 0);
    tree.insert(10, 10);

    let result: Vec<(u64, u64)> = collect_iter(&tree);
    let expected: Vec<(u64, u64)> = vec![(0, 0), (10, 10)];
    assert_eq!(expected, result);
    assert_eq!(2, tree.len());
}

#[test]
fn ordered_load_point_get() {
    let size: u64 = 131_072;
    let tree = PalmTree::load(ascending(size));
    let mut i: u64 = 0;
    while i < size {
        assert_eq!(Some(i), tree.get(i));
        i += 1;
    }
    assert_eq!(None, tree.get(size));
    assert_eq!(size as usize, tree.len());
}

#[test]
fn delete_middle_range_then_iterate() {
    let size: u64 = 131_072;
    let mut tree = PalmTree::load(ascending(size));
    let mut i: u64 = 31337;
    while i < 41337 {
        assert_eq!(Some((i, i)), tree.remove(i));
        assert_eq!(None, tree.remove(i));
        i += 1;
    }
    assert_eq!((size as usize) - 10_000, tree.len());
    let result: Vec<(u64, u64)> = collect_iter(&tree);
    let mut expected: Vec<(u64, u64)> = Vec::new();
    let mut j: u64 = 0;
    while j < size {
        if !(31337 <= j && j < 41337) {
            expected.push((j, j));
        }
        j += 1;
    }
    assert_eq!(expected, result);
}

#[test]
fn replace_value_returns_previous() {
    let mut tree: PalmTree = PalmTree::new();
    assert_eq!(None, tree.insert(7, 1));
    assert_eq!(Some(1), tree.insert(7, 2));
    assert_eq!(Some(2), tree.get(7));
    assert_eq!(1, tree.len());
    let entries: Vec<(u64, u64)> = collect_iter(&tree);
    assert_eq!(vec![(7, 2)], entries);
}

#[test]
fn insert_then_remove_restores_map() {
    let mut tree = PalmTree::load(ascending(100));
    let before: Vec<(u64, u64)> = collect_iter(&tree);
    assert_eq!(None, tree.insert(1_000_000, 5));
    assert_eq!(101, tree.len());
    assert_eq!(Some((1_000_000, 5)), tree.remove(1_000_000));
    assert_eq!(100, tree.len());
    let after: Vec<(u64, u64)> = collect_iter(&tree);
    assert_eq!(before, after);
}

#[test]
fn size_matches_iteration() {
    let mut tree = PalmTree::load(ascending(1000));
    tree.remove(5);
    tree.remove(500);
    tree.insert(2000, 1);
    let entries: Vec<(u64, u64)> = collect_iter(&tree);
    assert_eq!(entries.len(), tree.len());
    let mut i: usize = 1;
    while i < entries.len() {
        assert!(entries[i - 1].0 < entries[i].0);
        i += 1;
    }
}

#[test]
fn remove_lowest_and_highest() {
    let mut tree = PalmTree::load(ascending(10));
    assert_eq!(Some((0, 0)), tree.remove_lowest());
    assert_eq!(Some((9, 9)), tree.remove_highest());
    assert_eq!(8, tree.len());
    let mut empty: PalmTree = PalmTree::new();
    assert_eq!(None, empty.remove_lowest());
    assert_eq!(None, empty.remove_highest());
}

#[test]
fn delete_last_then_reinsert() {
    let mut tree: PalmTree = PalmTree::new();
    tree.insert(42, 7);
    assert_eq!(Some((42, 7)), tree.remove(42));
    assert_eq!(0, tree.len());
    assert!(tree.is_empty());
    assert_eq!(None, tree.insert(42, 8));
    assert_eq!(1, tree.len());
    assert_eq!(Some(8), tree.get(42));
}

#[test]
fn load_round_trip() {
    let mut tree: PalmTree = PalmTree::new();
    tree.insert(3, 30);
    tree.insert(1, 10);
    tree.insert(2, 20);
    tree.remove(1);
    let entries = tree.to_vec();
    let reloaded = PalmTree::load(entries.clone());
    assert_eq!(entries, reloaded.to_vec());
    assert_eq!(tree.len(), reloaded.len());
}

#[test]
fn get_linear_matches_get() {
    let tree = PalmTree::load(ascending(300));
    let mut i: u64 = 0;
    while i < 305 {
        assert_eq!(tree.get(i), tree.get_linear(i));
        i += 1;
    }
}

#[test]
fn insert_recursive_matches_insert() {
    let mut a: PalmTree = PalmTree::new();
    let mut b: PalmTree = PalmTree::new();
    let mut i: u64 = 0;
    while i < 500 {
        let k: u64 = (i * 37) % 101;
        assert_eq!(a.insert(k, i), b.insert_recursive(k, i));
        i += 1;
    }
    assert_eq!(a.to_vec(), b.to_vec());
}

#[test]
fn get_mut_overwrites_in_place() {
    let mut tree = PalmTree::load(ascending(100));
    if let Some(p) = tree.get_mut(40) {
        *p = 999;
    }
    assert_eq!(Some(999), tree.get(40));
    assert_eq!(Some(39), tree.get(39));
    assert_eq!(Some(41), tree.get(41));
    assert_eq!(100, tree.len());
    assert!(tree.get_mut(200).is_none());
}

#[test]
fn duplicate_preserves_map() {
    let mut tree = PalmTree::load(ascending(50));
    tree.remove(10);
    let copy = tree.duplicate();
    assert_eq!(tree.to_vec(), copy.to_vec());
    assert_eq!(tree.len(), copy.len());
}

#[test]
fn from_entries_unsorted_input() {
    let v: Vec<(u64, u64)> = vec![(5, 50), (1, 10), (5, 55), (3, 30)];
    let tree = PalmTree::from_entries(v);
    assert_eq!(vec![(1, 10), (3, 30), (5, 55)], tree.to_vec());
    assert_eq!(3, tree.len());
}

#[test]
fn from_entries_sorted_matches_load() {
    let v = ascending(200);
    let a = PalmTree::from_entries(v.clone());
    let b = PalmTree::load(v);
    assert_eq!(a.to_vec(), b.to_vec());
}
