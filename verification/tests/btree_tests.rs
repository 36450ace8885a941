use btree::iter::BTreeIterator;
use btree::node::Node;
use btree::text::keys_fmt;
use btree::tree::BTree;

fn levels(b: &BTree<i64>) -> Vec<Vec<Vec<i64>>> {
    b.levels()
}

/// Checks the key counts of order `m` below `n`; gives the subtree's height.
fn check_counts(n: &Node<i64>, m: usize, is_root: bool) -> usize {
    let cap_applies = n.ns.is_empty() || m % 2 == 1;
    if cap_applies {
        assert!(n.ks.len() < m);
    }
    if !is_root {
        if n.ns.is_empty() {
            assert!(n.ks.len() >= 1);
        } else {
            assert!(n.ks.len() >= (m - 1) / 2);
        }
    }
    if n.ns.is_empty() {
        return 0;
    }
    assert_eq!(n.ns.len(), n.ks.len() + 1);
    let h = check_counts(&n.ns[0], m, false);
    for c in &n.ns {
        assert_eq!(check_counts(c, m, false), h);
    }
    h + 1
}

fn collect(mut it: BTreeIterator<'_, i64>) -> Vec<(i64, i64)> {
    let mut out = Vec::new();
    while let Some((k, v)) = it.next() {
        out.push((*k, *v));
    }
    out
}

fn build(order: usize, keys: &[i64]) -> BTree<i64> {
    let mut b = BTree::<i64>::new_with(order);
    for k in keys {
        b.insert(*k, *k);
    }
    b
}

#[test]
fn inserts_split_order_three() {
    let mut b = BTree::<i64>::new();
    b.insert(10, 10);
    b.insert(20, 20);
    assert_eq!(levels(&b), vec![vec![vec![10, 20]]]);
    b.insert(30, 30);
    assert_eq!(levels(&b), vec![vec![vec![20]], vec![vec![10], vec![30]]]);
    b.insert(25, 25);
    b.insert(15, 15);
    assert_eq!(levels(&b), vec![vec![vec![20]], vec![vec![10, 15], vec![25, 30]]]);
    b.insert(0, 0);
    assert_eq!(
        levels(&b),
        vec![vec![vec![10, 20]], vec![vec![0], vec![15], vec![25, 30]]]
    );
    b.insert(35, 35);
    assert_eq!(
        levels(&b),
        vec![
            vec![vec![20]],
            vec![vec![10], vec![30]],
            vec![vec![0], vec![15], vec![25], vec![35]]
        ]
    );
    assert_eq!(b.find(&20), Some(&20));
    assert_eq!(b.find(&100), None);
    assert_eq!(b.find(&0), Some(&0));
    assert_eq!(b.find(&1), None);
}

#[test]
fn iterates_in_key_order() {
    let b = build(3, &[10, 20, 30, 25, 15, 0, 35]);
    assert_eq!(
        collect(b.iter()),
        vec![(0, 0), (10, 10), (15, 15), (20, 20), (25, 25), (30, 30), (35, 35)]
    );
}

#[test]
fn move_to_starts_at_first_key_not_below() {
    let b = build(5, &[10, 20, 30, 25, 15, 0, 35]);
    assert_eq!(
        levels(&b),
        vec![vec![vec![20]], vec![vec![0, 10, 15], vec![25, 30, 35]]]
    );
    let keys = |from: i64| -> Vec<i64> {
        let mut it = b.iter();
        it.move_to(&from);
        collect(it).into_iter().map(|e| e.0).collect()
    };
    assert_eq!(keys(10), vec![10, 15, 20, 25, 30, 35]);
    assert_eq!(keys(30), vec![30, 35]);
    assert_eq!(keys(35), vec![35]);
    assert_eq!(keys(-1), vec![0, 10, 15, 20, 25, 30, 35]);
    assert_eq!(keys(13), vec![15, 20, 25, 30, 35]);
    assert_eq!(keys(100), Vec::<i64>::new());
}

#[test]
fn iter_from_matches_move_to() {
    let b = build(5, &[10, 20, 30, 25, 15, 0, 35]);
    let got: Vec<i64> = collect(b.iter_from(&20)).into_iter().map(|e| e.0).collect();
    assert_eq!(got, vec![20, 25, 30, 35]);
    let got: Vec<i64> = collect(b.iter_from(&21)).into_iter().map(|e| e.0).collect();
    assert_eq!(got, vec![25, 30, 35]);
    let empty = BTree::<i64>::new();
    assert_eq!(collect(empty.iter_from(&0)), vec![]);
}

#[test]
fn inserts_split_order_five() {
    let mut b = BTree::<i64>::new_with(5);
    for k in [10, 20, 30, 25] {
        b.insert(k, k);
    }
    assert_eq!(levels(&b), vec![vec![vec![10, 20, 25, 30]]]);
    b.insert(15, 15);
    assert_eq!(levels(&b), vec![vec![vec![20]], vec![vec![10, 15], vec![25, 30]]]);
    for k in [0, 35, 40, -20] {
        b.insert(k, k);
    }
    assert_eq!(
        levels(&b),
        vec![vec![vec![20]], vec![vec![-20, 0, 10, 15], vec![25, 30, 35, 40]]]
    );
    b.insert(-10, -10);
    assert_eq!(
        levels(&b),
        vec![
            vec![vec![0, 20]],
            vec![vec![-20, -10], vec![10, 15], vec![25, 30, 35, 40]]
        ]
    );
    assert_eq!(b.find(&20), Some(&20));
    assert_eq!(b.find(&100), None);
    assert_eq!(b.find(&0), Some(&0));
    assert_eq!(b.find(&1), None);
}

#[test]
fn is_empty_reports_entries() {
    let mut b = BTree::<i64>::new_with(5);
    assert!(b.is_empty());
    b.insert(10, 10);
    assert!(!b.is_empty());
    assert_eq!(b.remove(&10), Some(10));
    assert!(b.is_empty());
}

#[test]
fn remove_merges_leaves() {
    let mut b = build(3, &[10, 20, 30, 40]);
    assert_eq!(levels(&b), vec![vec![vec![20]], vec![vec![10], vec![30, 40]]]);
    assert_eq!(b.remove(&20), Some(20));
    assert_eq!(levels(&b), vec![vec![vec![30]], vec![vec![10], vec![40]]]);
}

#[test]
fn remove_borrows_and_merges() {
    let mut b = build(5, &[100, 200, 300, 400, 10, 20, 30, 40, 90, 80, 70, 60]);
    assert_eq!(
        levels(&b),
        vec![
            vec![vec![30, 80, 200]],
            vec![vec![10, 20], vec![40, 60, 70], vec![90, 100], vec![300, 400]]
        ]
    );
    assert_eq!(b.remove(&20), Some(20));
    assert_eq!(b.remove(&400), Some(400));
    assert_eq!(b.remove(&400), None);
    assert_eq!(
        levels(&b),
        vec![
            vec![vec![30, 80, 200]],
            vec![vec![10], vec![40, 60, 70], vec![90, 100], vec![300]]
        ]
    );
    for k in [50, 51, 61, 71, 75, 78] {
        b.insert(k, k);
    }
    assert_eq!(
        levels(&b),
        vec![
            vec![vec![70]],
            vec![vec![30, 51], vec![80, 200]],
            vec![
                vec![10],
                vec![40, 50],
                vec![60, 61],
                vec![71, 75, 78],
                vec![90, 100],
                vec![300]
            ]
        ]
    );
    assert_eq!(b.remove(&10), Some(10));
    assert_eq!(
        levels(&b),
        vec![
            vec![vec![70]],
            vec![vec![40, 51], vec![80, 200]],
            vec![
                vec![30],
                vec![50],
                vec![60, 61],
                vec![71, 75, 78],
                vec![90, 100],
                vec![300]
            ]
        ]
    );
    assert_eq!(b.remove(&300), Some(300));
    assert_eq!(
        levels(&b),
        vec![
            vec![vec![70]],
            vec![vec![40, 51], vec![80, 100]],
            vec![
                vec![30],
                vec![50],
                vec![60, 61],
                vec![71, 75, 78],
                vec![90],
                vec![200]
            ]
        ]
    );
}

#[test]
fn find_pos_on_a_long_node() {
    let mut n = Node::<i64>::new(11);
    for i in 0..12 {
        n.insert(i, i, 11);
    }
    assert_eq!(n.ks, (0..12).collect::<Vec<i64>>());
    assert_eq!(n.find_pos(&-100), (0, false));
    assert_eq!(n.find_pos(&0), (0, true));
    assert_eq!(n.find_pos(&4), (4, true));
    assert_eq!(n.find_pos(&7), (7, true));
    assert_eq!(n.find_pos(&11), (11, true));
    assert_eq!(n.find_pos(&100), (12, false));
}

#[test]
fn find_pos_between_keys() {
    let mut n = Node::<i64>::new(20);
    for i in 0..10 {
        n.insert(i * 10, i, 20);
    }
    assert_eq!(n.find_pos(&5), (1, false));
    assert_eq!(n.find_pos(&45), (5, false));
    assert_eq!(n.find_pos(&55), (6, false));
    assert_eq!(n.find_pos(&90), (9, true));
    assert_eq!(n.find_pos(&91), (10, false));
    let mut small = Node::<i64>::new(20);
    for i in 0..3 {
        small.insert(i * 10, i, 20);
    }
    assert_eq!(small.find_pos(&15), (2, false));
    assert_eq!(small.find_pos(&20), (2, true));
}

#[test]
fn linear_searches_scan_a_range() {
    let mut n = Node::<i64>::new(20);
    for i in 0..10 {
        n.insert(i * 10, i, 20);
    }
    assert_eq!(n.linear_search(&35, 0, 10), (4, false));
    assert_eq!(n.linear_search(&40, 2, 6), (4, true));
    assert_eq!(n.linear_search(&100, 2, 6), (6, false));
    assert_eq!(n.linear_search(&0, 3, 6), (3, false));
    assert_eq!(n.linear_search_reverse(&35, 0, 10), (4, false));
    assert_eq!(n.linear_search_reverse(&40, 2, 6), (4, true));
    assert_eq!(n.linear_search_reverse(&100, 2, 6), (6, false));
    assert_eq!(n.linear_search_reverse(&5, 2, 6), (0, false));
}

#[test]
fn insert_overwrites_a_key_in_an_inner_node() {
    let mut b = build(3, &[10, 20, 30]);
    assert_eq!(levels(&b), vec![vec![vec![20]], vec![vec![10], vec![30]]]);
    b.insert(20, 99);
    assert_eq!(levels(&b), vec![vec![vec![20]], vec![vec![10], vec![30]]]);
    assert_eq!(b.find(&20), Some(&99));
    assert_eq!(collect(b.iter()), vec![(10, 10), (20, 99), (30, 30)]);
}

#[test]
fn insert_overwrites_a_key_in_a_leaf() {
    let mut b = build(5, &[1, 2, 3]);
    b.insert(2, 7);
    assert_eq!(b.find(&2), Some(&7));
    assert_eq!(collect(b.iter()), vec![(1, 1), (2, 7), (3, 3)]);
}

#[test]
fn find_after_insert_law() {
    let mut b = build(4, &[5, 1, 9, 3, 7, 2, 8]);
    b.insert(6, 60);
    assert_eq!(b.find(&6), Some(&60));
    for k in [5, 1, 9, 3, 7, 2, 8] {
        assert_eq!(b.find(&k), Some(&k));
    }
    assert_eq!(b.find(&4), None);
}

#[test]
fn remove_undoes_insert_law() {
    let mut b = build(3, &[5, 1, 9, 3, 7, 2, 8]);
    let before = collect(b.iter());
    b.insert(4, 40);
    assert_eq!(b.remove(&4), Some(40));
    assert_eq!(collect(b.iter()), before);
    assert_eq!(b.remove(&4), None);
    assert_eq!(collect(b.iter()), before);
}

#[test]
fn insert_order_irrelevant_law() {
    let a = build(3, &[1, 2, 3, 4, 5, 6, 7, 8]);
    let b = build(3, &[8, 7, 6, 5, 4, 3, 2, 1]);
    assert_eq!(collect(a.iter()), collect(b.iter()));
}

#[test]
fn entries_are_the_map_law() {
    let mut b = BTree::<i64>::new_with(4);
    let mut x: i64 = 17;
    for _ in 0..200 {
        x = (x * 37 + 11) % 101;
        b.insert(x, x * 2);
    }
    for _ in 0..60 {
        x = (x * 37 + 11) % 101;
        b.remove(&x);
    }
    let entries = collect(b.iter());
    for w in entries.windows(2) {
        assert!(w[0].0 < w[1].0);
    }
    for (k, v) in &entries {
        assert_eq!(b.find(k), Some(v));
    }
    for k in 0..101 {
        assert_eq!(b.find(&k).is_some(), entries.iter().any(|e| e.0 == k));
    }
}

#[test]
fn remove_everything_in_many_orders() {
    for order in 3..8 {
        let keys: Vec<i64> = (0..60).map(|i| (i * 23) % 60).collect();
        let mut b = build(order, &keys);
        for (n, k) in keys.iter().rev().enumerate() {
            assert_eq!(b.remove(k), Some(*k));
            assert_eq!(collect(b.iter()).len(), keys.len() - n - 1);
        }
        assert!(b.is_empty());
    }
}

#[test]
fn split_halves_a_full_node() {
    let mut n = Node::<i64>::new(5);
    for i in 1..6 {
        n.insert(i, i * 10, 5);
    }
    let (k, v, r) = n.split(5);
    assert_eq!((k, v), (3, 30));
    assert_eq!(n.ks, vec![1, 2]);
    assert_eq!(n.vs, vec![10, 20]);
    assert_eq!(r.ks, vec![4, 5]);
    assert_eq!(r.vs, vec![40, 50]);
}

#[test]
fn split_child_lifts_the_middle_key() {
    let mut b = build(5, &[10, 20, 30, 40, 50, 60, 70]);
    assert_eq!(levels(&b), vec![vec![vec![30]], vec![vec![10, 20], vec![40, 50, 60, 70]]]);
    b.root.ns[1].ks.push(80);
    b.root.ns[1].vs.push(80);
    b.root.split_child(1, 5);
    assert_eq!(
        levels(&b),
        vec![vec![vec![30, 60]], vec![vec![10, 20], vec![40, 50], vec![70, 80]]]
    );
}

#[test]
fn borrow_ends_of_a_node() {
    let mut n = Node::<i64>::new(5);
    for i in 1..4 {
        n.insert(i, i * 10, 5);
    }
    assert!(n.can_borrow(5));
    let (k, v, c) = n.borrow_left_most();
    assert_eq!((k, v, c.is_none()), (1, 10, true));
    let (k, v, c) = n.borrow_right_most();
    assert_eq!((k, v, c.is_none()), (3, 30, true));
    assert_eq!(n.ks, vec![2]);
    assert!(!n.can_borrow(5));
}

#[test]
fn remove_right_most_takes_the_largest() {
    let mut b = build(3, &[1, 2, 3, 4, 5, 6, 7]);
    let (k, v, _) = b.root.remove_right_most(3);
    assert_eq!((k, v), (7, 7));
    let keys: Vec<i64> = collect(b.iter()).into_iter().map(|e| e.0).collect();
    assert_eq!(keys, vec![1, 2, 3, 4, 5, 6]);
}

#[test]
fn node_level_remove_and_find() {
    let mut n = Node::<i64>::new(5);
    for i in 1..4 {
        n.insert(i, i * 10, 5);
    }
    assert!(n.is_leaf());
    assert_eq!(n.find(&2), Some(&20));
    assert_eq!(n.remove(&2, 5), (Some(20), false));
    assert_eq!(n.remove(&2, 5), (None, false));
    assert_eq!(n.find(&2), None);
    assert_eq!(n.remove(&1, 5), (Some(10), false));
    assert_eq!(n.remove(&3, 5), (Some(30), true));
    assert!(n.is_empty());
}

#[test]
fn key_counts_stay_within_the_order() {
    for order in 3..9usize {
        let mut b = BTree::<i64>::new_with(order);
        let mut x: i64 = 7;
        for step in 0..1500 {
            x = (x * 73 + 19) % 211;
            if step % 5 < 3 {
                b.insert(x, x);
            } else {
                b.remove(&x);
            }
            check_counts(&b.root, order, true);
        }
    }
}

#[test]
fn removing_an_absent_key_changes_nothing() {
    let mut b = build(5, &[100, 200, 300, 400, 10, 20, 30, 40, 90, 80, 70, 60]);
    let before_levels = levels(&b);
    let before = collect(b.iter());
    assert_eq!(b.remove(&55), None);
    assert_eq!(levels(&b), before_levels);
    assert_eq!(collect(b.iter()), before);
}

#[test]
fn orders_one_and_two_build_trees_with_empty_nodes() {
    for order in 1..3usize {
        let b = BTree::<i64>::new_with(order);
        assert_eq!(b.m, order);
        assert!(b.is_empty());
        assert_eq!(b.find(&3), None);
        assert_eq!(collect(b.iter()), vec![]);
        assert_eq!(levels(&b), vec![vec![Vec::<i64>::new()]]);
    }
    let b = build(1, &[10, 20, 30, 40, 50]);
    assert_eq!(
        levels(&b),
        vec![vec![vec![10, 20, 30, 40, 50]], vec![vec![]; 6]]
    );
    assert_eq!(collect(b.iter()), vec![(10, 10), (20, 20), (30, 30), (40, 40), (50, 50)]);
    assert_eq!(b.find(&30), Some(&30));
    let b = build(2, &[10, 20, 30, 40, 50]);
    assert_eq!(
        levels(&b),
        vec![
            vec![vec![40]],
            vec![vec![20], vec![]],
            vec![vec![10], vec![30], vec![50]]
        ]
    );
    assert_eq!(collect(b.iter()), vec![(10, 10), (20, 20), (30, 30), (40, 40), (50, 50)]);
    assert_eq!(b.find(&50), Some(&50));
    assert_eq!(b.find(&45), None);
}

#[test]
fn insert_splits_the_root_at_the_middle_key() {
    let mut b = BTree::<i64>::new_with(3);
    b.insert(10, 10);
    b.insert(20, 20);
    assert_eq!(levels(&b), vec![vec![vec![10, 20]]]);
    b.insert(30, 30);
    assert_eq!(levels(&b), vec![vec![vec![20]], vec![vec![10], vec![30]]]);
    b.insert(40, 40);
    assert_eq!(levels(&b), vec![vec![vec![20]], vec![vec![10], vec![30, 40]]]);
}

#[test]
fn node_insert_reports_growth_to_the_order() {
    let mut n = Node::<i64>::new(3);
    assert!(!n.insert(5, 5, 3));
    assert!(!n.insert(7, 7, 3));
    assert!(n.insert(6, 6, 3));
    assert_eq!(n.ks, vec![5, 6, 7]);
    // overwriting does not grow the node
    assert!(!n.insert(6, 60, 3));
    assert_eq!(n.vs, vec![5, 60, 7]);
}

#[test]
fn keys_fmt_writes_a_key_list() {
    assert_eq!(keys_fmt(&vec![]), "[]");
    assert_eq!(keys_fmt(&vec![20]), "[20]");
    assert_eq!(keys_fmt(&vec![30, 40]), "[30,40]");
    assert_eq!(keys_fmt(&vec![-7, 0, 12]), "[-7,0,12]");
}

#[test]
fn refilling_keeps_every_child_within_the_order() {
    // order 5: a leaf one key short borrows from a sibling that can lend
    let mut b = build(5, &[10, 20, 30, 40, 50, 60]);
    assert_eq!(levels(&b), vec![vec![vec![30]], vec![vec![10, 20], vec![40, 50, 60]]]);
    assert_eq!(b.remove(&10), Some(10));
    assert_eq!(levels(&b), vec![vec![vec![30]], vec![vec![20], vec![40, 50, 60]]]);
    b.root.ns[0].ks.remove(0);
    b.root.ns[0].vs.remove(0);
    b.root.borrow_or_merge_from_right(0, 5);
    assert_eq!(levels(&b), vec![vec![vec![40]], vec![vec![30], vec![50, 60]]]);
    assert_eq!(b.remove(&60), Some(60));
    assert_eq!(levels(&b), vec![vec![vec![40]], vec![vec![30], vec![50]]]);
    // now the right sibling cannot lend: the two merge around the separator
    b.root.ns[0].ks.remove(0);
    b.root.ns[0].vs.remove(0);
    b.root.borrow_or_merge_from_right(0, 5);
    assert_eq!(b.root.ks, Vec::<i64>::new());
    assert_eq!(b.root.ns.len(), 1);
    assert_eq!(b.root.ns[0].ks, vec![40, 50]);
}

#[test]
fn fmt_writes_keys_in_brackets() {
    let mut n = Node::<i64>::new(20);
    assert_eq!(n.fmt(), "[]");
    n.insert(-15, 0, 20);
    assert_eq!(n.fmt(), "[-15]");
    n.insert(0, 0, 20);
    n.insert(1234567, 0, 20);
    n.insert(i64::MIN, 0, 20);
    n.insert(i64::MAX, 0, 20);
    assert_eq!(
        n.fmt(),
        "[-9223372036854775808,-15,0,1234567,9223372036854775807]"
    );
}

#[test]
fn remove_flags_an_inner_node_that_falls_below_half() {
    let mut b = build(5, &[10, 20, 30, 40, 50]);
    assert_eq!(levels(&b), vec![vec![vec![30]], vec![vec![10, 20], vec![40, 50]]]);
    // the leaf keeps a key: nothing to report
    assert_eq!(b.root.remove(&10, 5), (Some(10), false));
    // the emptied leaf borrows; the root, left with one key (< 5 / 2), reports it
    assert_eq!(b.root.remove(&20, 5), (Some(20), true));
    assert_eq!(levels(&b), vec![vec![vec![40]], vec![vec![30], vec![50]]]);
}

#[test]
fn levels_lists_every_node() {
    let b = build(3, &[10, 20, 30, 25, 15, 0, 35]);
    assert_eq!(
        b.levels(),
        vec![
            vec![vec![20]],
            vec![vec![10], vec![30]],
            vec![vec![0], vec![15], vec![25], vec![35]]
        ]
    );
}

#[test]
fn even_order_merge_can_fill_an_inner_node() {
    let mut b = build(4, &[9, 21, 29, 12, 18, 24, 11, 22, 2, 23, 6]);
    assert_eq!(b.remove(&29), Some(29));
    assert_eq!(
        levels(&b),
        vec![vec![vec![9, 12, 21, 23]], vec![vec![2, 6], vec![11], vec![18], vec![22], vec![24]]]
    );
    for k in [25, 26, 27] {
        b.insert(k, k);
    }
    assert_eq!(
        levels(&b),
        vec![
            vec![vec![9, 12, 21, 23, 26]],
            vec![vec![2, 6], vec![11], vec![18], vec![22], vec![24, 25], vec![27]]
        ]
    );
}

#[test]
fn remove_through_a_keyless_inner_node() {
    let mut n = Node::<i64>::new(5);
    let mut c = Node::<i64>::new(5);
    for k in [10, 20, 30] {
        c.insert(k, k, 5);
    }
    n.ns.push(c);
    assert_eq!(n.remove(&20, 5), (Some(20), false));
    assert_eq!(n.ks, Vec::<i64>::new());
    assert_eq!(n.ns.len(), 1);
    assert_eq!(n.ns[0].ks, vec![10, 30]);
    assert_eq!(n.remove(&25, 5), (None, false));
    assert_eq!(n.ns[0].ks, vec![10, 30]);
}

#[test]
fn is_keyed_spots_empty_nodes() {
    assert!(build(3, &[10, 20, 30, 40, 50]).is_keyed());
    assert!(build(2, &[10]).is_keyed());
    assert!(!build(2, &[10, 20]).is_keyed());
    assert!(!build(1, &[10]).is_keyed());
}

#[test]
fn remove_from_a_tree_with_an_empty_leaf() {
    let mut b = build(2, &[10, 20]);
    assert_eq!(levels(&b), vec![vec![vec![20]], vec![vec![10], vec![]]]);
    assert_eq!(b.remove(&10), Some(10));
    assert_eq!(levels(&b), vec![vec![vec![20]]]);
    assert_eq!(collect(b.iter()), vec![(20, 20)]);
}
