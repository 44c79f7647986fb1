use playground::rb_node::{Color, RBTreeNode};
use playground::red_black_tree;
use playground::tree;

fn shuffled(n: u32) -> Vec<u32> {
    // a fixed permutation of 1..=n: the multiples of 37 modulo a prime above n
    let prime = 101;
    assert!(n < prime);
    (1..prime).map(|i| i * 37 % prime).filter(|v| *v <= n).collect()
}

#[test]
fn red_black_tree_insert_and_lookup() {
    let mut set = red_black_tree::RBTreeSet::<i32>::new();
    assert!(set.is_empty());
    assert_eq!(set.len(), 0);
    for v in [10, 5, 15, 3, 7, 20] {
        assert_eq!(set.contains(&v), false);
        assert_eq!(set.get(&v), None);
        assert_eq!(set.insert(v), true);
        assert_eq!(set.contains(&v), true);
        assert_eq!(set.get(&v), Some(&v));
    }
    assert_eq!(set.len(), 6);
    assert_eq!(set.insert(7), false);
    assert_eq!(set.len(), 6);
    assert!(!set.is_empty());
    set.clear();
    assert_eq!(set.len(), 0);
    assert_eq!(set.contains(&10), false);
    assert_eq!(set.get(&10), None);
}

#[test]
fn red_black_tree_stays_balanced_on_sequential_numbers() {
    let mut set = red_black_tree::RBTreeSet::<u32>::new();
    for n in 1..=7 {
        assert!(set.insert(n));
    }
    let rows = set.rows();
    let drawn: Vec<(String, Option<(Color, u32)>)> =
        rows.into_iter().map(|(p, v)| (p, v.map(|(c, v)| (c, *v)))).collect();
    let expected = vec![
        ("`- ".to_string(), Some((Color::Black, 4))),
        ("   |- ".to_string(), Some((Color::Black, 2))),
        ("   |  |- ".to_string(), Some((Color::Black, 1))),
        ("   |  `- ".to_string(), Some((Color::Black, 3))),
        ("   `- ".to_string(), Some((Color::Black, 6))),
        ("      |- ".to_string(), Some((Color::Black, 5))),
        ("      `- ".to_string(), Some((Color::Black, 7))),
    ];
    assert!(
        drawn == expected,
        "{:?}",
        drawn
            .iter()
            .map(|r| format!("{}{:?}", r.0, r.1.map(|(c, v)| (c == Color::Red, v))))
            .collect::<Vec<_>>()
    );
}

#[test]
fn red_black_tree_holds_what_was_inserted() {
    let mut set = red_black_tree::RBTreeSet::<u32>::new();
    for v in shuffled(50) {
        assert!(set.insert(v));
    }
    assert_eq!(set.len(), 50);
    for v in 1..=50 {
        assert!(set.contains(&v));
        assert!(!set.insert(v));
    }
    assert!(!set.contains(&0));
    assert!(!set.contains(&51));
    // no red node has a red child
    let rows = set.rows();
    for window in rows.windows(2) {
        if let (Some((Color::Red, _)), Some((Color::Red, _))) = (window[0].1, window[1].1) {
            assert!(window[1].0.len() <= window[0].0.len(), "a red node below a red node");
        }
    }
}

#[test]
fn tree_red_black_insert_and_lookup() {
    let mut set = tree::RBTreeSet::<i32>::new();
    assert!(set.is_empty());
    for v in [10, 5, 15, 3, 7, 20] {
        assert_eq!(set.contains(&v), false);
        assert_eq!(set.insert(v), true);
        assert_eq!(set.get(&v), Some(&v));
    }
    assert_eq!(set.len(), 6);
    assert_eq!(set.insert(3), false);
    assert_eq!(set.len(), 6);
    assert_eq!(tree::check_for_debug(&set), Ok(()));
    set.clear();
    assert!(set.is_empty());
    assert_eq!(set.get(&3), None);
}

#[test]
fn tree_red_black_is_rebalanced() {
    let mut set = tree::RBTreeSet::<u32>::new();
    for n in 1..=3 {
        assert!(set.insert(n));
    }
    let rows = set.rows();
    let drawn: Vec<(String, Option<(Color, u32)>)> =
        rows.into_iter().map(|(p, v)| (p, v.map(|(c, v)| (c, *v)))).collect();
    assert!(
        drawn
            == vec![
                ("`- ".to_string(), Some((Color::Black, 2))),
                ("   |- ".to_string(), Some((Color::Black, 1))),
                ("   `- ".to_string(), Some((Color::Black, 3))),
            ]
    );
    for v in shuffled(60) {
        set.insert(v);
    }
    assert_eq!(set.len(), 60);
    for v in 1..=60 {
        assert!(set.contains(&v));
    }
    assert_eq!(tree::check_for_debug(&set), Ok(()));
}

#[test]
fn tree_binary_set_is_drawn() {
    let mut set = tree::BTreeSet::<u32>::new();
    let rows = set.rows();
    assert_eq!(rows, vec![("`- ".to_string(), None)]);
    for v in [2, 1, 4, 3] {
        set.insert(v);
    }
    let rows = set.rows();
    assert_eq!(
        rows,
        vec![
            ("`- ".to_string(), Some(&2)),
            ("   |- ".to_string(), Some(&1)),
            ("   `- ".to_string(), Some(&4)),
            ("      |- ".to_string(), Some(&3)),
            ("      `- ".to_string(), None),
        ]
    );
}

fn leaf(color: Color, value: u32) -> Option<Box<RBTreeNode<u32>>> {
    Some(Box::new(RBTreeNode { color, value, left: None, right: None }))
}

#[test]
fn rotations_and_patterns() {
    let mut t = Some(Box::new(RBTreeNode {
        color: Color::Black,
        value: 3,
        left: Some(Box::new(RBTreeNode {
            color: Color::Red,
            value: 2,
            left: leaf(Color::Red, 1),
            right: None,
        })),
        right: None,
    }));
    assert!(tree::pattern(&t, &1) == Some(tree::Pattern::LL));
    assert!(tree::pattern(&t, &2) == None);
    assert!(tree::pattern(&t, &4) == None);
    assert!(tree::balance(&mut t, &1));
    let top = t.as_ref().unwrap();
    assert!(top.value == 2 && top.color == Color::Red);
    assert!(top.left.as_ref().unwrap().value == 1 && top.left.as_ref().unwrap().color == Color::Black);
    assert!(top.right.as_ref().unwrap().value == 3 && top.right.as_ref().unwrap().color == Color::Black);
    assert!(!tree::balance(&mut t, &1));
    tree::rotate_left(&mut t);
    assert!(t.as_ref().unwrap().value == 3);
    tree::rotate_right(&mut t);
    assert!(t.as_ref().unwrap().value == 2);
    assert!(tree::insert(&mut t, RBTreeNode { color: Color::Red, value: 5, left: None, right: None }));
    assert!(!tree::insert(&mut t, RBTreeNode { color: Color::Red, value: 5, left: None, right: None }));
    // 2 -> (1, 3 -> (-, 5)); with 4 below 5 the right child has a left child
    assert!(tree::insert(&mut t, RBTreeNode { color: Color::Red, value: 4, left: None, right: None }));
    let mut right = t.as_mut().unwrap().right.take();
    tree::rotate_right_left(&mut right);
    let top = right.as_ref().unwrap();
    assert!(top.value == 4);
    assert!(top.left.as_ref().unwrap().value == 3);
    assert!(top.right.as_ref().unwrap().value == 5);
    // 4 -> (3, 5): put 2 -> (1, -) with 3 on its right side above it
    let mut zig = Some(Box::new(RBTreeNode {
        color: Color::Black,
        value: 6,
        left: Some(Box::new(RBTreeNode {
            color: Color::Red,
            value: 2,
            left: leaf(Color::Black, 1),
            right: right,
        })),
        right: None,
    }));
    assert!(tree::pattern(&zig, &4) == Some(tree::Pattern::LR));
    assert!(tree::pattern(&zig, &1) == Some(tree::Pattern::Fine));
    tree::rotate_left_right(&mut zig);
    let top = zig.as_ref().unwrap();
    assert!(top.value == 4);
    assert!(top.left.as_ref().unwrap().value == 2);
    assert!(top.right.as_ref().unwrap().value == 6);
    assert!(top.left.as_ref().unwrap().right.as_ref().unwrap().value == 3);
    assert!(top.right.as_ref().unwrap().left.as_ref().unwrap().value == 5);
}
