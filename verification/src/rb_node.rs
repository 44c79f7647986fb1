//! The nodes of the red-black trees of this crate, and the rotations that
//! both kinds of tree are built on.

use crate::order::{lemma_total_order, less, total_order};
use crate::simple_binary_tree::{indent, marker};
use std::cmp::Ordering;
use vstd::prelude::*;

verus! {

/// The colour of a node.
#[derive(Eq, PartialEq, Copy, Clone, Structural, Debug)]
pub enum Color {
    Red,
    Black,
}

/// A side of a node.
#[derive(Eq, PartialEq, Copy, Clone, Structural, Debug)]
pub enum Direction {
    Left,
    Right,
}

/// A node of a red-black tree with its two subtrees.
pub struct RBTreeNode<T> {
    pub color: Color,
    pub value: T,
    pub left: Option<Box<RBTreeNode<T>>>,
    pub right: Option<Box<RBTreeNode<T>>>,
}

/// A tree: nothing, or a node.
pub type Tree<T> = Option<Box<RBTreeNode<T>>>;

/// The values held in a tree.
pub open spec fn elements<T>(tree: Tree<T>) -> Set<T>
    decreases tree,
{
    match tree {
        None => Set::empty(),
        Some(node) => elements(node.left).union(elements(node.right)).insert(node.value),
    }
}

/// The number of nodes of a tree.
pub open spec fn size<T>(tree: Tree<T>) -> nat
    decreases tree,
{
    match tree {
        None => 0,
        Some(node) => size(node.left) + size(node.right) + 1,
    }
}

/// The number of red nodes of a tree.
pub open spec fn red_count<T>(tree: Tree<T>) -> nat
    decreases tree,
{
    match tree {
        None => 0,
        Some(node) => red_count(node.left) + red_count(node.right) + if node.color == Color::Red {
            1nat
        } else {
            0nat
        },
    }
}

/// Whether each node holds a value that comes after all values of its left
/// subtree and before all values of its right subtree.
pub open spec fn ordered<T: Ord>(tree: Tree<T>) -> bool
    decreases tree,
{
    match tree {
        None => true,
        Some(node) => {
            &&& ordered(node.left)
            &&& ordered(node.right)
            &&& forall|x: T| #[trigger] elements(node.left).contains(x) ==> less(x, node.value)
            &&& forall|x: T| #[trigger] elements(node.right).contains(x) ==> less(node.value, x)
        },
    }
}

/// A tree with the given root, written without the boxes.
pub open spec fn join<T>(color: Color, value: T, left: Tree<T>, right: Tree<T>) -> Tree<T> {
    Some(Box::new(RBTreeNode { color, value, left, right }))
}

/// The tree after a rotation to the right: the left child becomes the
/// root, the old root becomes its right child and takes over the subtree
/// that lay between the two.
pub open spec fn rotated_right<T>(tree: Tree<T>) -> Tree<T>
    recommends
        tree is Some,
        tree.unwrap().left is Some,
{
    let a = tree.unwrap();
    let b = a.left.unwrap();
    join(b.color, b.value, b.left, join(a.color, a.value, b.right, a.right))
}

/// The tree after a rotation to the left, the mirror image of
/// [`rotated_right`].
pub open spec fn rotated_left<T>(tree: Tree<T>) -> Tree<T>
    recommends
        tree is Some,
        tree.unwrap().right is Some,
{
    let a = tree.unwrap();
    let b = a.right.unwrap();
    join(b.color, b.value, join(a.color, a.value, a.left, b.left), b.right)
}

/// The tree with a red root and two black children.
pub open spec fn recolored<T>(tree: Tree<T>) -> Tree<T>
    recommends
        tree is Some,
        tree.unwrap().left is Some,
        tree.unwrap().right is Some,
{
    let top = tree.unwrap();
    let l = top.left.unwrap();
    let r = top.right.unwrap();
    join(
        Color::Red,
        top.value,
        join(Color::Black, l.value, l.left, l.right),
        join(Color::Black, r.value, r.left, r.right),
    )
}

/// The tree with a black root.
pub open spec fn blackened<T>(tree: Tree<T>) -> Tree<T>
    recommends
        tree is Some,
{
    let top = tree.unwrap();
    join(Color::Black, top.value, top.left, top.right)
}

/// An ordered tree holds as many values as it has nodes.
pub proof fn lemma_size<T: Ord>(tree: Tree<T>)
    requires
        total_order::<T>(),
        ordered(tree),
    ensures
        elements(tree).finite(),
        elements(tree).len() == size(tree),
    decreases tree,
{
    if let Some(node) = tree {
        lemma_total_order::<T>();
        lemma_size(node.left);
        lemma_size(node.right);
        let l = elements(node.left);
        let r = elements(node.right);
        assert(l.disjoint(r)) by {
            assert forall|x: T| l.contains(x) implies !r.contains(x) by {
                if r.contains(x) {
                    assert(less(x, node.value) && less(node.value, x));
                }
            }
        }
        vstd::set_lib::lemma_set_disjoint_lens(l, r);
        assert(!l.union(r).contains(node.value)) by {
            if l.contains(node.value) {
                assert(less(node.value, node.value));
            }
            if r.contains(node.value) {
                assert(less(node.value, node.value));
            }
        }
    }
}

/// A rotation to the right keeps the values, their order and the colours.
pub proof fn lemma_rotated_right<T: Ord>(tree: Tree<T>)
    requires
        total_order::<T>(),
        tree is Some,
        tree.unwrap().left is Some,
    ensures
        elements(rotated_right(tree)) == elements(tree),
        size(rotated_right(tree)) == size(tree),
        red_count(rotated_right(tree)) == red_count(tree),
        ordered(tree) ==> ordered(rotated_right(tree)),
{
    reveal_with_fuel(elements, 3);
    reveal_with_fuel(size, 3);
    reveal_with_fuel(red_count, 3);
    reveal_with_fuel(ordered, 3);
    lemma_total_order::<T>();
    let a = tree.unwrap();
    let b = a.left.unwrap();
    let inner = join(a.color, a.value, b.right, a.right);
    assert(elements(rotated_right(tree)) =~= elements(tree));
    if ordered(tree) {
        assert(elements(a.left).contains(b.value));
        assert(less(b.value, a.value));
        assert forall|x: T| #[trigger] elements(b.right).contains(x) implies less(x, a.value) by {
            assert(elements(a.left).contains(x));
        }
        assert(ordered(inner));
        assert forall|x: T| #[trigger] elements(inner).contains(x) implies less(b.value, x) by {
            if elements(a.right).contains(x) {
                assert(less(b.value, a.value) && less(a.value, x));
            } else if elements(b.right).contains(x) {
                assert(less(b.value, x));
            } else {
                assert(x == a.value);
            }
        }
    }
}

/// A rotation to the left keeps the values, their order and the colours.
pub proof fn lemma_rotated_left<T: Ord>(tree: Tree<T>)
    requires
        total_order::<T>(),
        tree is Some,
        tree.unwrap().right is Some,
    ensures
        elements(rotated_left(tree)) == elements(tree),
        size(rotated_left(tree)) == size(tree),
        red_count(rotated_left(tree)) == red_count(tree),
        ordered(tree) ==> ordered(rotated_left(tree)),
{
    reveal_with_fuel(elements, 3);
    reveal_with_fuel(size, 3);
    reveal_with_fuel(red_count, 3);
    reveal_with_fuel(ordered, 3);
    lemma_total_order::<T>();
    let a = tree.unwrap();
    let b = a.right.unwrap();
    let inner = join(a.color, a.value, a.left, b.left);
    assert(elements(rotated_left(tree)) =~= elements(tree));
    if ordered(tree) {
        assert(elements(a.right).contains(b.value));
        assert(less(a.value, b.value));
        assert forall|x: T| #[trigger] elements(b.left).contains(x) implies less(a.value, x) by {
            assert(elements(a.right).contains(x));
        }
        assert(ordered(inner));
        assert forall|x: T| #[trigger] elements(inner).contains(x) implies less(x, b.value) by {
            if elements(a.left).contains(x) {
                assert(less(x, a.value) && less(a.value, b.value));
            } else if elements(b.left).contains(x) {
                assert(less(x, b.value));
            } else {
                assert(x == a.value);
            }
        }
    }
}

/// Colours do not matter to the values of a tree and their order.
pub proof fn lemma_recolored<T: Ord>(tree: Tree<T>)
    requires
        tree is Some,
        tree.unwrap().left is Some,
        tree.unwrap().right is Some,
    ensures
        elements(recolored(tree)) == elements(tree),
        size(recolored(tree)) == size(tree),
        ordered(tree) ==> ordered(recolored(tree)),
{
    reveal_with_fuel(elements, 3);
    reveal_with_fuel(size, 3);
    reveal_with_fuel(red_count, 3);
    reveal_with_fuel(ordered, 3);
    let top = tree.unwrap();
    let l = top.left.unwrap();
    let r = top.right.unwrap();
    assert(elements(join(Color::Black, l.value, l.left, l.right)) =~= elements(top.left));
    assert(elements(join(Color::Black, r.value, r.left, r.right)) =~= elements(top.right));
    assert(elements(recolored(tree)) =~= elements(tree));
}

/// Rotates the tree below `opt_node` to the right.
pub fn rotate_right<T>(opt_node: &mut Tree<T>)
    requires
        *old(opt_node) is Some,
        old(opt_node).unwrap().left is Some,
    ensures
        *final(opt_node) == rotated_right(*old(opt_node)),
{
    let mut a = opt_node.take().unwrap();
    let mut b = a.left.take().unwrap();
    a.left = b.right.take();
    b.right = Some(a);
    *opt_node = Some(b);
}

/// Rotates the tree below `opt_node` to the left.
pub fn rotate_left<T>(opt_node: &mut Tree<T>)
    requires
        *old(opt_node) is Some,
        old(opt_node).unwrap().right is Some,
    ensures
        *final(opt_node) == rotated_left(*old(opt_node)),
{
    let mut a = opt_node.take().unwrap();
    let mut b = a.right.take().unwrap();
    a.right = b.left.take();
    b.left = Some(a);
    *opt_node = Some(b);
}

/// Paints the root below `opt_node` red and its two children black.
pub fn recolor<T>(opt_node: &mut Tree<T>)
    requires
        *old(opt_node) is Some,
        old(opt_node).unwrap().left is Some,
        old(opt_node).unwrap().right is Some,
    ensures
        *final(opt_node) == recolored(*old(opt_node)),
{
    let mut top = opt_node.take().unwrap();
    let mut l = top.left.take().unwrap();
    let mut r = top.right.take().unwrap();
    top.color = Color::Red;
    l.color = Color::Black;
    r.color = Color::Black;
    top.left = Some(l);
    top.right = Some(r);
    *opt_node = Some(top);
}

/// Paints the root below `opt_node` black.
pub fn blacken<T>(opt_node: &mut Tree<T>)
    requires
        *old(opt_node) is Some,
    ensures
        *final(opt_node) == blackened(*old(opt_node)),
{
    let mut top = opt_node.take().unwrap();
    top.color = Color::Black;
    *opt_node = Some(top);
}

/// Looks for `value` below `tree`.
pub fn find<'a, T: Ord>(tree: &'a Tree<T>, value: &T) -> (found: Option<&'a T>)
    requires
        total_order::<T>(),
        ordered(*tree),
    ensures
        match found {
            Some(held) => *held == *value && elements(*tree).contains(*value),
            None => !elements(*tree).contains(*value),
        },
{
    let mut opt_node = tree;
    loop
        invariant
            total_order::<T>(),
            ordered(*opt_node),
            elements(*tree).contains(*value) <==> elements(*opt_node).contains(*value),
        decreases *opt_node,
    {
        proof {
            lemma_total_order::<T>();
        }
        match opt_node {
            Some(node) => {
                match value.cmp(&node.value) {
                    Ordering::Less => {
                        assert(!elements(node.right).contains(*value)) by {
                            if elements(node.right).contains(*value) {
                                assert(less(node.value, *value));
                            }
                        }
                        opt_node = &node.left;
                    },
                    Ordering::Greater => {
                        assert(!elements(node.left).contains(*value)) by {
                            if elements(node.left).contains(*value) {
                                assert(less(*value, node.value));
                            }
                        }
                        opt_node = &node.right;
                    },
                    Ordering::Equal => {
                        return Some(&node.value);
                    },
                }
            },
            None => {
                return None;
            },
        }
    }
}

/// The lines of the drawing of a tree, each with what stands before the
/// value and with the colour and the value, if the line is that of a node.
/// A node with a child is followed by the drawings of both its subtrees,
/// an empty one being drawn as a line without a value.
pub open spec fn drawing<T>(tree: Tree<T>, prefix: Seq<char>, last: bool) -> Seq<
    (Seq<char>, Option<(Color, T)>),
>
    decreases tree,
{
    match tree {
        None => seq![(prefix + marker(last), None)],
        Some(node) => if node.left is Some || node.right is Some {
            seq![(prefix + marker(last), Some((node.color, node.value)))] + drawing(
                node.left,
                prefix + indent(last),
                false,
            ) + drawing(node.right, prefix + indent(last), true)
        } else {
            seq![(prefix + marker(last), Some((node.color, node.value)))]
        },
    }
}

/// The lines as they are held in memory.
pub open spec fn lines_view<T>(rows: Seq<(String, Option<(Color, &T)>)>) -> Seq<
    (Seq<char>, Option<(Color, T)>),
> {
    rows.map_values(
        |row: (String, Option<(Color, &T)>)|
            (
                row.0@,
                match row.1 {
                    Some((color, value)) => Some((color, *value)),
                    None => None,
                },
            ),
    )
}

/// Appends the drawing of `tree` to `rows`.
pub fn draw<'a, T>(
    tree: &'a Tree<T>,
    prefix: &str,
    last: bool,
    rows: &mut Vec<(String, Option<(Color, &'a T)>)>,
)
    ensures
        lines_view(final(rows)@) == lines_view(old(rows)@) + drawing(*tree, prefix@, last),
    decreases *tree,
{
    let mut head = prefix.to_string();
    head.push_str(if last { "`- " } else { "|- " });
    let mut deeper = prefix.to_string();
    deeper.push_str(if last { "   " } else { "|  " });
    let ghost before = lines_view(rows@);
    match tree {
        Some(node) => {
            rows.push((head, Some((node.color, &node.value))));
            let ghost first = seq![(prefix@ + marker(last), Some((node.color, node.value)))];
            assert(lines_view(rows@) =~= before + first);
            if node.left.is_some() || node.right.is_some() {
                draw(&node.left, deeper.as_str(), false, rows);
                draw(&node.right, deeper.as_str(), true, rows);
                assert(lines_view(rows@) =~= before + drawing(*tree, prefix@, last));
            }
        },
        None => {
            rows.push((head, None));
            assert(lines_view(rows@) =~= before + drawing(*tree, prefix@, last));
        },
    }
}

} // verus!
