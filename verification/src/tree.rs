//! Two sets kept in binary search trees: an unbalanced one, and a red-black
//! tree that is rebalanced from the root down after each insertion.

use crate::order::{lemma_total_order, less, total_order};
use crate::rb_node::{draw, drawing, lines_view, 
    blacken, blackened, elements, find, lemma_recolored, lemma_rotated_left, lemma_rotated_right,
    lemma_size, ordered, recolor, recolored, red_count, rotated_left, rotated_right, size, Color,
    Direction, RBTreeNode, Tree,
};
use std::cmp::Ordering;
use vstd::prelude::*;
use vstd::std_specs::cmp::OrdSpec;

pub use crate::rb_node::{rotate_left, rotate_right};
pub use crate::simple_binary_tree::BTreeSet;

verus! {

/// A set of values of an ordered type.
pub struct RBTreeSet<T> {
    root: Tree<T>,
    len: usize,
}

/// What the two steps from a node towards a value look like.
#[derive(Eq, PartialEq, Copy, Clone, Structural, Debug)]
pub enum Pattern {
    /// A black node, its red left child and that child's red left child.
    LL,
    /// A black node, its red right child and that child's red right child.
    RR,
    /// A black node, its red left child and that child's red right child.
    LR,
    /// A black node, its red right child and that child's red left child.
    RL,
    /// Any other colouring.
    Fine,
}

/// The side of a node with value `at` on which `value` is looked for; none
/// if the two are equal.
pub open spec fn side<T: Ord>(value: T, at: T) -> Option<Direction> {
    match value.cmp_spec(&at) {
        Ordering::Less => Some(Direction::Left),
        Ordering::Greater => Some(Direction::Right),
        Ordering::Equal => None,
    }
}

/// The subtree on one side of the root of a tree that is not empty.
pub open spec fn child<T>(tree: Tree<T>, dir: Direction) -> Tree<T> {
    match dir {
        Direction::Left => tree.unwrap().left,
        Direction::Right => tree.unwrap().right,
    }
}

/// The pattern that the root of `tree`, its child towards `value` and that
/// child's child towards `value` form; none if the path to `value` ends
/// before the grandchild.
pub open spec fn pattern_at<T: Ord>(tree: Tree<T>, value: T) -> Option<Pattern> {
    if tree is None || side(value, tree.unwrap().value) is None {
        None
    } else {
        let a = tree.unwrap();
        let dir1 = side(value, a.value).unwrap();
        let below = child(tree, dir1);
        if below is None || side(value, below.unwrap().value) is None {
            None
        } else {
            let b = below.unwrap();
            let dir2 = side(value, b.value).unwrap();
            if child(below, dir2) is None {
                None
            } else {
                let c = child(below, dir2).unwrap();
                if a.color == Color::Black && b.color == Color::Red && c.color == Color::Red {
                    Some(
                        match (dir1, dir2) {
                            (Direction::Left, Direction::Left) => Pattern::LL,
                            (Direction::Right, Direction::Right) => Pattern::RR,
                            (Direction::Left, Direction::Right) => Pattern::LR,
                            (Direction::Right, Direction::Left) => Pattern::RL,
                        },
                    )
                } else {
                    Some(Pattern::Fine)
                }
            }
        }
    }
}

/// Puts `new_node` below `opt_node` unless its value is there already, and
/// tells whether it did.
pub fn insert<T: Ord>(opt_node: &mut Tree<T>, new_node: RBTreeNode<T>) -> (inserted: bool)
    requires
        total_order::<T>(),
        ordered(*old(opt_node)),
        new_node.left is None,
        new_node.right is None,
    ensures
        ordered(*final(opt_node)),
        elements(*final(opt_node)) == elements(*old(opt_node)).insert(new_node.value),
        inserted == !elements(*old(opt_node)).contains(new_node.value),
        size(*final(opt_node)) == size(*old(opt_node)) + if inserted { 1nat } else { 0nat },
        *final(opt_node) is Some,
        *old(opt_node) is Some ==> final(opt_node).unwrap().color == old(opt_node).unwrap().color,
    decreases *old(opt_node),
{
    proof {
        lemma_total_order::<T>();
    }
    let ghost value = new_node.value;
    match opt_node.take() {
        Some(mut node) => {
            let inserted = match new_node.value.cmp(&node.value) {
                Ordering::Less => {
                    assert(!elements(node.right).contains(value)) by {
                        if elements(node.right).contains(value) {
                            assert(less(node.value, value));
                        }
                    }
                    insert(&mut node.left, new_node)
                },
                Ordering::Greater => {
                    assert(!elements(node.left).contains(value)) by {
                        if elements(node.left).contains(value) {
                            assert(less(value, node.value));
                        }
                    }
                    insert(&mut node.right, new_node)
                },
                Ordering::Equal => false,
            };
            *opt_node = Some(node);
            assert(elements(*opt_node) =~= elements(*old(opt_node)).insert(value));
            inserted
        },
        None => {
            *opt_node = Some(Box::new(new_node));
            assert(elements(*opt_node) =~= elements(*old(opt_node)).insert(value));
            true
        },
    }
}

/// Rotates the left child to the left and then the tree to the right.
pub fn rotate_left_right<T>(opt_node: &mut Tree<T>)
    requires
        *old(opt_node) is Some,
        old(opt_node).unwrap().left is Some,
        old(opt_node).unwrap().left.unwrap().right is Some,
    ensures
        *final(opt_node) == rotated_left_right(*old(opt_node)),
{
    let mut top = opt_node.take().unwrap();
    rotate_left(&mut top.left);
    *opt_node = Some(top);
    rotate_right(opt_node);
}

/// Rotates the right child to the right and then the tree to the left.
pub fn rotate_right_left<T>(opt_node: &mut Tree<T>)
    requires
        *old(opt_node) is Some,
        old(opt_node).unwrap().right is Some,
        old(opt_node).unwrap().right.unwrap().left is Some,
    ensures
        *final(opt_node) == rotated_right_left(*old(opt_node)),
{
    let mut top = opt_node.take().unwrap();
    rotate_right(&mut top.right);
    *opt_node = Some(top);
    rotate_left(opt_node);
}

/// The tree with `left` in place of its left subtree.
pub open spec fn with_left<T>(tree: Tree<T>, left: Tree<T>) -> Tree<T> {
    let top = tree.unwrap();
    Some(Box::new(RBTreeNode { color: top.color, value: top.value, left, right: top.right }))
}

/// The tree with `right` in place of its right subtree.
pub open spec fn with_right<T>(tree: Tree<T>, right: Tree<T>) -> Tree<T> {
    let top = tree.unwrap();
    Some(Box::new(RBTreeNode { color: top.color, value: top.value, left: top.left, right }))
}

pub open spec fn rotated_left_right<T>(tree: Tree<T>) -> Tree<T> {
    rotated_right(with_left(tree, rotated_left(tree.unwrap().left)))
}

pub open spec fn rotated_right_left<T>(tree: Tree<T>) -> Tree<T> {
    rotated_left(with_right(tree, rotated_right(tree.unwrap().right)))
}

/// A double rotation keeps the values, their order and the colours.
pub proof fn lemma_rotated_left_right<T: Ord>(tree: Tree<T>)
    requires
        total_order::<T>(),
        tree is Some,
        tree.unwrap().left is Some,
        tree.unwrap().left.unwrap().right is Some,
    ensures
        elements(rotated_left_right(tree)) == elements(tree),
        size(rotated_left_right(tree)) == size(tree),
        red_count(rotated_left_right(tree)) == red_count(tree),
        ordered(tree) ==> ordered(rotated_left_right(tree)),
{
    let below = tree.unwrap().left;
    let middle = with_left(tree, rotated_left(below));
    lemma_rotated_left(below);
    assert(elements(middle) =~= elements(tree));
    lemma_rotated_right(middle);
}

/// A double rotation keeps the values, their order and the colours.
pub proof fn lemma_rotated_right_left<T: Ord>(tree: Tree<T>)
    requires
        total_order::<T>(),
        tree is Some,
        tree.unwrap().right is Some,
        tree.unwrap().right.unwrap().left is Some,
    ensures
        elements(rotated_right_left(tree)) == elements(tree),
        size(rotated_right_left(tree)) == size(tree),
        red_count(rotated_right_left(tree)) == red_count(tree),
        ordered(tree) ==> ordered(rotated_right_left(tree)),
{
    let below = tree.unwrap().right;
    let middle = with_right(tree, rotated_right(below));
    lemma_rotated_right(below);
    assert(elements(middle) =~= elements(tree));
    lemma_rotated_left(middle);
}

/// Tells the pattern that the first two steps from the root of `opt_node`
/// towards `value` form.
pub fn pattern<T: Ord>(opt_node: &Tree<T>, value: &T) -> (found: Option<Pattern>)
    requires
        total_order::<T>(),
    ensures
        found == pattern_at(*opt_node, *value),
{
    proof {
        lemma_total_order::<T>();
    }
    let a = match opt_node {
        Some(a) => a,
        None => {
            return None;
        },
    };
    let (below, dir1) = match value.cmp(&a.value) {
        Ordering::Less => (&a.left, Direction::Left),
        Ordering::Greater => (&a.right, Direction::Right),
        Ordering::Equal => {
            return None;
        },
    };
    let b = match below {
        Some(b) => b,
        None => {
            return None;
        },
    };
    let (last, dir2) = match value.cmp(&b.value) {
        Ordering::Less => (&b.left, Direction::Left),
        Ordering::Greater => (&b.right, Direction::Right),
        Ordering::Equal => {
            return None;
        },
    };
    let c = match last {
        Some(c) => c,
        None => {
            return None;
        },
    };

    if a.color == Color::Black && b.color == Color::Red && c.color == Color::Red {
        match (dir1, dir2) {
            (Direction::Left, Direction::Left) => Some(Pattern::LL),
            (Direction::Right, Direction::Right) => Some(Pattern::RR),
            (Direction::Left, Direction::Right) => Some(Pattern::LR),
            (Direction::Right, Direction::Left) => Some(Pattern::RL),
        }
    } else {
        Some(Pattern::Fine)
    }
}

/// Whether the way from the root of `tree` to `value` passes a black node
/// with a red child and a red grandchild on that way.
pub open spec fn needs_repair<T: Ord>(tree: Tree<T>, value: T) -> bool
    decreases tree,
{
    match pattern_at(tree, value) {
        None => false,
        Some(Pattern::Fine) => match side(value, tree.unwrap().value) {
            Some(dir) => needs_repair(child(tree, dir), value),
            None => false,
        },
        Some(_) => true,
    }
}

/// The tree after the repair of the first black node on the way to `value`
/// that has a red child and a red grandchild on that way: the three nodes
/// are rotated so that the middle one of their values comes to the top, and
/// the top is painted red and its two children black. A tree without such
/// a node stays as it is.
pub open spec fn repaired_tree<T: Ord>(tree: Tree<T>, value: T) -> Tree<T>
    decreases tree,
{
    match pattern_at(tree, value) {
        None => tree,
        Some(Pattern::LL) => recolored(rotated_right(tree)),
        Some(Pattern::RR) => recolored(rotated_left(tree)),
        Some(Pattern::LR) => recolored(rotated_left_right(tree)),
        Some(Pattern::RL) => recolored(rotated_right_left(tree)),
        Some(Pattern::Fine) => match side(value, tree.unwrap().value) {
            Some(Direction::Left) => with_left(tree, repaired_tree(tree.unwrap().left, value)),
            Some(Direction::Right) => with_right(tree, repaired_tree(tree.unwrap().right, value)),
            None => tree,
        },
    }
}

/// Repairs the first black node on the way to `value` that has a red child
/// and a red grandchild on that way, and tells whether there was one.
///
/// A repair turns one red node black, so it cannot be repeated for ever.
pub fn balance<T: Ord>(opt_node: &mut Tree<T>, value: &T) -> (repaired: bool)
    requires
        total_order::<T>(),
        ordered(*old(opt_node)),
    ensures
        repaired == needs_repair(*old(opt_node), *value),
        *final(opt_node) == repaired_tree(*old(opt_node), *value),
        ordered(*final(opt_node)),
        elements(*final(opt_node)) == elements(*old(opt_node)),
        size(*final(opt_node)) == size(*old(opt_node)),
        (*final(opt_node) is Some) == (*old(opt_node) is Some),
        repaired ==> red_count(*final(opt_node)) < red_count(*old(opt_node)),
        !repaired ==> *final(opt_node) == *old(opt_node),
    decreases *old(opt_node),
{
    proof {
        lemma_total_order::<T>();
        reveal_with_fuel(red_count, 3);
    }
    match pattern(opt_node, value) {
        Some(Pattern::LL) => {
            proof {
                lemma_rotated_right(*opt_node);
                lemma_recolored(rotated_right(*opt_node));
            }
            rotate_right(opt_node);
            recolor(opt_node);
            true
        },
        Some(Pattern::RR) => {
            proof {
                lemma_rotated_left(*opt_node);
                lemma_recolored(rotated_left(*opt_node));
            }
            rotate_left(opt_node);
            recolor(opt_node);
            true
        },
        Some(Pattern::LR) => {
            proof {
                lemma_rotated_left_right(*opt_node);
                lemma_recolored(rotated_left_right(*opt_node));
            }
            rotate_left_right(opt_node);
            recolor(opt_node);
            true
        },
        Some(Pattern::RL) => {
            proof {
                lemma_rotated_right_left(*opt_node);
                lemma_recolored(rotated_right_left(*opt_node));
            }
            rotate_right_left(opt_node);
            recolor(opt_node);
            true
        },
        Some(Pattern::Fine) => {
            let mut top = opt_node.take().unwrap();
            let repaired = match value.cmp(&top.value) {
                Ordering::Less => balance(&mut top.left, value),
                Ordering::Greater => balance(&mut top.right, value),
                Ordering::Equal => false,
            };
            *opt_node = Some(top);
            assert(elements(*opt_node) =~= elements(*old(opt_node)));
            repaired
        },
        None => false,
    }
}

/// What a red-black tree must not hold.
#[derive(Eq, PartialEq, Copy, Clone, Structural, Debug)]
pub enum Violation {
    RootIsRed,
    ParentAndChildAreRed,
}

/// The first violation that a walk through the red nodes at the top of a
/// tree meets: a red root, or a red node below a red node. The walk goes
/// into the left subtree of a red node before it goes into the right one,
/// and does not go below a black node.
pub open spec fn violation<T>(tree: Tree<T>, parent_color: Option<Color>) -> Option<Violation>
    decreases tree,
{
    match tree {
        None => None,
        Some(node) => if node.color == Color::Red {
            if parent_color is None {
                Some(Violation::RootIsRed)
            } else if parent_color == Some(Color::Red) {
                Some(Violation::ParentAndChildAreRed)
            } else if violation(node.left, Some(node.color)) is Some {
                violation(node.left, Some(node.color))
            } else {
                violation(node.right, Some(node.color))
            }
        } else {
            None
        },
    }
}

fn check<T>(opt_node: &Tree<T>, parent_color: Option<Color>) -> (result: Result<(), Violation>)
    ensures
        match result {
            Ok(()) => violation(*opt_node, parent_color) is None,
            Err(found) => violation(*opt_node, parent_color) == Some(found),
        },
    decreases *opt_node,
{
    if let Some(node) = opt_node {
        if node.color == Color::Red {
            if parent_color.is_none() {
                return Err(Violation::RootIsRed);
            } else if parent_color == Some(Color::Red) {
                return Err(Violation::ParentAndChildAreRed);
            }
            match check(&node.left, Some(node.color)) {
                Ok(()) => {},
                Err(found) => {
                    return Err(found);
                },
            }
            return check(&node.right, Some(node.color));
        }
    }
    Ok(())
}

/// Looks for a violation at the top of the tree of `set`. A set in the
/// state that its methods keep up has none.
pub fn check_for_debug<T: Ord + Copy + Clone>(set: &RBTreeSet<T>) -> (result: Result<(), Violation>)
    ensures
        match result {
            Ok(()) => set.top_violation() is None,
            Err(found) => set.top_violation() == Some(found),
        },
        set.wf() ==> result is Ok,
{
    check(&set.root, None)
}

impl<T: Ord + Copy + Clone> RBTreeSet<T> {
    /// The violation that [`check_for_debug`] finds.
    pub closed spec fn top_violation(&self) -> Option<Violation> {
        violation(self.root, None)
    }

    /// The values of the set.
    pub closed spec fn view(&self) -> Set<T> {
        elements(self.root)
    }

    /// Whether the set is in a state that its methods keep up: its order is
    /// total, the tree is ordered, its root is black, and the length is that
    /// of the tree.
    pub closed spec fn wf(&self) -> bool {
        &&& total_order::<T>()
        &&& ordered(self.root)
        &&& self.root is Some ==> self.root.unwrap().color == Color::Black
        &&& self.len == size(self.root)
    }

    /// An empty set.
    pub fn new() -> (set: RBTreeSet<T>)
        requires
            total_order::<T>(),
        ensures
            set.wf(),
            set@ == Set::<T>::empty(),
    {
        RBTreeSet { root: None, len: 0 }
    }

    /// The number of values in the set.
    pub fn len(&self) -> (n: usize)
        requires
            self.wf(),
        ensures
            self@.finite(),
            n == self@.len(),
    {
        proof {
            lemma_size(self.root);
        }
        self.len
    }

    /// Whether the set holds no value.
    pub fn is_empty(&self) -> (empty: bool)
        requires
            self.wf(),
        ensures
            empty == (self@ == Set::<T>::empty()),
    {
        proof {
            lemma_size(self.root);
            if self.len == 0 {
                assert(self@ =~= Set::<T>::empty());
            }
        }
        self.len == 0
    }

    /// Whether the set holds `value`.
    pub fn contains(&self, value: &T) -> (held: bool)
        requires
            self.wf(),
        ensures
            held == self@.contains(*value),
    {
        self.get(value).is_some()
    }

    /// The value of the set that equals `value`, if there is one.
    pub fn get(&self, value: &T) -> (found: Option<&T>)
        requires
            self.wf(),
        ensures
            match found {
                Some(held) => *held == *value && self@.contains(*value),
                None => !self@.contains(*value),
            },
    {
        find(&self.root, value)
    }

    /// Adds `value` to the set and tells whether it was new.
    pub fn insert(&mut self, value: T) -> (inserted: bool)
        requires
            old(self).wf(),
            old(self)@.len() < usize::MAX,
        ensures
            final(self).wf(),
            final(self)@ == old(self)@.insert(value),
            inserted == !old(self)@.contains(value),
    {
        proof {
            lemma_size(self.root);
        }
        let color = if self.len == 0 {
            Color::Black
        } else {
            Color::Red
        };
        let new_node = RBTreeNode { color, value, left: None, right: None };

        let inserted = insert(&mut self.root, new_node);

        if inserted {
            self.len += 1;
            loop
                invariant
                    total_order::<T>(),
                    ordered(self.root),
                    self.root is Some,
                    elements(self.root) == old(self)@.insert(value),
                    self.len == size(self.root),
                decreases red_count(self.root),
            {
                if !balance(&mut self.root, &value) {
                    break ;
                }
            }
            proof {
                assert(elements(blackened(self.root)) =~= elements(self.root));
            }
            blacken(&mut self.root);
        }
        inserted
    }

    /// The drawing of the tree.
    pub closed spec fn picture(&self) -> Seq<(Seq<char>, Option<(Color, T)>)> {
        drawing(self.root, Seq::empty(), true)
    }

    /// The lines of a drawing of the tree, from the root down: for each
    /// node, and for the empty place beside an only child, what stands
    /// before the value, and the colour and the value.
    pub fn rows(&self) -> (rows: Vec<(String, Option<(Color, &T)>)>)
        ensures
            lines_view(rows@) == self.picture(),
    {
        let mut rows: Vec<(String, Option<(Color, &T)>)> = Vec::new();
        assert(lines_view(rows@) =~= Seq::<(Seq<char>, Option<(Color, T)>)>::empty());
        draw(&self.root, "", true, &mut rows);
        proof {
            reveal_strlit("");
            assert(""@ =~= Seq::<char>::empty());
            assert(lines_view(rows@) =~= self.picture());
        }
        rows
    }

    /// Removes every value.
    pub fn clear(&mut self)
        ensures
            old(self).wf() ==> final(self).wf(),
            final(self)@ == Set::<T>::empty(),
    {
        self.root.take();
        self.len = 0;
    }
}

} // verus!
