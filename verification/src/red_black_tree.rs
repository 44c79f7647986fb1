//! A set kept in a red-black tree that is rebalanced on the way back from
//! the place of insertion.

use crate::order::{lemma_total_order, less, total_order};
use crate::rb_node::{draw, drawing, lines_view, 
    blacken, blackened, elements, find, join, lemma_recolored, lemma_rotated_left,
    lemma_rotated_right, lemma_size, ordered, recolor, recolored, rotate_left, rotate_right,
    rotated_left, rotated_right, size, Color, Direction, RBTreeNode, Tree,
};
use std::cmp::Ordering;
use vstd::prelude::*;

verus! {

/// A set of values of an ordered type.
pub struct RBTreeSet<T> {
    root: Tree<T>,
    len: usize,
}

/// Whether `tree` has a child on the side that `side` names; nothing is
/// asked where `side` names none.
pub open spec fn has_child<T>(tree: Tree<T>, side: Option<Direction>) -> bool {
    match side {
        None => true,
        Some(Direction::Left) => tree is Some && tree.unwrap().left is Some,
        Some(Direction::Right) => tree is Some && tree.unwrap().right is Some,
    }
}

/// Puts `new_node` below `opt_node`, unless its value is there already, and
/// rebalances where its child and grandchild on the path are both red.
///
/// `dir` is the side of its parent on which `opt_node` hangs. The first
/// part of the result is `dir` if the root below `opt_node` is red now and
/// has not just been rebalanced; the second is the side of that root on
/// which it has a red child that the caller has to look at.
pub fn insert<T: Ord>(opt_node: &mut Tree<T>, dir: Option<Direction>, new_node: RBTreeNode<T>) -> (pattern:
    (Option<Direction>, Option<Direction>))
    requires
        total_order::<T>(),
        ordered(*old(opt_node)),
        new_node.left is None,
        new_node.right is None,
    ensures
        ordered(*final(opt_node)),
        elements(*final(opt_node)) == elements(*old(opt_node)).insert(new_node.value),
        size(*final(opt_node)) == size(*old(opt_node)) + if elements(*old(opt_node)).contains(
            new_node.value,
        ) {
            0nat
        } else {
            1nat
        },
        *final(opt_node) is Some,
        pattern.0 is Some ==> pattern.0 == dir,
        has_child(*final(opt_node), pattern.1),
    decreases *old(opt_node),
{
    proof {
        lemma_total_order::<T>();
    }
    let ghost value = new_node.value;
    let mut node = match opt_node.take() {
        Some(node) => node,
        None => {
            *opt_node = Some(Box::new(new_node));
            assert(elements(*opt_node) =~= elements(*old(opt_node)).insert(value));
            return (dir, None);
        },
    };
    // insert value recursively and get inserted direction of RED child and RED grandchild.
    // inserted direction is None, if the child or the grand child is BLACK.
    let pattern = match new_node.value.cmp(&node.value) {
        Ordering::Less => {
            assert(!elements(node.right).contains(value)) by {
                if elements(node.right).contains(value) {
                    assert(less(node.value, value));
                }
            }
            insert(&mut node.left, Some(Direction::Left), new_node)
        },
        Ordering::Greater => {
            assert(!elements(node.left).contains(value)) by {
                if elements(node.left).contains(value) {
                    assert(less(value, node.value));
                }
            }
            insert(&mut node.right, Some(Direction::Right), new_node)
        },
        Ordering::Equal => {
            let color = node.color;
            *opt_node = Some(node);
            assert(elements(*opt_node) =~= elements(*old(opt_node)).insert(value));
            return match color {
                Color::Red => (dir, None),
                Color::Black => (None, None),
            };
        },
    };
    let color = node.color;
    *opt_node = Some(node);
    assert(elements(*opt_node) =~= elements(*old(opt_node)).insert(value));
    let ghost grown = *opt_node;

    match pattern {
        (Some(Direction::Left), Some(Direction::Left)) => {
            proof {
                lemma_rotated_right(grown);
            }
            rotate_right(opt_node);
        },
        (Some(Direction::Right), Some(Direction::Right)) => {
            proof {
                lemma_rotated_left(grown);
            }
            rotate_left(opt_node);
        },
        (Some(Direction::Left), Some(Direction::Right)) => {
            let mut top = opt_node.take().unwrap();
            proof {
                lemma_rotated_left(top.left);
            }
            rotate_left(&mut top.left);
            *opt_node = Some(top);
            proof {
                assert(elements(*opt_node) =~= elements(grown));
                lemma_rotated_right(*opt_node);
            }
            rotate_right(opt_node);
        },
        (Some(Direction::Right), Some(Direction::Left)) => {
            let mut top = opt_node.take().unwrap();
            proof {
                lemma_rotated_right(top.right);
            }
            rotate_right(&mut top.right);
            *opt_node = Some(top);
            proof {
                assert(elements(*opt_node) =~= elements(grown));
                lemma_rotated_left(*opt_node);
            }
            rotate_left(opt_node);
        },
        _ => {
            return match color {
                Color::Red => (dir, pattern.0),
                Color::Black => (None, pattern.0),
            };
        },
    }

    proof {
        lemma_recolored(*opt_node);
    }
    recolor(opt_node);

    (dir, None)
}

impl<T: Ord> RBTreeSet<T> {
    /// The values of the set.
    pub closed spec fn view(&self) -> Set<T> {
        elements(self.root)
    }

    /// Whether the set is in a state that its methods keep up: its order is
    /// total, the tree is ordered, its root is black, and the length is that
    /// of the tree.
    pub closed spec fn wf(&self) -> bool {
        &&& total_order::<T>()
        &&& ordered(self.root)
        &&& self.root is Some ==> self.root.unwrap().color == Color::Black
        &&& self.len == size(self.root)
    }

    /// An empty set.
    pub fn new() -> (set: Self)
        requires
            total_order::<T>(),
        ensures
            set.wf(),
            set@ == Set::<T>::empty(),
    {
        Self { root: None, len: 0 }
    }

    /// The number of values in the set.
    pub fn len(&self) -> (n: usize)
        requires
            self.wf(),
        ensures
            self@.finite(),
            n == self@.len(),
    {
        proof {
            lemma_size(self.root);
        }
        self.len
    }

    /// Whether the set holds no value.
    pub fn is_empty(&self) -> (empty: bool)
        requires
            self.wf(),
        ensures
            empty == (self@ == Set::<T>::empty()),
    {
        proof {
            lemma_size(self.root);
            if self.len == 0 {
                assert(self@ =~= Set::<T>::empty());
            }
        }
        self.len == 0
    }

    /// Whether the set holds `value`.
    pub fn contains(&self, value: &T) -> (held: bool)
        requires
            self.wf(),
        ensures
            held == self@.contains(*value),
    {
        self.get(value).is_some()
    }

    /// The value of the set that equals `value`, if there is one.
    pub fn get(&self, value: &T) -> (found: Option<&T>)
        requires
            self.wf(),
        ensures
            match found {
                Some(held) => *held == *value && self@.contains(*value),
                None => !self@.contains(*value),
            },
    {
        find(&self.root, value)
    }

    /// Adds `value` to the set and tells whether it was new.
    pub fn insert(&mut self, value: T) -> (inserted: bool)
        requires
            old(self).wf(),
            old(self)@.len() < usize::MAX,
        ensures
            final(self).wf(),
            final(self)@ == old(self)@.insert(value),
            inserted == !old(self)@.contains(value),
    {
        if self.contains(&value) {
            assert(self@ =~= old(self)@.insert(value));
            return false;
        }
        proof {
            lemma_size(self.root);
        }
        let color = if self.len == 0 {
            Color::Black
        } else {
            Color::Red
        };
        let new_node = RBTreeNode { color, value, left: None, right: None };

        insert(&mut self.root, None, new_node);
        proof {
            assert(elements(blackened(self.root)) =~= elements(self.root));
        }
        blacken(&mut self.root);
        self.len += 1;

        true
    }

    /// The drawing of the tree.
    pub closed spec fn picture(&self) -> Seq<(Seq<char>, Option<(Color, T)>)> {
        drawing(self.root, Seq::empty(), true)
    }

    /// The lines of a drawing of the tree, from the root down: for each
    /// node, and for the empty place beside an only child, what stands
    /// before the value, and the colour and the value.
    pub fn rows(&self) -> (rows: Vec<(String, Option<(Color, &T)>)>)
        ensures
            lines_view(rows@) == self.picture(),
    {
        let mut rows: Vec<(String, Option<(Color, &T)>)> = Vec::new();
        assert(lines_view(rows@) =~= Seq::<(Seq<char>, Option<(Color, T)>)>::empty());
        draw(&self.root, "", true, &mut rows);
        proof {
            reveal_strlit("");
            assert(""@ =~= Seq::<char>::empty());
            assert(lines_view(rows@) =~= self.picture());
        }
        rows
    }

    /// Removes every value.
    pub fn clear(&mut self)
        ensures
            old(self).wf() ==> final(self).wf(),
            final(self)@ == Set::<T>::empty(),
    {
        self.root.take();
        self.len = 0;
    }
}

} // verus!
