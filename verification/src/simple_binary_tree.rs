//! A set kept in an unbalanced binary search tree.

use crate::order::{lemma_total_order, less, total_order};
use std::cmp::Ordering;
use vstd::prelude::*;

verus! {

/// A set of values of an ordered type.
pub struct BTreeSet<T> {
    root: Option<Box<BTreeNode<T>>>,
    len: usize,
}

struct BTreeNode<T> {
    value: T,
    left: Option<Box<BTreeNode<T>>>,
    right: Option<Box<BTreeNode<T>>>,
}

/// The values held in a tree.
spec fn elements<T>(tree: Option<Box<BTreeNode<T>>>) -> Set<T>
    decreases tree,
{
    match tree {
        None => Set::empty(),
        Some(node) => elements(node.left).union(elements(node.right)).insert(node.value),
    }
}

/// The number of nodes of a tree.
spec fn size<T>(tree: Option<Box<BTreeNode<T>>>) -> nat
    decreases tree,
{
    match tree {
        None => 0,
        Some(node) => size(node.left) + size(node.right) + 1,
    }
}

/// Whether each node holds a value that comes after all values of its left
/// subtree and before all values of its right subtree.
spec fn ordered<T: Ord>(tree: Option<Box<BTreeNode<T>>>) -> bool
    decreases tree,
{
    match tree {
        None => true,
        Some(node) => {
            &&& ordered(node.left)
            &&& ordered(node.right)
            &&& forall|x: T| #[trigger] elements(node.left).contains(x) ==> less(x, node.value)
            &&& forall|x: T| #[trigger] elements(node.right).contains(x) ==> less(node.value, x)
        },
    }
}

/// What stands before a value in the drawing of a tree: `` `- `` before
/// the last child of a node, `|- ` before another.
pub open spec fn marker(last: bool) -> Seq<char> {
    if last {
        "`- "@
    } else {
        "|- "@
    }
}

/// What the drawing of a subtree is moved in by: room under a last child,
/// a line down to the next child under another.
pub open spec fn indent(last: bool) -> Seq<char> {
    if last {
        "   "@
    } else {
        "|  "@
    }
}

/// The lines of the drawing of a tree, each with what stands before the
/// value and with the value, if the line is that of a node. A node with a
/// child is followed by the drawings of both its subtrees, an empty one
/// being drawn as a line without a value.
spec fn drawing<T>(tree: Option<Box<BTreeNode<T>>>, prefix: Seq<char>, last: bool) -> Seq<
    (Seq<char>, Option<T>),
>
    decreases tree,
{
    match tree {
        None => seq![(prefix + marker(last), None)],
        Some(node) => if node.left is Some || node.right is Some {
            seq![(prefix + marker(last), Some(node.value))] + drawing(
                node.left,
                prefix + indent(last),
                false,
            ) + drawing(node.right, prefix + indent(last), true)
        } else {
            seq![(prefix + marker(last), Some(node.value))]
        },
    }
}

/// The lines as they are held in memory.
pub open spec fn lines_view<T>(rows: Seq<(String, Option<&T>)>) -> Seq<(Seq<char>, Option<T>)> {
    rows.map_values(
        |row: (String, Option<&T>)|
            (
                row.0@,
                match row.1 {
                    Some(value) => Some(*value),
                    None => None,
                },
            ),
    )
}

/// Appends the drawing of `tree` to `rows`.
fn draw<'a, T>(
    tree: &'a Option<Box<BTreeNode<T>>>,
    prefix: &str,
    last: bool,
    rows: &mut Vec<(String, Option<&'a T>)>,
)
    ensures
        lines_view(final(rows)@) == lines_view(old(rows)@) + drawing(*tree, prefix@, last),
    decreases *tree,
{
    let mut head = prefix.to_string();
    head.push_str(if last { "`- " } else { "|- " });
    let mut deeper = prefix.to_string();
    deeper.push_str(if last { "   " } else { "|  " });
    let ghost before = lines_view(rows@);
    match tree {
        Some(node) => {
            rows.push((head, Some(&node.value)));
            let ghost first = seq![(prefix@ + marker(last), Some(node.value))];
            assert(lines_view(rows@) =~= before + first);
            if node.left.is_some() || node.right.is_some() {
                draw(&node.left, deeper.as_str(), false, rows);
                draw(&node.right, deeper.as_str(), true, rows);
                assert(lines_view(rows@) =~= before + drawing(*tree, prefix@, last));
            }
        },
        None => {
            rows.push((head, None));
            assert(lines_view(rows@) =~= before + drawing(*tree, prefix@, last));
        },
    }
}

/// An ordered tree holds as many values as it has nodes.
proof fn lemma_size<T: Ord>(tree: Option<Box<BTreeNode<T>>>)
    requires
        total_order::<T>(),
        ordered(tree),
    ensures
        elements(tree).finite(),
        elements(tree).len() == size(tree),
    decreases tree,
{
    if let Some(node) = tree {
        lemma_total_order::<T>();
        lemma_size(node.left);
        lemma_size(node.right);
        let l = elements(node.left);
        let r = elements(node.right);
        assert(l.disjoint(r)) by {
            assert forall|x: T| l.contains(x) implies !r.contains(x) by {
                if r.contains(x) {
                    assert(less(x, node.value) && less(node.value, x));
                }
            }
        }
        vstd::set_lib::lemma_set_disjoint_lens(l, r);
        assert(!l.union(r).contains(node.value)) by {
            if l.contains(node.value) {
                assert(less(node.value, node.value));
            }
            if r.contains(node.value) {
                assert(less(node.value, node.value));
            }
        }
    }
}

/// Looks for `value` below `tree`.
fn find<'a, T: Ord>(tree: &'a Option<Box<BTreeNode<T>>>, value: &T) -> (found: Option<&'a T>)
    requires
        total_order::<T>(),
        ordered(*tree),
    ensures
        match found {
            Some(held) => *held == *value && elements(*tree).contains(*value),
            None => !elements(*tree).contains(*value),
        },
{
    proof {
        lemma_total_order::<T>();
    }
    let mut opt_node = tree;
    loop
        invariant
            total_order::<T>(),
            ordered(*opt_node),
            elements(*tree).contains(*value) <==> elements(*opt_node).contains(*value),
        decreases *opt_node,
    {
        proof {
            lemma_total_order::<T>();
        }
        match opt_node {
            Some(node) => {
                match value.cmp(&node.value) {
                    Ordering::Less => {
                        assert(!elements(node.right).contains(*value)) by {
                            if elements(node.right).contains(*value) {
                                assert(less(node.value, *value));
                            }
                        }
                        opt_node = &node.left;
                    },
                    Ordering::Greater => {
                        assert(!elements(node.left).contains(*value)) by {
                            if elements(node.left).contains(*value) {
                                assert(less(*value, node.value));
                            }
                        }
                        opt_node = &node.right;
                    },
                    Ordering::Equal => {
                        return Some(&node.value);
                    },
                }
            },
            None => {
                return None;
            },
        }
    }
}

/// A step of the way from the root of a tree to one of its subtrees: the
/// node that is passed, the side that is taken, and the subtree that is
/// left aside.
struct Turn<T> {
    value: T,
    left: bool,
    other: Option<Box<BTreeNode<T>>>,
}

/// The tree that has `tree` below the node of `turn`, on the side that was
/// taken there.
spec fn below<T>(turn: Turn<T>, tree: Option<Box<BTreeNode<T>>>) -> Option<Box<BTreeNode<T>>> {
    if turn.left {
        Some(Box::new(BTreeNode { value: turn.value, left: tree, right: turn.other }))
    } else {
        Some(Box::new(BTreeNode { value: turn.value, left: turn.other, right: tree }))
    }
}

/// The tree that has `tree` at the end of the way `path` from its root.
spec fn plug<T>(path: Seq<Turn<T>>, tree: Option<Box<BTreeNode<T>>>) -> Option<Box<BTreeNode<T>>>
    decreases path.len(),
{
    if path.len() == 0 {
        tree
    } else {
        plug(path.drop_last(), below(path.last(), tree))
    }
}

/// Whether a search for `value` takes the way `path`.
spec fn leads_to<T: Ord>(path: Seq<Turn<T>>, value: T) -> bool {
    forall|i: int|
        0 <= i < path.len() ==> if (#[trigger] path[i]).left {
            less(value, path[i].value)
        } else {
            less(path[i].value, value)
        }
}

/// A subtree of an ordered tree is ordered.
proof fn lemma_plug_ordered<T: Ord>(path: Seq<Turn<T>>, tree: Option<Box<BTreeNode<T>>>)
    requires
        ordered(plug(path, tree)),
    ensures
        ordered(tree),
    decreases path.len(),
{
    if path.len() > 0 {
        lemma_plug_ordered(path.drop_last(), below(path.last(), tree));
    }
}

/// A way extended by a turn puts the tree below that turn.
proof fn lemma_plug_push<T>(path: Seq<Turn<T>>, turn: Turn<T>, tree: Option<Box<BTreeNode<T>>>)
    ensures
        plug(path.push(turn), tree) == plug(path, below(turn, tree)),
{
    assert(path.push(turn).drop_last() =~= path);
}

/// Putting a value where the search for it ends keeps the tree ordered and
/// adds the value and nothing else.
proof fn lemma_plug_insert<T: Ord>(
    path: Seq<Turn<T>>,
    old_tree: Option<Box<BTreeNode<T>>>,
    new_tree: Option<Box<BTreeNode<T>>>,
    value: T,
)
    requires
        total_order::<T>(),
        ordered(plug(path, old_tree)),
        leads_to(path, value),
        ordered(new_tree),
        elements(new_tree) == elements(old_tree).insert(value),
        size(new_tree) == size(old_tree) + 1,
    ensures
        ordered(plug(path, new_tree)),
        elements(plug(path, new_tree)) == elements(plug(path, old_tree)).insert(value),
        size(plug(path, new_tree)) == size(plug(path, old_tree)) + 1,
    decreases path.len(),
{
    if path.len() > 0 {
        let turn = path.last();
        let front = path.drop_last();
        let old_up = below(turn, old_tree);
        let new_up = below(turn, new_tree);
        lemma_plug_ordered(front, old_up);
        assert(elements(new_up) =~= elements(old_up).insert(value));
        assert(ordered(new_up));
        assert(leads_to(front, value)) by {
            assert forall|i: int| 0 <= i < front.len() implies if (#[trigger] front[i]).left {
                less(value, front[i].value)
            } else {
                less(front[i].value, value)
            } by {
                assert(front[i] == path[i]);
            }
        }
        lemma_plug_insert(front, old_up, new_up, value);
    }
}

/// A value that is not at the end of the way that the search for it takes
/// is nowhere in the tree.
proof fn lemma_plug_absent<T: Ord>(path: Seq<Turn<T>>, tree: Option<Box<BTreeNode<T>>>, value: T)
    requires
        total_order::<T>(),
        ordered(plug(path, tree)),
        leads_to(path, value),
    ensures
        elements(plug(path, tree)).contains(value) == elements(tree).contains(value),
    decreases path.len(),
{
    if path.len() > 0 {
        lemma_total_order::<T>();
        let turn = path.last();
        let front = path.drop_last();
        let up = below(turn, tree);
        lemma_plug_ordered(front, up);
        assert(leads_to(front, value)) by {
            assert forall|i: int| 0 <= i < front.len() implies if (#[trigger] front[i]).left {
                less(value, front[i].value)
            } else {
                less(front[i].value, value)
            } by {
                assert(front[i] == path[i]);
            }
        }
        lemma_plug_absent(front, up, value);
        assert(turn == path[path.len() - 1]);
        if elements(turn.other).contains(value) {
            if turn.left {
                assert(less(turn.value, value));
            } else {
                assert(less(value, turn.value));
            }
        }
    }
}

impl<T: Ord> BTreeSet<T> {
    /// The values of the set.
    pub closed spec fn view(&self) -> Set<T> {
        elements(self.root)
    }

    /// Whether the set is in a state that its methods keep up: its order is
    /// total, the tree is ordered, and the length is that of the tree.
    pub closed spec fn wf(&self) -> bool {
        &&& total_order::<T>()
        &&& ordered(self.root)
        &&& self.len == size(self.root)
    }

    /// An empty set.
    pub fn new() -> (set: Self)
        requires
            total_order::<T>(),
        ensures
            set.wf(),
            set@ == Set::<T>::empty(),
    {
        Self { root: None, len: 0 }
    }

    /// The number of values in the set.
    pub fn len(&self) -> (n: usize)
        requires
            self.wf(),
        ensures
            self@.finite(),
            n == self@.len(),
    {
        proof {
            lemma_size(self.root);
        }
        self.len
    }

    /// Whether the set holds no value.
    pub fn is_empty(&self) -> (empty: bool)
        requires
            self.wf(),
        ensures
            empty == (self@ == Set::<T>::empty()),
    {
        proof {
            lemma_size(self.root);
            if self.len == 0 {
                assert(self@ =~= Set::<T>::empty());
            }
        }
        self.len == 0
    }

    /// Whether the set holds `value`.
    pub fn contains(&self, value: &T) -> (held: bool)
        requires
            self.wf(),
        ensures
            held == self@.contains(*value),
    {
        self.get(value).is_some()
    }

    /// The value of the set that equals `value`, if there is one.
    pub fn get(&self, value: &T) -> (found: Option<&T>)
        requires
            self.wf(),
        ensures
            match found {
                Some(held) => *held == *value && self@.contains(*value),
                None => !self@.contains(*value),
            },
    {
        find(&self.root, value)
    }

    /// Adds `value` to the set and tells whether it was new.
    pub fn insert(&mut self, value: T) -> (inserted: bool)
        requires
            old(self).wf(),
            old(self)@.len() < usize::MAX,
        ensures
            final(self).wf(),
            final(self)@ == old(self)@.insert(value),
            inserted == !old(self)@.contains(value),
    {
        proof {
            lemma_size(self.root);
            lemma_total_order::<T>();
        }
        let ghost mut path: Seq<Turn<T>> = Seq::empty();
        let mut opt_node = &mut self.root;
        loop
            invariant
                total_order::<T>(),
                ordered(old(self).root),
                self.len == size(old(self).root),
                self.len < usize::MAX,
                leads_to(path, value),
                plug(path, *opt_node) == old(self).root,
                after_borrow(self.root) == plug(path, *final(opt_node)),
            ensures
                *opt_node is None,
            decreases *opt_node,
        {
            proof {
                lemma_total_order::<T>();
            }
            match opt_node {
                Some(node) => {
                    let ghost here = Some(*node);
                    match value.cmp(&node.value) {
                        Ordering::Less => {
                            let ghost turn = Turn {
                                value: node.value,
                                left: true,
                                other: node.right,
                            };
                            let ghost way = path;
                            opt_node = &mut node.left;
                            proof {
                                lemma_plug_push(way, turn, *opt_node);
                                lemma_plug_push(way, turn, *final(opt_node));
                                path = way.push(turn);
                            }
                        },
                        Ordering::Greater => {
                            let ghost turn = Turn {
                                value: node.value,
                                left: false,
                                other: node.left,
                            };
                            let ghost way = path;
                            opt_node = &mut node.right;
                            proof {
                                lemma_plug_push(way, turn, *opt_node);
                                lemma_plug_push(way, turn, *final(opt_node));
                                path = way.push(turn);
                            }
                        },
                        Ordering::Equal => {
                            proof {
                                lemma_plug_absent(path, here, value);
                                assert(old(self)@ =~= old(self)@.insert(value));
                            }
                            return false;
                        },
                    }
                },
                None => {
                    break ;
                },
            }
        }
        let new_node = BTreeNode { value, left: None, right: None };
        *opt_node = Some(Box::new(new_node));
        proof {
            let nothing = None::<Box<BTreeNode<T>>>;
            reveal_with_fuel(ordered, 2);
            reveal_with_fuel(elements, 2);
            assert(elements(*opt_node) =~= elements(nothing).insert(value));
            assert(ordered(*opt_node));
            assert(size(*opt_node) == size(nothing) + 1);
            lemma_plug_insert(path, nothing, *opt_node, value);
            lemma_plug_absent(path, nothing, value);
        }
        self.len += 1;
        true
    }

    /// The drawing of the tree.
    pub closed spec fn picture(&self) -> Seq<(Seq<char>, Option<T>)> {
        drawing(self.root, Seq::empty(), true)
    }

    /// The lines of a drawing of the tree, from the root down: for each
    /// node, and for the empty place beside an only child, what stands
    /// before the value, and the value.
    pub fn rows(&self) -> (rows: Vec<(String, Option<&T>)>)
        ensures
            lines_view(rows@) == self.picture(),
    {
        let mut rows: Vec<(String, Option<&T>)> = Vec::new();
        assert(lines_view(rows@) =~= Seq::<(Seq<char>, Option<T>)>::empty());
        draw(&self.root, "", true, &mut rows);
        proof {
            reveal_strlit("");
            assert(""@ =~= Seq::<char>::empty());
            assert(lines_view(rows@) =~= self.picture());
        }
        rows
    }

    /// Removes every value.
    pub fn clear(&mut self)
        ensures
            old(self).wf() ==> final(self).wf(),
            final(self)@ == Set::<T>::empty(),
    {
        self.root.take();
        self.len = 0;
    }
}

} // verus!
