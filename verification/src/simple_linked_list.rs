//! A singly linked list that can be used from both of its ends.

use vstd::pervasive::cloned;
use vstd::prelude::*;

verus! {

/// A list of elements, each linked to the next.
pub struct SimpleLinkedList<T> {
    head: Option<Box<Node<T>>>,
}

struct Node<T> {
    data: T,
    next: Option<Box<Node<T>>>,
}

/// The elements of a chain of nodes, the first node's first.
spec fn chain<T>(link: Option<Box<Node<T>>>) -> Seq<T>
    decreases link,
{
    match link {
        None => Seq::empty(),
        Some(node) => seq![node.data] + chain(node.next),
    }
}

impl<T> View for SimpleLinkedList<T> {
    type V = Seq<T>;

    /// The elements from the front of the list to its back.
    closed spec fn view(&self) -> Seq<T> {
        chain(self.head)
    }
}

impl<T> SimpleLinkedList<T> {
    /// An empty list.
    pub fn new() -> (list: Self)
        ensures
            list@ == Seq::<T>::empty(),
    {
        SimpleLinkedList { head: None }
    }

    /// The number of elements.
    pub fn len(&self) -> (size: usize)
        requires
            self@.len() <= usize::MAX,
        ensures
            size == self@.len(),
    {
        let mut size: usize = 0;
        let mut opt_node = &self.head;
        loop
            invariant
                self@.len() <= usize::MAX,
                size + chain(*opt_node).len() == self@.len(),
            ensures
                size == self@.len(),
            decreases *opt_node,
        {
            match opt_node {
                Some(node) => {
                    opt_node = &node.next;
                    size += 1;
                },
                None => {
                    break ;
                },
            }
        }
        size
    }

    /// Adds `_element` at the back.
    pub fn push(&mut self, _element: T)
        ensures
            final(self)@ == old(self)@.push(_element),
    {
        let ghost mut before: Seq<T> = Seq::empty();
        let mut opt_node = &mut self.head;
        loop
            invariant
                before + chain(*opt_node) == chain(old(self).head),
                chain(after_borrow(self.head)) == before + chain(*final(opt_node)),
            ensures
                *opt_node is None,
            decreases *opt_node,
        {
            match opt_node {
                Some(node) => {
                    proof {
                        assert(before.push(node.data) + chain(node.next) =~= before + chain(
                            Some(*node),
                        ));
                        before = before.push(node.data);
                    }
                    opt_node = &mut node.next;
                },
                None => {
                    break ;
                },
            }
        }
        *opt_node = Some(Box::new(Node { data: _element, next: None }));
        proof {
            assert(before + Seq::<T>::empty() =~= before);
            assert(chain(*opt_node) =~= seq![_element]);
            assert(before + seq![_element] =~= before.push(_element));
        }
    }

    /// Removes the element at the back and returns it; `None` if the list
    /// is empty.
    pub fn pop(&mut self) -> (element: Option<T>)
        ensures
            old(self)@.len() == 0 ==> element is None && final(self)@ == old(self)@,
            old(self)@.len() > 0 ==> element == Some(old(self)@.last()) && final(self)@ == old(
                self,
            )@.drop_last(),
    {
        if self.head.is_none() {
            return None;
        }
        let ghost mut before: Seq<T> = Seq::empty();
        let mut opt_node = &mut self.head;
        loop
            invariant
                *opt_node is Some,
                before + chain(*opt_node) == chain(old(self).head),
                chain(after_borrow(self.head)) == before + chain(*final(opt_node)),
            decreases *opt_node,
        {
            if opt_node.as_ref().unwrap().next.is_none() {
                proof {
                    assert(chain(opt_node.unwrap().next) =~= Seq::<T>::empty());
                    assert(chain(*opt_node) =~= seq![opt_node.unwrap().data]);
                    assert(chain(old(self).head) =~= before.push(opt_node.unwrap().data));
                }
                let tail = opt_node.take();
                proof {
                    assert(before + chain(*opt_node) =~= before);
                }
                return Some(tail.unwrap().data);
            } else {
                proof {
                    let node = opt_node.unwrap();
                    assert(before.push(node.data) + chain(node.next) =~= before + chain(*opt_node));
                    before = before.push(node.data);
                }
                opt_node = &mut opt_node.as_mut().unwrap().next;
            }
        }
    }

    /// The element at the back; `None` if the list is empty.
    pub fn peek(&self) -> (element: Option<&T>)
        ensures
            self@.len() == 0 ==> element is None,
            self@.len() > 0 ==> element == Some(&self@.last()),
    {
        let mut node = match &self.head {
            Some(head) => head,
            None => {
                return None;
            },
        };
        loop
            invariant
                self@.len() > 0,
                chain(Some(*node)).last() == self@.last(),
            decreases node,
        {
            match &node.next {
                Some(next) => {
                    assert(chain(Some(*node)).last() == chain(Some(*next)).last());
                    node = next;
                },
                None => {
                    assert(node.next is None);
                    assert(chain(node.next) =~= Seq::<T>::empty());
                    assert(chain(Some(*node)) =~= seq![node.data] + chain(node.next));
                    assert(chain(Some(*node)) =~= seq![node.data]);
                    return Some(&node.data);
                },
            }
        }
    }

    /// Adds `_element` at the front.
    pub fn push_front(&mut self, _element: T)
        ensures
            final(self)@ == seq![_element] + old(self)@,
    {
        let new_node = Node { data: _element, next: self.head.take() };
        self.head = Some(Box::new(new_node));
    }

    /// Removes the element at the front and returns it; `None` if the list
    /// is empty.
    pub fn pop_front(&mut self) -> (element: Option<T>)
        ensures
            old(self)@.len() == 0 ==> element is None && final(self)@ == old(self)@,
            old(self)@.len() > 0 ==> element == Some(old(self)@.first()) && final(self)@ == old(
                self,
            )@.drop_first(),
    {
        if self.head.is_none() {
            return None;
        }
        let mut old_head = self.head.take().unwrap();
        let new_head = old_head.next.take();
        self.head = new_head;
        assert(self@ =~= old(self)@.drop_first());
        Some(old_head.data)
    }

    /// The elements from the front of the list to its back.
    pub fn into_vec(self) -> (vec: Vec<T>)
        ensures
            vec@ == self@,
    {
        let mut vec = Vec::new();
        let mut opt_node = self.head;
        loop
            invariant
                vec@ + chain(opt_node) == self@,
            ensures
                vec@ == self@,
            decreases opt_node,
        {
            match opt_node {
                Some(node) => {
                    let node = *node;
                    assert((vec@.push(node.data)) + chain(node.next) =~= vec@ + chain(opt_node));
                    vec.push(node.data);
                    opt_node = node.next;
                },
                None => {
                    assert(vec@ + chain(opt_node) =~= vec@);
                    break ;
                },
            }
        }
        vec
    }
}

impl<T: Clone> SimpleLinkedList<T> {
    /// A list of clones of the elements, from the back of this list to its
    /// front.
    pub fn rev(&self) -> (reversed: SimpleLinkedList<T>)
        ensures
            reversed@.len() == self@.len(),
            forall|i: int|
                0 <= i < self@.len() ==> cloned(self@[i], #[trigger] reversed@[self@.len() - 1 - i]),
    {
        let mut reversed = SimpleLinkedList::new();
        let mut opt_node = &self.head;
        let ghost mut done: Seq<T> = Seq::empty();
        loop
            invariant
                done + chain(*opt_node) == self@,
                reversed@.len() == done.len(),
                forall|i: int|
                    0 <= i < done.len() ==> cloned(
                        done[i],
                        #[trigger] reversed@[done.len() - 1 - i],
                    ),
            ensures
                done == self@,
                reversed@.len() == done.len(),
                forall|i: int|
                    0 <= i < done.len() ==> cloned(
                        done[i],
                        #[trigger] reversed@[done.len() - 1 - i],
                    ),
            decreases *opt_node,
        {
            match opt_node {
                Some(node) => {
                    let ghost before = reversed@;
                    reversed.push_front(node.data.clone());
                    proof {
                        let grown = done.push(node.data);
                        assert(grown + chain(node.next) =~= done + chain(*opt_node));
                        assert forall|i: int| 0 <= i < grown.len() implies cloned(
                            grown[i],
                            #[trigger] reversed@[grown.len() - 1 - i],
                        ) by {
                            if i < done.len() {
                                assert(reversed@[grown.len() - 1 - i] == before[done.len() - 1 - i]);
                            }
                        }
                        done = grown;
                    }
                    opt_node = &node.next;
                },
                None => {
                    assert(done + chain(*opt_node) =~= done);
                    break ;
                },
            }
        }
        reversed
    }

    /// A list of clones of the elements of `_item`, in their order.
    pub fn from_slice(_item: &[T]) -> (list: SimpleLinkedList<T>)
        ensures
            list@.len() == _item@.len(),
            forall|i: int| 0 <= i < _item@.len() ==> cloned(_item@[i], #[trigger] list@[i]),
    {
        let mut list = SimpleLinkedList::new();
        let mut i: usize = 0;
        while i < _item.len()
            invariant
                i <= _item@.len(),
                list@.len() == i,
                forall|k: int| 0 <= k < i ==> cloned(_item@[k], #[trigger] list@[k]),
            decreases _item@.len() - i,
        {
            list.push(_item[i].clone());
            i += 1;
        }
        list
    }
}

} // verus!
