use playground::simple_linked_list::SimpleLinkedList;

#[test]
fn new_list_is_empty() {
    let list: SimpleLinkedList<u32> = SimpleLinkedList::new();
    assert_eq!(list.len(), 0);
    assert_eq!(list.peek(), None);
}

#[test]
fn push_and_pop_work_at_the_back() {
    let mut list = SimpleLinkedList::new();
    list.push(1);
    list.push(2);
    list.push(3);
    assert_eq!(list.len(), 3);
    assert_eq!(list.peek(), Some(&3));
    assert_eq!(list.pop(), Some(3));
    assert_eq!(list.pop(), Some(2));
    assert_eq!(list.len(), 1);
    assert_eq!(list.pop(), Some(1));
    assert_eq!(list.pop(), None);
    assert_eq!(list.len(), 0);
}

#[test]
fn push_front_and_pop_front_work_at_the_front() {
    let mut list = SimpleLinkedList::new();
    list.push(2);
    list.push_front(1);
    list.push(3);
    assert_eq!(list.peek(), Some(&3));
    assert_eq!(list.pop_front(), Some(1));
    assert_eq!(list.pop_front(), Some(2));
    assert_eq!(list.pop_front(), Some(3));
    assert_eq!(list.pop_front(), None);
}

#[test]
fn rev_reverses_and_leaves_the_list() {
    let list = SimpleLinkedList::from_slice(&[1, 2, 3, 4]);
    let reversed = list.rev();
    assert_eq!(list.into_vec(), vec![1, 2, 3, 4]);
    assert_eq!(reversed.into_vec(), vec![4, 3, 2, 1]);
    let empty: SimpleLinkedList<u8> = SimpleLinkedList::new();
    assert_eq!(empty.rev().into_vec(), Vec::<u8>::new());
}

#[test]
fn slices_and_vectors() {
    let list = SimpleLinkedList::from_slice(&["a".to_string(), "b".to_string()]);
    assert_eq!(list.len(), 2);
    assert_eq!(list.into_vec(), vec!["a".to_string(), "b".to_string()]);
}
