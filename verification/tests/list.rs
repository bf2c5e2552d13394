use heap::list::List;

#[test]
fn list_is_empty() {
    let mut list = List::<i32>::new();
    assert!(list.is_empty());
    list.add_front(1);
    assert!(!list.is_empty());
    list.add_front(2);
    assert!(!list.is_empty());
    assert_eq!(list.rm_front().unwrap(), 2);
    assert!(!list.is_empty());
    assert_eq!(list.rm_front().unwrap(), 1);
    assert!(list.is_empty());
}

#[test]
fn size() {
    let mut list = List::<i32>::new();
    assert_eq!(list.size(), 0);
    list.add_front(1);
    assert_eq!(list.size(), 1);
    list.add_front(3);
    assert_eq!(list.size(), 2);
    list.add_after(2, &3);
    assert_eq!(list.size(), 3);
    list.add_tail(0);
    assert_eq!(list.size(), 4);
    assert_eq!(list.rm_front().unwrap(), 3);
    assert_eq!(list.size(), 3);
    assert!(!list.is_empty());
    assert_eq!(list.rm_front().unwrap(), 2);
    assert_eq!(list.size(), 2);
    assert!(!list.is_empty());
    assert_eq!(list.rm_front().unwrap(), 1);
    assert_eq!(list.size(), 1);
    assert!(!list.is_empty());
    assert_eq!(list.rm_front().unwrap(), 0);
    assert_eq!(list.size(), 0);
    assert!(list.is_empty());
}

#[test]
fn list_head_and_tail() {
    let mut list = List::<i32>::new();
    assert!(list.head().is_none());
    assert!(list.tail().is_none());
    list.add_front(1);
    list.add_front(2);
    assert_eq!(*list.head().unwrap(), 2);
    assert_eq!(*list.tail().unwrap(), 1);
    *list.head_mut().unwrap() = 7;
    assert_eq!(*list.head().unwrap(), 7);
    assert_eq!(*list.tail().unwrap(), 1);
}

#[test]
fn list_contains() {
    let mut list = List::<i32>::new();
    assert!(!list.contains(&2));
    list.add_front(1);
    list.add_front(2);
    list.add_front(3);
    assert!(list.contains(&2));
    assert!(list.contains(&1));
    assert!(list.contains(&3));
    assert!(!list.contains(&4));
}

#[test]
fn list_add_after() {
    let mut list = List::<i32>::new();
    list.add_front(1);
    list.add_front(3);
    list.add_front(4);
    list.add_after(2, &3);

    assert_eq!(4, list.rm_front().unwrap());
    assert_eq!(3, list.rm_front().unwrap());
    assert_eq!(2, list.rm_front().unwrap());
    assert_eq!(1, list.rm_front().unwrap());

    // inserting after an absent element changes nothing
    let mut list = List::<i32>::new();
    list.add_front(1);
    list.add_after(9, &5);
    assert_eq!(list.size(), 1);
    assert_eq!(1, list.rm_front().unwrap());
    assert!(list.rm_front().is_none());

    // insertion lands after the first of two equal elements
    let mut list = List::<i32>::new();
    list.add_tail(5);
    list.add_tail(5);
    list.add_after(8, &5);
    assert_eq!(5, list.rm_front().unwrap());
    assert_eq!(8, list.rm_front().unwrap());
    assert_eq!(5, list.rm_front().unwrap());
}
