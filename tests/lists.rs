use bfc::HeadedList;

#[test]
fn list_keeps_its_head() {
    let mut l = HeadedList::new(1u64, None);
    assert_eq!(*l.val(), 1);
    assert!(l.next().is_none());
    assert_eq!(l.take(), None);
    assert_eq!(l.val_cpy(), 1);
}

#[test]
fn list_receive_and_take_are_a_stack() {
    let mut l = HeadedList::new(1u64, None);
    l.receive(2);
    l.receive(3);
    assert_eq!(*l.val(), 3);
    assert_eq!(*l.next().unwrap().val(), 2);
    *l.val_mut() += 10;
    assert_eq!(l.take(), Some(13));
    assert_eq!(l.take(), Some(2));
    assert_eq!(l.take(), None);
    assert_eq!(l.reclaim_val(), 1);
}

#[test]
fn list_put_next_and_reclaim() {
    let tail = HeadedList::new(5u64, Some(HeadedList::new(6, None)));
    let mut l = HeadedList::new(4u64, Some(tail));
    *l.next_mut().unwrap().val_mut() = 50;
    let old = l.put_next(Some(HeadedList::new(7, None))).unwrap();
    assert_eq!(*old.val(), 50);
    assert_eq!(*old.next().unwrap().val(), 6);
    let (head, rest) = l.reclaim();
    assert_eq!(head, 4);
    let rest = rest.unwrap();
    assert_eq!(*rest.val(), 7);
    assert!(rest.next().is_none());
    let mut single = HeadedList::new(9u64, None);
    assert!(single.next_mut().is_none());
    assert!(single.put_next(None).is_none());
}
