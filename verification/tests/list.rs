use fast_tracer::list::AppendList;

#[test]
fn list_grows_and_shrinks_at_the_head() {
    let mut list: AppendList<u8> = AppendList::new();
    assert!(list.is_empty());
    assert_eq!(list.front(), None);
    assert_eq!(list.pop_front(), None);
    list.push_front(1);
    list.push_front(2);
    list.push_front(3);
    assert!(!list.is_empty());
    assert_eq!(list.front(), Some(&3));
    assert_eq!(list.iter(), vec![&3, &2, &1]);
    if let Some(first) = list.front_mut() {
        *first = 9;
    }
    assert_eq!(list.iter(), vec![&9, &2, &1]);
    assert_eq!(list.pop_front(), Some(9));
    assert_eq!(list.pop_front(), Some(2));
    assert_eq!(list.iter(), vec![&1]);
    list.reset();
    assert!(list.is_empty());
    assert_eq!(list.iter(), Vec::<&u8>::new());
}
