use fstree::putback_iter::PutBack;

#[test]
fn hands_out_the_wrapped_items_in_order() {
    let mut it = PutBack::new(vec![1, 2, 3].into_iter());
    assert_eq!(it.next(), Some(1));
    assert_eq!(it.next(), Some(2));
    assert_eq!(it.next(), Some(3));
    assert_eq!(it.next(), None);
    assert_eq!(it.next(), None);
}

#[test]
fn an_item_put_back_comes_next() {
    let mut it = PutBack::new(vec!["a", "b", "c"].into_iter());
    let first = it.next().unwrap();
    assert_eq!(first, "a");
    it.put_back(first);
    assert_eq!(it.next(), Some("a"));
    assert_eq!(it.next(), Some("b"));
    assert_eq!(it.next(), Some("c"));
    assert_eq!(it.next(), None);
}

#[test]
fn items_put_back_come_out_first_in_first_out() {
    let mut it = PutBack::new(vec![10, 20].into_iter());
    it.put_back(1);
    it.put_back(2);
    it.put_back(3);
    assert_eq!(it.next(), Some(1));
    assert_eq!(it.next(), Some(2));
    it.put_back(4);
    assert_eq!(it.next(), Some(3));
    assert_eq!(it.next(), Some(4));
    assert_eq!(it.next(), Some(10));
    assert_eq!(it.next(), Some(20));
    assert_eq!(it.next(), None);
}

#[test]
fn put_back_after_the_end_is_handed_out() {
    let mut it = PutBack::new(Vec::<String>::new().into_iter());
    assert_eq!(it.next(), None);
    it.put_back("late".to_string());
    assert_eq!(it.next(), Some("late".to_string()));
    assert_eq!(it.next(), None);
}

#[test]
fn content_is_not_looked_at() {
    let mut it = PutBack::new(vec!["", "  ", "$ ls"].into_iter());
    it.put_back("\t");
    assert_eq!(it.next(), Some("\t"));
    assert_eq!(it.next(), Some(""));
    assert_eq!(it.next(), Some("  "));
    assert_eq!(it.next(), Some("$ ls"));
}
