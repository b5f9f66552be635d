use queryer::{strtok, Node};
use std::rc::Rc;

fn chars(s: &str) -> Vec<char> {
    s.chars().collect()
}

#[test]
fn strtok_splits_at_first_delimiter() {
    let mut s = chars("hello world again");
    let hello = strtok(&mut s, ' ');
    assert_eq!(hello, chars("hello"));
    assert_eq!(s, chars("world again"));
}

#[test]
fn strtok_without_delimiter_takes_all() {
    let mut s = chars("hello");
    let all = strtok(&mut s, ',');
    assert_eq!(all, chars("hello"));
    assert!(s.is_empty());
}

#[test]
fn strtok_multibyte_delimiter() {
    let mut s = chars("a→b→c");
    assert_eq!(strtok(&mut s, '→'), chars("a"));
    assert_eq!(s, chars("b→c"));
}

#[test]
fn nodes_share_downstream() {
    let mut node1 = Node::new(1);
    let mut node2 = Node::new(2);
    let mut node3 = Node::new(3);
    let node4 = Node::new(4);
    assert!(node1.get_downstream().is_none());
    node3.update_downstream(Rc::new(node4));
    node1.update_downstream(Rc::new(node3));
    node2.update_downstream(node1.get_downstream().unwrap());
    let d1 = node1.get_downstream().unwrap();
    let d2 = node2.get_downstream().unwrap();
    assert!(Rc::ptr_eq(&d1, &d2));
    assert_eq!(d2.id, 3);
    assert_eq!(d2.get_downstream().unwrap().id, 4);
}
