use artsy::Child;
use artsy::Node;
use artsy::Node4;

#[test]
fn node_stores_and_finds_a_key() {
    let mut node: Node<i32> = Node::new();
    assert_eq!(node.insert(b"ab", 5, 0xff), None);
    assert_eq!(node.get(b"ab", 0xff), Some(&5));
    assert_eq!(node.get(b"a", 0xff), None);
    assert!(node.contains(b"ab", 0xff));
    assert!(!node.contains(b"b", 0xff));
}

#[test]
fn node_insert_displaces_at_same_key() {
    let mut node: Node<i32> = Node::new();
    assert_eq!(node.insert(b"k", 1, 0), None);
    assert_eq!(node.insert(b"k", 2, 0), Some(1));
    assert_eq!(node.get(b"k", 0), Some(&2));
}

#[test]
fn smallest_layout_inserts_and_finds_children() {
    let mut n: Node4<i32> = Node4::new();
    assert!(matches!(n.insert_child(7, Child::Leaf(1)), Ok(None)));
    assert!(matches!(n.insert_child(9, Child::Leaf(2)), Ok(None)));
    let found = n.find_child(7).unwrap();
    assert_eq!(found.as_leaf(), Some(&1));
    assert!(n.find_child(8).is_none());
}

#[test]
fn smallest_layout_overflows_into_error() {
    let mut n: Node4<i32> = Node4::new();
    for b in 0..4u8 {
        assert!(n.insert_child(b, Child::Leaf(i32::from(b))).is_ok());
    }
    match n.insert_child(4, Child::Leaf(4)) {
        Err(Child::Leaf(v)) => assert_eq!(v, 4),
        _ => panic!("a full layout must hand the child back"),
    }
    assert!(n.insert_child_if_not_exists(5, Child::Leaf(5)).is_err());
    assert!(n.insert_child_if_not_exists(3, Child::Leaf(9)).is_ok());
}

#[test]
fn child_accessors_follow_the_variant() {
    let leaf: Child<i32> = Child::Leaf(3);
    assert_eq!(leaf.as_leaf(), Some(&3));
    assert!(leaf.as_node().is_none());
    assert_eq!(leaf.to_leaf(), Some(3));
    let node: Child<i32> = Child::Node(Node::new());
    assert!(node.as_leaf().is_none());
    assert!(node.as_node().is_some());
    assert!(node.to_leaf().is_none());
}

#[test]
fn default_layouts_are_empty() {
    let n16: artsy::Node16<i32> = Default::default();
    assert!(n16.find_child(0).is_none());
    assert!(n16.find_child(255).is_none());
    let n48: artsy::Node48<i32> = Default::default();
    assert!(n48.find_child(0).is_none());
    let n256: artsy::Node256<i32> = Default::default();
    assert!(n256.find_child(0).is_none());
    let n4: Node4<i32> = Default::default();
    assert!(n4.find_child(0).is_none());
}
