use enigmatext::error::RopeError;
use enigmatext::node::Node;
use enigmatext::text::Rope;

fn leaf(s: &str) -> Node {
    Node::Leaf { text: s.to_string(), length: s.chars().count() }
}

fn branch(weight: usize, left: Node, right: Node) -> Node {
    Node::Internal { weight, left: Box::new(left), right: Box::new(right) }
}

#[test]
fn from_node_takes_a_sound_tree() {
    let root = branch(3, leaf("abc"), branch(2, leaf("de"), leaf("fgh")));
    assert_eq!(root.measure(), Some(8));
    let rope = Rope::from_node(root).unwrap();
    assert_eq!(rope.collect_string(), "abcdefgh");
    assert_eq!(rope.len(), 8);
    assert_eq!(rope.leaf_count(), 3);
    assert_eq!(rope.depth(), 2);
}

#[test]
fn from_node_refuses_a_stale_weight() {
    let root = branch(2, leaf("abc"), leaf("de"));
    assert_eq!(root.measure(), None);
    assert_eq!(Rope::from_node(root).err(), Some(RopeError::InvalidStructure));
    let deep = branch(3, leaf("abc"), branch(5, leaf("de"), leaf("fgh")));
    assert_eq!(Rope::from_node(deep).err(), Some(RopeError::InvalidStructure));
}

#[test]
fn from_node_refuses_a_stale_leaf_length() {
    let root = branch(3, Node::Leaf { text: "ab".to_string(), length: 3 }, leaf("cd"));
    assert_eq!(Rope::from_node(root).err(), Some(RopeError::InvalidStructure));
    let bytes_for_chars = Node::Leaf { text: "h\u{e9}".to_string(), length: 3 };
    assert_eq!(Rope::from_node(bytes_for_chars).err(), Some(RopeError::InvalidStructure));
}

#[test]
fn from_node_balances_a_chain() {
    let words = ["a", " b", " c", " d", " e", " f", " g", " h"];
    let mut root = leaf(words[7]);
    for w in words[..7].iter().rev() {
        root = branch(w.chars().count(), leaf(w), root);
    }
    let rope = Rope::from_node(root).unwrap();
    assert_eq!(rope.collect_string(), "a b c d e f g h");
    assert_eq!(rope.leaf_count(), 8);
    assert_eq!(rope.depth(), 3);
    assert_eq!(rope.substr(2, 5), Ok("b c".to_string()));
}

#[test]
fn from_node_keeps_the_fragments_it_is_given() {
    let root = branch(11, leaf("hello world"), leaf(""));
    let rope = Rope::from_node(root).unwrap();
    assert_eq!(rope.leaf_count(), 2);
    assert_eq!(rope.collect_string(), "hello world");
}

#[test]
fn a_cloned_node_is_equal_in_text() {
    let root = branch(3, leaf("abc"), leaf("de"));
    let copy = root.clone();
    assert_eq!(copy.measure(), Some(5));
    assert_eq!(Rope::from_node(copy).unwrap().collect_string(), "abcde");
    assert_eq!(Rope::from_node(root).unwrap().collect_string(), "abcde");
}
