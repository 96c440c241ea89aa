use flat_dom::{FlatSink, Node, NodeData, NodeHandle};

#[test]
fn new_arena_holds_only_the_document() {
    let sink = FlatSink::new();
    assert_eq!(sink.root, NodeHandle(0));
    assert_eq!(sink.nodes.len(), 1);
    assert_eq!(sink.nodes[0].id, NodeHandle(0));
    assert_eq!(sink.nodes[0].parent, None);
    assert!(sink.nodes[0].children.is_empty());
    assert_eq!(sink.nodes[0].data, NodeData::Document);
}

#[test]
fn node_new_has_no_parent_and_no_children() {
    let node = Node::new(7, NodeData::Text { contents: String::from("x") });
    assert_eq!(node.id, NodeHandle(7));
    assert_eq!(node.parent, None);
    assert!(node.children.is_empty());
    assert_eq!(node.data, NodeData::Text { contents: String::from("x") });
}

#[test]
fn make_node_hands_out_rising_handles() {
    let mut sink = FlatSink::new();
    let a = sink.make_node(NodeData::Comment { contents: String::from("a") });
    let b = sink.make_node(NodeData::Document);
    let c = sink.make_node(NodeData::Text { contents: String::from("c") });
    assert_eq!(a, NodeHandle(1));
    assert_eq!(b, NodeHandle(2));
    assert_eq!(c, NodeHandle(3));
    assert_eq!(sink.nodes.len(), 4);
    assert_eq!(sink.node(a).id, a);
    assert_eq!(sink.node(a).data, NodeData::Comment { contents: String::from("a") });
    assert_eq!(sink.node(b).data, NodeData::Document);
    assert_eq!(sink.node(c).parent, None);
    assert!(sink.node(c).children.is_empty());
}

#[test]
fn make_node_keeps_earlier_nodes() {
    let mut sink = FlatSink::new();
    let a = sink.make_node(NodeData::Comment { contents: String::from("first") });
    for _ in 0..500 {
        sink.make_node(NodeData::Document);
    }
    assert_eq!(sink.nodes.len(), 502);
    assert_eq!(sink.node(a).data, NodeData::Comment { contents: String::from("first") });
    assert_eq!(sink.node(NodeHandle(501)).id, NodeHandle(501));
}

#[test]
fn node_mut_changes_the_node_in_place() {
    let mut sink = FlatSink::new();
    let a = sink.make_node(NodeData::Document);
    sink.node_mut(a).parent = Some(NodeHandle(0));
    sink.node_mut(NodeHandle(0)).children.push(a);
    assert_eq!(sink.node(a).parent, Some(NodeHandle(0)));
    assert_eq!(sink.node(NodeHandle(0)).children, vec![a]);
    assert_eq!(sink.nodes.len(), 2);
}

#[test]
fn holds_tells_handles_of_the_arena_from_others() {
    let mut sink = FlatSink::new();
    let a = sink.make_node(NodeData::Document);
    assert!(sink.holds(&NodeHandle(0)));
    assert!(sink.holds(&a));
    assert!(!sink.holds(&NodeHandle(2)));
    assert!(!sink.holds(&NodeHandle(usize::MAX)));
}

#[test]
fn handle_encodes_as_its_integer() {
    assert_eq!(NodeHandle(0).encode(), 0);
    assert_eq!(NodeHandle(41).encode(), 41);
}
