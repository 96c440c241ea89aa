use flat_dom::{
    node_or_text_to_node, Attribute, ElementFlags, FlatSink, NodeData, NodeHandle, NodeOrText,
    QualName, QuirksMode, SinkError,
};

const HTML: &str = "http://www.w3.org/1999/xhtml";

fn html_name(local: &str) -> QualName {
    QualName::new(None, String::from(HTML), String::from(local))
}

fn attr(name: &str, value: &str) -> Attribute {
    Attribute {
        name: QualName::new(None, String::new(), String::from(name)),
        value: String::from(value),
    }
}

fn plain() -> ElementFlags {
    ElementFlags { template: false, mathml_annotation_xml_integration_point: false }
}

fn element(sink: &mut FlatSink, local: &str) -> NodeHandle {
    sink.create_element(html_name(local), Vec::new(), plain())
}

fn text(contents: &str) -> NodeOrText {
    NodeOrText::AppendText(String::from(contents))
}

#[test]
fn get_document_is_handle_zero() {
    let mut sink = FlatSink::new();
    assert_eq!(sink.get_document(), NodeHandle(0));
    element(&mut sink, "html");
    assert_eq!(sink.get_document(), NodeHandle(0));
    assert_eq!(sink.get_document(), sink.root);
}

#[test]
fn same_node_compares_handles() {
    let mut sink = FlatSink::new();
    let a = sink.create_comment(String::from("same"));
    let b = sink.create_comment(String::from("same"));
    assert!(sink.same_node(&a, &a));
    assert!(!sink.same_node(&a, &b));
    assert!(sink.same_node(&NodeHandle(1), &a));
}

#[test]
fn elem_name_returns_the_qualified_name() {
    let mut sink = FlatSink::new();
    let svg = sink.create_element(
        QualName::new(
            Some(String::from("svg")),
            String::from("http://www.w3.org/2000/svg"),
            String::from("rect"),
        ),
        Vec::new(),
        plain(),
    );
    let name = sink.elem_name(&svg);
    assert_eq!(name.prefix, Some(String::from("svg")));
    assert_eq!(name.ns, "http://www.w3.org/2000/svg");
    assert_eq!(name.local, "rect");
}

#[test]
fn is_element_tells_elements_from_other_kinds() {
    let mut sink = FlatSink::new();
    let e = element(&mut sink, "p");
    let c = sink.create_comment(String::from("c"));
    let pi = sink.create_pi(String::from("t"), String::from("d"));
    assert!(sink.is_element(&e));
    assert!(!sink.is_element(&c));
    assert!(!sink.is_element(&pi));
    assert!(!sink.is_element(&NodeHandle(0)));
}

#[test]
fn create_element_stores_name_attributes_and_flags() {
    let mut sink = FlatSink::new();
    let e = sink.create_element(
        html_name("div"),
        vec![attr("class", "a"), attr("id", "x")],
        ElementFlags { template: false, mathml_annotation_xml_integration_point: true },
    );
    assert_eq!(e, NodeHandle(1));
    assert_eq!(sink.nodes.len(), 2);
    assert_eq!(
        sink.node(e).data,
        NodeData::Element {
            name: html_name("div"),
            attrs: vec![attr("class", "a"), attr("id", "x")],
            template_contents: None,
            mathml_annotation_xml_integration_point: true,
        }
    );
    assert_eq!(sink.node(e).parent, None);
    assert!(sink.node(e).children.is_empty());
}

#[test]
fn create_element_for_a_template_allocates_twice() {
    let mut sink = FlatSink::new();
    let e = sink.create_element(
        html_name("template"),
        Vec::new(),
        ElementFlags { template: true, mathml_annotation_xml_integration_point: false },
    );
    assert_eq!(e, NodeHandle(2));
    assert_eq!(sink.nodes.len(), 3);
    assert_eq!(sink.node(NodeHandle(1)).data, NodeData::Document);
    assert_eq!(sink.node(NodeHandle(1)).parent, None);
    assert_eq!(
        sink.node(e).data,
        NodeData::Element {
            name: html_name("template"),
            attrs: Vec::new(),
            template_contents: Some(NodeHandle(1)),
            mathml_annotation_xml_integration_point: false,
        }
    );
}

#[test]
fn create_comment_and_pi_allocate_once() {
    let mut sink = FlatSink::new();
    let c = sink.create_comment(String::from(" note "));
    let pi = sink.create_pi(String::from("xml-stylesheet"), String::from("href=\"a.css\""));
    assert_eq!(c, NodeHandle(1));
    assert_eq!(pi, NodeHandle(2));
    assert_eq!(sink.nodes.len(), 3);
    assert_eq!(sink.node(c).data, NodeData::Comment { contents: String::from(" note ") });
    assert_eq!(
        sink.node(pi).data,
        NodeData::ProcessingInstruction {
            target: String::from("xml-stylesheet"),
            contents: String::from("href=\"a.css\""),
        }
    );
}

#[test]
fn node_or_text_to_node_passes_a_handle_through() {
    let mut sink = FlatSink::new();
    let e = element(&mut sink, "p");
    let got = node_or_text_to_node(&mut sink, NodeOrText::AppendNode(e));
    assert_eq!(got, e);
    assert_eq!(sink.nodes.len(), 2);
}

#[test]
fn node_or_text_to_node_makes_a_text_node() {
    let mut sink = FlatSink::new();
    let got = node_or_text_to_node(&mut sink, text("hello"));
    assert_eq!(got, NodeHandle(1));
    assert_eq!(sink.nodes.len(), 2);
    assert_eq!(sink.node(got).data, NodeData::Text { contents: String::from("hello") });
    assert_eq!(sink.node(got).parent, None);
}

#[test]
fn append_links_parent_and_child() {
    let mut sink = FlatSink::new();
    let root = sink.get_document();
    let a = element(&mut sink, "a");
    let b = element(&mut sink, "b");
    sink.append(&root, NodeOrText::AppendNode(a));
    sink.append(&root, NodeOrText::AppendNode(b));
    assert_eq!(sink.node(root).children, vec![a, b]);
    assert_eq!(sink.node(a).parent, Some(root));
    assert_eq!(sink.node(b).parent, Some(root));
    assert_eq!(sink.node(root).parent, None);
}

#[test]
fn append_text_makes_a_fresh_text_node_each_time() {
    let mut sink = FlatSink::new();
    let p = element(&mut sink, "p");
    sink.append(&p, text("text_a"));
    sink.append(&p, text("text_b"));
    assert_eq!(sink.nodes.len(), 4);
    assert_eq!(sink.node(p).children, vec![NodeHandle(2), NodeHandle(3)]);
    assert_eq!(sink.node(NodeHandle(2)).data, NodeData::Text { contents: String::from("text_a") });
    assert_eq!(sink.node(NodeHandle(3)).data, NodeData::Text { contents: String::from("text_b") });
    assert_eq!(sink.node(NodeHandle(2)).parent, Some(p));
    assert_eq!(sink.node(NodeHandle(3)).parent, Some(p));
}

#[test]
fn append_empty_text_still_makes_a_node() {
    let mut sink = FlatSink::new();
    let p = element(&mut sink, "p");
    sink.append(&p, text(""));
    assert_eq!(sink.node(p).children, vec![NodeHandle(2)]);
    assert_eq!(sink.node(NodeHandle(2)).data, NodeData::Text { contents: String::new() });
}

#[test]
fn append_before_sibling_inserts_just_before() {
    let mut sink = FlatSink::new();
    let list = element(&mut sink, "ul");
    let a = element(&mut sink, "a");
    let b = element(&mut sink, "b");
    let c = element(&mut sink, "c");
    let x = element(&mut sink, "x");
    sink.append(&list, NodeOrText::AppendNode(a));
    sink.append(&list, NodeOrText::AppendNode(b));
    sink.append(&list, NodeOrText::AppendNode(c));
    sink.append_before_sibling(&b, NodeOrText::AppendNode(x));
    assert_eq!(sink.node(list).children, vec![a, x, b, c]);
    assert_eq!(sink.node(x).parent, Some(list));
    assert_eq!(sink.node(b).parent, Some(list));
}

#[test]
fn append_before_first_sibling_puts_the_node_in_front() {
    let mut sink = FlatSink::new();
    let list = element(&mut sink, "ul");
    let a = element(&mut sink, "a");
    let x = element(&mut sink, "x");
    sink.append(&list, NodeOrText::AppendNode(a));
    sink.append_before_sibling(&a, NodeOrText::AppendNode(x));
    assert_eq!(sink.node(list).children, vec![x, a]);
}

#[test]
fn append_before_sibling_with_text_makes_a_text_node() {
    let mut sink = FlatSink::new();
    let list = element(&mut sink, "ul");
    let a = element(&mut sink, "a");
    sink.append(&list, text("lead"));
    sink.append(&list, NodeOrText::AppendNode(a));
    sink.append_before_sibling(&a, text("mid"));
    assert_eq!(sink.nodes.len(), 5);
    assert_eq!(sink.node(list).children, vec![NodeHandle(3), NodeHandle(4), a]);
    assert_eq!(sink.node(NodeHandle(3)).data, NodeData::Text { contents: String::from("lead") });
    assert_eq!(sink.node(NodeHandle(4)).data, NodeData::Text { contents: String::from("mid") });
    assert_eq!(sink.node(NodeHandle(4)).parent, Some(list));
}

#[test]
fn append_doctype_goes_under_the_document() {
    let mut sink = FlatSink::new();
    let e = element(&mut sink, "html");
    sink.append(&NodeHandle(0), NodeOrText::AppendNode(e));
    sink.append_doctype_to_document(
        String::from("html"),
        String::from("-//W3C//DTD HTML 4.01//EN"),
        String::from("http://www.w3.org/TR/html4/strict.dtd"),
    );
    assert_eq!(sink.node(NodeHandle(0)).children, vec![e, NodeHandle(2)]);
    assert_eq!(sink.node(NodeHandle(2)).parent, Some(NodeHandle(0)));
    assert_eq!(
        sink.node(NodeHandle(2)).data,
        NodeData::DocType {
            name: String::from("html"),
            public_id: String::from("-//W3C//DTD HTML 4.01//EN"),
            system_id: String::from("http://www.w3.org/TR/html4/strict.dtd"),
        }
    );
}

#[test]
fn remove_from_parent_takes_the_entry_out() {
    let mut sink = FlatSink::new();
    let list = element(&mut sink, "ul");
    let a = element(&mut sink, "a");
    let b = element(&mut sink, "b");
    let c = element(&mut sink, "c");
    sink.append(&list, NodeOrText::AppendNode(a));
    sink.append(&list, NodeOrText::AppendNode(b));
    sink.append(&list, NodeOrText::AppendNode(c));
    sink.remove_from_parent(&b);
    assert_eq!(sink.node(list).children, vec![a, c]);
    assert_eq!(sink.nodes.len(), 5);
    assert_eq!(sink.node(b).id, b);
}

#[test]
fn remove_from_parent_leaves_the_parent_field_set() {
    let mut sink = FlatSink::new();
    let list = element(&mut sink, "ul");
    let a = element(&mut sink, "a");
    sink.append(&list, NodeOrText::AppendNode(a));
    assert!(sink.has_parent_node(&a));
    assert!(sink.is_listed(&a));
    sink.remove_from_parent(&a);
    assert!(sink.node(list).children.is_empty());
    assert!(sink.has_parent_node(&a));
    assert_eq!(sink.node(a).parent, Some(list));
    assert!(!sink.is_listed(&a));
}

#[test]
fn removed_node_can_be_appended_elsewhere() {
    let mut sink = FlatSink::new();
    let one = element(&mut sink, "one");
    let two = element(&mut sink, "two");
    let a = element(&mut sink, "a");
    sink.append(&one, NodeOrText::AppendNode(a));
    sink.remove_from_parent(&a);
    sink.append(&two, NodeOrText::AppendNode(a));
    assert!(sink.node(one).children.is_empty());
    assert_eq!(sink.node(two).children, vec![a]);
    assert_eq!(sink.node(a).parent, Some(two));
    assert!(sink.is_listed(&a));
}

#[test]
fn has_parent_node_is_false_for_new_nodes_and_the_root() {
    let mut sink = FlatSink::new();
    let a = element(&mut sink, "a");
    assert!(!sink.has_parent_node(&a));
    assert!(!sink.has_parent_node(&NodeHandle(0)));
    assert!(!sink.is_listed(&a));
    assert!(!sink.is_listed(&NodeHandle(0)));
}

#[test]
fn reparent_children_moves_them_behind_the_others() {
    let mut sink = FlatSink::new();
    let source = element(&mut sink, "source");
    let dest = element(&mut sink, "dest");
    let a = element(&mut sink, "a");
    let b = element(&mut sink, "b");
    let c = element(&mut sink, "c");
    let d = element(&mut sink, "d");
    sink.append(&source, NodeOrText::AppendNode(a));
    sink.append(&source, NodeOrText::AppendNode(b));
    sink.append(&source, NodeOrText::AppendNode(c));
    sink.append(&dest, NodeOrText::AppendNode(d));
    sink.reparent_children(&source, &dest);
    assert!(sink.node(source).children.is_empty());
    assert_eq!(sink.node(dest).children, vec![d, a, b, c]);
    assert_eq!(sink.node(a).parent, Some(dest));
    assert_eq!(sink.node(b).parent, Some(dest));
    assert_eq!(sink.node(c).parent, Some(dest));
    assert_eq!(sink.node(d).parent, Some(dest));
    assert_eq!(sink.node(source).parent, None);
}

#[test]
fn reparent_children_of_a_childless_node_changes_nothing() {
    let mut sink = FlatSink::new();
    let source = element(&mut sink, "source");
    let dest = element(&mut sink, "dest");
    let d = element(&mut sink, "d");
    sink.append(&dest, NodeOrText::AppendNode(d));
    sink.reparent_children(&source, &dest);
    assert!(sink.node(source).children.is_empty());
    assert_eq!(sink.node(dest).children, vec![d]);
}

#[test]
fn reparent_children_onto_the_same_node_keeps_the_list() {
    let mut sink = FlatSink::new();
    let node = element(&mut sink, "node");
    let a = element(&mut sink, "a");
    let b = element(&mut sink, "b");
    sink.append(&node, NodeOrText::AppendNode(a));
    sink.append(&node, NodeOrText::AppendNode(b));
    sink.reparent_children(&node, &node);
    assert_eq!(sink.node(node).children, vec![a, b]);
    assert_eq!(sink.node(a).parent, Some(node));
    assert_eq!(sink.node(b).parent, Some(node));
}

#[test]
fn add_attrs_if_missing_keeps_the_first_value() {
    let mut sink = FlatSink::new();
    let e = element(&mut sink, "div");
    sink.add_attrs_if_missing(&e, vec![attr("class", "a")]);
    sink.add_attrs_if_missing(&e, vec![attr("class", "b"), attr("id", "x")]);
    match &sink.node(e).data {
        NodeData::Element { attrs, .. } => {
            assert_eq!(*attrs, vec![attr("class", "a"), attr("id", "x")]);
        }
        other => panic!("not an element: {:?}", other),
    }
}

#[test]
fn add_attrs_if_missing_leaves_the_rest_of_the_element() {
    let mut sink = FlatSink::new();
    let e = sink.create_element(
        html_name("template"),
        vec![attr("a", "1")],
        ElementFlags { template: true, mathml_annotation_xml_integration_point: true },
    );
    let child = sink.create_comment(String::from("c"));
    sink.append(&e, NodeOrText::AppendNode(child));
    sink.add_attrs_if_missing(&e, vec![attr("b", "2")]);
    assert_eq!(
        sink.node(e).data,
        NodeData::Element {
            name: html_name("template"),
            attrs: vec![attr("a", "1"), attr("b", "2")],
            template_contents: Some(NodeHandle(1)),
            mathml_annotation_xml_integration_point: true,
        }
    );
    assert_eq!(sink.node(e).children, vec![child]);
    assert_eq!(sink.node(e).parent, None);
}

#[test]
fn get_template_contents_is_not_supported() {
    let mut sink = FlatSink::new();
    let e = sink.create_element(
        html_name("template"),
        Vec::new(),
        ElementFlags { template: true, mathml_annotation_xml_integration_point: false },
    );
    assert_eq!(sink.get_template_contents(&e), Err(SinkError::TemplatesNotSupported));
    assert_eq!(sink.nodes.len(), 3);
}

#[test]
fn mark_script_already_started_is_not_supported() {
    let mut sink = FlatSink::new();
    let e = element(&mut sink, "script");
    assert_eq!(sink.mark_script_already_started(&e), Err(SinkError::Unsupported));
}

#[test]
fn sink_errors_say_what_was_refused() {
    assert_eq!(SinkError::TemplatesNotSupported.message(), "Templates not supported");
    assert_eq!(SinkError::Unsupported.message(), "unsupported");
}

#[test]
fn quirks_mode_and_parse_errors_are_dropped() {
    let mut sink = FlatSink::new();
    let e = element(&mut sink, "p");
    sink.append(&NodeHandle(0), NodeOrText::AppendNode(e));
    let before = format!("{:?}", sink);
    sink.set_quirks_mode(QuirksMode::Quirks);
    sink.set_quirks_mode(QuirksMode::LimitedQuirks);
    sink.set_quirks_mode(QuirksMode::NoQuirks);
    sink.parse_error("Unexpected token");
    assert_eq!(format!("{:?}", sink), before);
}

#[test]
fn finish_hands_the_arena_over() {
    let mut sink = FlatSink::new();
    let e = element(&mut sink, "p");
    sink.append(&NodeHandle(0), NodeOrText::AppendNode(e));
    let done = sink.finish();
    assert_eq!(done.root, NodeHandle(0));
    assert_eq!(done.nodes.len(), 2);
    assert_eq!(done.nodes[0].children, vec![e]);
    assert_eq!(done.nodes[1].parent, Some(NodeHandle(0)));
}

#[test]
fn document_with_doctype_html_body_and_text() {
    let mut sink = FlatSink::new();
    let root = sink.get_document();
    sink.append_doctype_to_document(String::from("html"), String::new(), String::new());
    let html = element(&mut sink, "html");
    sink.append(&root, NodeOrText::AppendNode(html));
    let body = element(&mut sink, "body");
    sink.append(&html, NodeOrText::AppendNode(body));
    sink.append(&body, text("Hi"));
    let tree = sink.finish();

    assert_eq!(tree.root, NodeHandle(0));
    assert_eq!(tree.nodes.len(), 5);
    assert_eq!(tree.nodes[0].data, NodeData::Document);
    assert_eq!(tree.nodes[0].children, vec![NodeHandle(1), html]);
    assert_eq!(
        tree.nodes[1].data,
        NodeData::DocType {
            name: String::from("html"),
            public_id: String::new(),
            system_id: String::new(),
        }
    );
    assert!(tree.nodes[1].children.is_empty());
    assert_eq!(tree.node(html).children, vec![body]);
    assert_eq!(tree.elem_name(&html).local, "html");
    assert_eq!(tree.node(body).children, vec![NodeHandle(4)]);
    assert_eq!(tree.elem_name(&body).local, "body");
    assert_eq!(tree.nodes[4].data, NodeData::Text { contents: String::from("Hi") });
    assert!(tree.nodes[4].children.is_empty());
    assert_eq!(tree.nodes[4].parent, Some(body));
    assert_eq!(tree.node(body).parent, Some(html));
    assert_eq!(tree.node(html).parent, Some(root));
}
