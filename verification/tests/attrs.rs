use flat_dom::attrs::{find_name, merge_missing};
use flat_dom::audit::distinct_names;
use flat_dom::{Attribute, QualName};

fn name(local: &str) -> QualName {
    QualName::new(None, String::new(), String::from(local))
}

fn attr(local: &str, value: &str) -> Attribute {
    Attribute { name: name(local), value: String::from(value) }
}

#[test]
fn same_as_needs_all_three_parts_to_agree() {
    let plain = QualName::new(None, String::from("ns"), String::from("a"));
    assert!(plain.same_as(&QualName::new(None, String::from("ns"), String::from("a"))));
    assert!(!plain.same_as(&QualName::new(None, String::from("ns"), String::from("b"))));
    assert!(!plain.same_as(&QualName::new(None, String::from("other"), String::from("a"))));
    assert!(!plain.same_as(&QualName::new(
        Some(String::from("p")),
        String::from("ns"),
        String::from("a")
    )));
    let prefixed = QualName::new(Some(String::from("p")), String::from("ns"), String::from("a"));
    assert!(prefixed.same_as(&QualName::new(
        Some(String::from("p")),
        String::from("ns"),
        String::from("a")
    )));
    assert!(!prefixed.same_as(&QualName::new(
        Some(String::from("q")),
        String::from("ns"),
        String::from("a")
    )));
    assert!(!prefixed.same_as(&plain));
}

#[test]
fn clone_keeps_names_and_attributes() {
    let prefixed = QualName::new(Some(String::from("p")), String::from("ns"), String::from("a"));
    assert_eq!(prefixed.clone(), prefixed);
    let a = attr("class", "a b");
    assert_eq!(a.clone(), a);
}

#[test]
fn find_name_looks_at_names_only() {
    let attrs = vec![attr("class", "a"), attr("id", "x")];
    assert!(find_name(&attrs, &name("class")));
    assert!(find_name(&attrs, &name("id")));
    assert!(!find_name(&attrs, &name("a")));
    assert!(!find_name(&attrs, &name("x")));
    assert!(!find_name(&Vec::new(), &name("class")));
}

#[test]
fn merge_missing_appends_new_names_in_order() {
    let mut attrs = vec![attr("a", "1")];
    merge_missing(&mut attrs, vec![attr("c", "3"), attr("b", "2")]);
    assert_eq!(attrs, vec![attr("a", "1"), attr("c", "3"), attr("b", "2")]);
}

#[test]
fn merge_missing_never_overwrites() {
    let mut attrs = vec![attr("class", "a")];
    merge_missing(&mut attrs, vec![attr("class", "b"), attr("id", "x")]);
    assert_eq!(attrs, vec![attr("class", "a"), attr("id", "x")]);
}

#[test]
fn merge_missing_takes_the_first_of_two_incoming_with_one_name() {
    let mut attrs = Vec::new();
    merge_missing(&mut attrs, vec![attr("k", "first"), attr("k", "second"), attr("z", "0")]);
    assert_eq!(attrs, vec![attr("k", "first"), attr("z", "0")]);
}

#[test]
fn merge_missing_twice_is_the_same_as_once() {
    let incoming = || vec![attr("class", "b"), attr("id", "x"), attr("lang", "en")];
    let mut once = vec![attr("class", "a")];
    merge_missing(&mut once, incoming());
    let mut twice = vec![attr("class", "a")];
    merge_missing(&mut twice, incoming());
    merge_missing(&mut twice, incoming());
    assert_eq!(once, twice);
    assert_eq!(once, vec![attr("class", "a"), attr("id", "x"), attr("lang", "en")]);
}

#[test]
fn merge_missing_with_nothing_incoming_changes_nothing() {
    let mut attrs = vec![attr("a", "1"), attr("b", "2")];
    merge_missing(&mut attrs, Vec::new());
    assert_eq!(attrs, vec![attr("a", "1"), attr("b", "2")]);
}

#[test]
fn merge_missing_tells_names_apart_by_namespace_and_prefix() {
    let xlink = Attribute {
        name: QualName::new(
            Some(String::from("xlink")),
            String::from("http://www.w3.org/1999/xlink"),
            String::from("href"),
        ),
        value: String::from("#a"),
    };
    let mut attrs = vec![attr("href", "#b")];
    merge_missing(&mut attrs, vec![xlink.clone()]);
    assert_eq!(attrs, vec![attr("href", "#b"), xlink]);
}

#[test]
fn distinct_names_sees_a_name_twice() {
    assert!(distinct_names(&Vec::new()));
    assert!(distinct_names(&vec![attr("a", "1")]));
    assert!(distinct_names(&vec![attr("a", "1"), attr("b", "1"), attr("c", "1")]));
    assert!(!distinct_names(&vec![attr("a", "1"), attr("b", "2"), attr("a", "3")]));
    assert!(!distinct_names(&vec![attr("b", "1"), attr("b", "1")]));
}
