use snep::blob::Blob;
use snep::delimiter::Delim;
use snep::html::{to_html, write_children, write_html};
use snep::loc::Loc;
use snep::node::{Elem, Node};

fn html(input: &str) -> String {
    let (nodes, errs) = Node::parse(input.as_bytes(), "f");
    assert_eq!(errs, Vec::<String>::new());
    String::from_utf8(to_html(&nodes)).unwrap()
}

#[test]
fn text_is_written_as_it_is() {
    assert_eq!(html("a < b & c"), "a < b & c");
    assert_eq!(html(""), "");
}

#[test]
fn a_named_element_becomes_a_pair_of_tags() {
    assert_eq!(html("p(hello)"), "<p>hello</p>");
    assert_eq!(html("say |em[this] now"), "say <em>this</em> now");
    assert_eq!(html("ul{li(a)li(b)}"), "<ul><li>a</li><li>b</li></ul>");
}

#[test]
fn a_literal_element_is_its_children() {
    assert_eq!(html("\\x(raw (text) here\\x)"), "raw (text) here");
    assert_eq!(html("p(\\[a(b)\\])"), "<p>a(b)</p>");
}

#[test]
fn an_element_without_a_name_keeps_its_brackets() {
    assert_eq!(html("f (x) [y] {z}"), "f (x) [y] {z}");
    assert_eq!(html("(em(a))"), "(<em>a</em>)");
}

#[test]
fn a_name_that_ends_in_an_equals_sign_keeps_its_brackets() {
    assert_eq!(html("a href=(x)"), "a href=(x)");
    assert_eq!(html("=[b(c)]"), "=[<b>c</b>]");
}

#[test]
fn a_splice_is_the_children_of_its_elements() {
    assert_eq!(html("+(a(x) dropped b[y]z)"), "xy");
    assert_eq!(html("p(+(i(b(deep))))"), "<p><b>deep</b></p>");
    assert_eq!(html("+()"), "");
}

#[test]
fn write_html_appends_to_what_is_there() {
    let elem = Elem {
        name: Blob::from("b"),
        delim: Delim::Brace,
        children: vec![Node::from("x"), Node::from("y")],
        loc: Loc::default(),
    };
    let mut out = b"[".to_vec();
    write_children(&mut out, &elem);
    assert_eq!(out, b"[xy");
    write_html(&Node::Elem(elem), &mut out);
    assert_eq!(out, b"[xy<b>xy</b>");
    write_html(&Node::from("!"), &mut out);
    assert_eq!(out, b"[xy<b>xy</b>!");
}
