use snep::blob::Blob;
use snep::delimiter::Delim;
use snep::loc::Loc;
use snep::node::{Elem, Node};
use snep::writer::{render_doc, write_to_vec, NodeWriteState, WriteTo};

fn elem(name: &str, delim: Delim, children: Vec<Node>) -> Node {
    Node::Elem(Elem { name: Blob::from(name), delim, children, loc: Loc::default() })
}

fn text(s: &str) -> Node {
    Node::from(s)
}

fn render(nodes: &[Node]) -> String {
    String::from_utf8(render_doc(nodes)).unwrap()
}

fn round(input: &str) -> String {
    let (nodes, _) = Node::parse(input.as_bytes(), "f");
    render(&nodes)
}

#[test]
fn divider_reinsertion() {
    let e = || elem("bar", Delim::Parenthesis, vec![]);
    assert_eq!(render(&[text("foo"), e()]), "foo|bar()");
    assert_eq!(render(&[text("foo "), e()]), "foo bar()");
    assert_eq!(render(&[text("foo\n"), e()]), "foo\nbar()");
    assert_eq!(render(&[text("foo|"), e()]), "foo|bar()");
    assert_eq!(render(&[text("foo\\"), e()]), "foo\\bar()");
    assert_eq!(render(&[text("foo)"), e()]), "foo)bar()");
    assert_eq!(render(&[text(""), e()]), "bar()");
    assert_eq!(render(&[e()]), "bar()");
}

#[test]
fn an_element_is_written_with_its_kind_of_bracket() {
    assert_eq!(render(&[elem("a", Delim::Parenthesis, vec![text("x")])]), "a(x)");
    assert_eq!(render(&[elem("a", Delim::Bracket, vec![text("x")])]), "a[x]");
    assert_eq!(render(&[elem("a", Delim::Brace, vec![text("x")])]), "a{x}");
    assert_eq!(render(&[elem("", Delim::Brace, vec![])]), "{}");
}

#[test]
fn a_literal_element_is_closed_after_its_name() {
    assert_eq!(
        render(&[elem("\\x", Delim::Parenthesis, vec![text("raw ("), text("text")])]),
        "\\x(raw (text\\x)"
    );
    assert_eq!(render(&[elem("\\", Delim::Bracket, vec![text("(")])]), "\\[(\\]");
}

#[test]
fn the_state_is_clean_after_an_element() {
    let a = || elem("a", Delim::Parenthesis, vec![text("word")]);
    assert_eq!(render(&[a(), a()]), "a(word)a(word)");
    assert_eq!(render(&[text("x"), a(), a()]), "x|a(word)a(word)");
}

#[test]
fn the_state_goes_through_into_the_children() {
    let b = || elem("b", Delim::Bracket, vec![]);
    assert_eq!(render(&[text("foo"), elem("a", Delim::Parenthesis, vec![b()])]), "foo|a(|b[])");
    assert_eq!(render(&[text("foo "), elem("a", Delim::Parenthesis, vec![b()])]), "foo a(b[])");
    assert_eq!(
        render(&[elem("a", Delim::Parenthesis, vec![text("x"), b(), text("y"), text(""), b()])]),
        "a(x|b[]yb[])"
    );
}

#[test]
fn empty_forest_is_written_as_nothing() {
    assert_eq!(render(&[]), "");
    assert_eq!(render(&[text("")]), "");
}

#[test]
fn write_to_vec_moves_the_state_on() {
    let nodes = vec![elem("a", Delim::Parenthesis, vec![]), text("end")];
    let mut state = NodeWriteState::Sticky;
    assert_eq!(write_to_vec(&nodes[..], &mut state), b"|a()end");
    assert_eq!(state, NodeWriteState::Sticky);
    let mut state = NodeWriteState::Clean;
    assert_eq!(write_to_vec(&nodes[..1], &mut state), b"a()");
    assert_eq!(state, NodeWriteState::Clean);
    let mut state = NodeWriteState::Clean;
    assert_eq!(write_to_vec(&text("a b "), &mut state), b"a b ");
    assert_eq!(state, NodeWriteState::Clean);
    let mut state = NodeWriteState::Clean;
    assert_eq!(write_to_vec(&text("a b"), &mut state), b"a b");
    assert_eq!(state, NodeWriteState::Sticky);
}

#[test]
fn write_to_appends_to_what_is_there() {
    let mut out = b"<<".to_vec();
    b"bytes"[..].write_to(&mut out, &mut ());
    assert_eq!(out, b"<<bytes");
    let mut state = NodeWriteState::Sticky;
    elem("e", Delim::Brace, vec![text("x")]).write_to(&mut out, &mut state);
    assert_eq!(out, b"<<bytes|e{x}");
    assert_eq!(state, NodeWriteState::Clean);
    let nodes = vec![text("t"), text("u")];
    nodes[..].write_to(&mut out, &mut state);
    assert_eq!(out, b"<<bytes|e{x}tu");
    assert_eq!(state, NodeWriteState::Sticky);
    assert_eq!(write_to_vec(&b"raw"[..], &mut ()), b"raw");
}

#[test]
fn round_trip() {
    for input in [
        "",
        "plain text",
        "a(b)c",
        "a(b[c{d}e]f)g",
        "a(b(c))",
        "foo|bar(baz)",
        "foo bar(baz) qux",
        "x (y) z",
        "=(k=v)",
        "\\x(raw (text) here\\x)",
        "see|\\x(a b(c]d}\\x) and\t\\y[\\y]",
        "line one\nfoo|tag[ multi\nline ]end\n",
        "(){}[]",
        "a|b c(d|e f)",
        "\u{e9}t\u{e9}(\u{fc}ber)",
    ] {
        let (nodes, errs) = Node::parse(input.as_bytes(), "f");
        assert_eq!(errs, Vec::<String>::new(), "input {:?}", input);
        assert_eq!(render(&nodes), input);
    }
}

#[test]
fn round_trip_of_bytes_that_are_not_text() {
    let input = b"\xff\xfe(\x00\x80)\xc3";
    let (nodes, errs) = Node::parse(input, "f");
    assert_eq!(errs, Vec::<String>::new());
    assert_eq!(render_doc(&nodes), input);
}

#[test]
fn a_redundant_divider_is_not_written_back() {
    assert_eq!(round("a(b|c)"), "a(bc)");
    assert_eq!(round("|a(b)"), "a(b)");
    assert_eq!(round("foo |a(b)"), "foo a(b)");
    assert_eq!(round("\\x(foo|bar(\\x)"), "\\x(foobar(\\x)");
}

#[test]
fn a_missing_divider_is_written() {
    assert_eq!(round("foo\\x(\\x)"), "foo|\\x(\\x)");
}

#[test]
fn writing_is_idempotent() {
    for input in [
        "a(b)c",
        "a(b|c)",
        "|a(b)",
        "foo\\x(\\x)",
        "foo |a(b|c) d|e(f)",
        "\\x(raw (text) here\\x)",
        "a(b]",
        "a(b",
        "a(b[c",
        "x)",
        "x]",
        "a(b]c)d",
    ] {
        let once = round(input);
        assert_eq!(round(&once), once, "input {:?}", input);
    }
}

#[test]
fn two_dividers_take_two_passes() {
    assert_eq!(round("||a(b)"), "|a(b)");
    assert_eq!(round("|a(b)"), "a(b)");
    assert_eq!(round("a(b)"), "a(b)");
}

#[test]
fn repairs_are_written_as_escaped_openers() {
    assert_eq!(round("a(b]"), "a|\\((\\)b|\\((\\)");
    assert_eq!(round("a(b"), "a|\\((\\)b");
    assert_eq!(round("x)"), "x)");
    assert_eq!(round("x]"), "x|\\((\\)");
}

#[test]
fn a_long_text_goes_round() {
    let mut input = String::new();
    for i in 0..20000 {
        input.push_str("some words and|tag");
        input.push_str(["(", "[", "{"][i % 3]);
        input.push_str("inner text\n");
        input.push_str([")", "]", "}"][i % 3]);
        input.push_str(" more ");
    }
    let (nodes, errs) = Node::parse(input.as_bytes(), "long");
    assert_eq!(errs, Vec::<String>::new());
    assert_eq!(nodes.len(), 40001);
    assert_eq!(render(&nodes), input);
}

#[test]
fn a_deep_text_goes_round() {
    let depth = 500;
    let mut input = String::new();
    for i in 0..depth {
        input.push_str(["a(", "b[", "c{"][i % 3]);
    }
    input.push_str("core");
    for i in (0..depth).rev() {
        input.push_str([")", "]", "}"][i % 3]);
    }
    let (nodes, errs) = Node::parse(input.as_bytes(), "deep");
    assert_eq!(errs, Vec::<String>::new());
    assert_eq!(render(&nodes), input);
    let (nodes, errs) = Node::parse(input[..2 * depth + 4].as_bytes(), "deep");
    assert_eq!(errs, vec!["deep:1:1: 'a(' was never closed".to_string()]);
    assert_eq!(nodes.len(), 1 + 3 * depth);
}
