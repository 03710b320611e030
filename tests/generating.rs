use glaze::generator::{flatten_selectors, nest_selector, Generator};
use glaze::nodes::{Expr, Node, Property, Selector};
use glaze::parser::parse;

fn text(v: &[u8]) -> String {
    String::from_utf8(v.to_vec()).unwrap()
}

#[test]
fn flatten_children_then_parents() {
    let parents = vec![b"a".to_vec(), b"b".to_vec()];
    let children = vec![b"i".to_vec(), b"&.x".to_vec()];
    let flat: Vec<String> = flatten_selectors(&parents, &children).iter().map(|s| text(s)).collect();
    assert_eq!(flat, vec!["a i", "b i", "a.x", "b.x"]);
}

#[test]
fn nest_replaces_every_reference() {
    assert_eq!(text(&nest_selector(&b".p".to_vec(), &b"&>&".to_vec())), ".p>.p");
    assert_eq!(text(&nest_selector(&b".p".to_vec(), &b"span".to_vec())), ".p span");
}

#[test]
fn generator_on_a_built_tree() {
    let sel = Selector {
        sels: vec![b".x".to_vec()],
        lines: vec![],
        props: vec![Property { name: b"color".to_vec(), expr: Expr::Keyword(b"red".to_vec()) }],
        nested: vec![],
    };
    let mut g = Generator::new();
    let (css, js) = g.generate(vec![Node::Comment(b"/*c*/".to_vec()), Node::Selector(sel), Node::EOI]).unwrap();
    assert_eq!(text(&css), "/*c*/\n\n.x {\n\tcolor: red;\n}\n\n");
    assert!(js.is_empty());
}

#[test]
fn parse_ends_with_marker() {
    let nodes = parse(b".a\n\tcolor: red\n".as_slice()).unwrap();
    assert_eq!(nodes.len(), 2);
    assert!(matches!(nodes[1], Node::EOI));
    assert!(matches!(&nodes[0], Node::Selector(s) if s.props.len() == 1 && s.sels[0] == b".a"));
}
