//! Tests for the forward direction: lexing, tree parsing, serialization.

use xml_csv::XMLTerm;
use xml_csv::lexer;
use xml_csv::parser;
use xml_csv::parser_would_crash;
use xml_csv::push_term;
use xml_csv::xml_formatter;
use xml_csv::xml_reverse_parser;

#[test]
fn lexes_simple_document() {
    let terms = lexer("<a>hi</a>".to_string()).unwrap();
    assert_eq!(
        terms,
        vec![
            XMLTerm::OpeningTag("a".to_string()),
            XMLTerm::Text("hi".to_string()),
            XMLTerm::ClosingTag("a".to_string()),
        ]
    );
}

#[test]
fn lexer_trims_names_and_text() {
    let terms = lexer("< a > hi  </ a >".to_string()).unwrap();
    assert_eq!(
        terms,
        vec![
            XMLTerm::OpeningTag("a".to_string()),
            XMLTerm::Text("hi".to_string()),
            XMLTerm::ClosingTag("a".to_string()),
        ]
    );
}

#[test]
fn lexer_skips_declaration_lines() {
    let terms = lexer("<?xml version=\"1.0\"?>\n<a>1</a>".to_string()).unwrap();
    assert_eq!(
        terms,
        vec![
            XMLTerm::OpeningTag("a".to_string()),
            XMLTerm::Text("1".to_string()),
            XMLTerm::ClosingTag("a".to_string()),
        ]
    );
}

#[test]
fn lexer_rejects_angle_inside_tag() {
    let err = lexer("<a<".to_string()).unwrap_err();
    assert_eq!(err, "Unexpected '<'");
}

#[test]
fn lexer_rejects_close_angle_in_text() {
    let err = lexer("a>".to_string()).unwrap_err();
    assert_eq!(err, "Unexpected '>'");
}

#[test]
fn lexer_rejects_stray_slash() {
    let err = lexer("/x".to_string()).unwrap_err();
    assert_eq!(err, "Unexpected '/'");
}

#[test]
fn lexer_drops_unflushed_trailing_text() {
    let terms = lexer("plain text, no tags".to_string()).unwrap();
    assert_eq!(terms, vec![]);
}

#[test]
fn push_term_trims_and_keeps_nonempty() {
    let mut terms: Vec<XMLTerm> = Vec::new();
    let mut cur = XMLTerm::Text("  hi ".to_string());
    let reset = push_term(&mut terms, &mut cur);
    assert_eq!(reset, XMLTerm::Nothing);
    assert_eq!(terms, vec![XMLTerm::Text("hi".to_string())]);

    let mut blank = XMLTerm::OpeningTag("   ".to_string());
    let reset2 = push_term(&mut terms, &mut blank);
    assert_eq!(reset2, XMLTerm::Nothing);
    assert_eq!(terms.len(), 1);
}

#[test]
fn get_string_returns_content() {
    let t = XMLTerm::OpeningTag("tag".to_string());
    assert_eq!(t.get_string(), Some(&"tag".to_string()));
    assert_eq!(XMLTerm::Nothing.get_string(), None);
}

#[test]
fn parser_builds_nested_tree() {
    let terms = lexer("<a><b>hello</b><c>world</c></a>".to_string()).unwrap();
    let tree = parser(&terms).unwrap();
    // root, a, b, c
    assert_eq!(tree.nodes.len(), 4);
    assert_eq!(tree.nodes[0].name, "root");
    assert_eq!(tree.nodes[0].children, vec![1]);
    assert_eq!(tree.nodes[1].name, "a");
    assert_eq!(tree.nodes[1].children, vec![2, 3]);
    assert_eq!(tree.nodes[2].name, "b");
    assert_eq!(tree.nodes[2].data, "hello");
    assert_eq!(tree.nodes[2].parent, Some(1));
    assert_eq!(tree.nodes[3].name, "c");
    assert_eq!(tree.nodes[3].data, "world");
}

#[test]
fn parser_rejects_mismatched_closing_tag() {
    let terms = lexer("<a></b>".to_string()).unwrap();
    let err = parser(&terms).unwrap_err();
    assert_eq!(err, "Unexpected closing tag. Found: b, Expected: a");
}

#[test]
fn parser_accepts_trailing_unclosed_tags() {
    let terms = lexer("<a><b>".to_string()).unwrap();
    let tree = parser(&terms).unwrap();
    assert_eq!(tree.nodes.len(), 3);
    assert_eq!(tree.nodes[1].name, "a");
    assert_eq!(tree.nodes[2].name, "b");
}

#[test]
fn crash_guard_flags_underflow_only() {
    // popping the synthetic root and then opening a tag underflows
    let terms = lexer("</root><a>".to_string()).unwrap();
    assert!(parser_would_crash(&terms));
    // closing the root as the last act does not
    let closed = lexer("<a></a></root>".to_string()).unwrap();
    assert!(!parser_would_crash(&closed));
    // a mismatched closing tag aborts the parse, it does not underflow
    let mismatched = lexer("<a></b></root><c>".to_string()).unwrap();
    assert!(!parser_would_crash(&mismatched));
    let ordinary = lexer("<a>hi</a>".to_string()).unwrap();
    assert!(!parser_would_crash(&ordinary));
}

#[test]
fn parser_accumulates_split_text() {
    let terms = vec![
        XMLTerm::OpeningTag("a".to_string()),
        XMLTerm::Text("one".to_string()),
        XMLTerm::Text("two".to_string()),
        XMLTerm::ClosingTag("a".to_string()),
    ];
    let tree = parser(&terms).unwrap();
    assert_eq!(tree.nodes[1].data, "onetwo");
}

#[test]
fn serializer_renders_with_indentation() {
    let terms = lexer("<a><b>hello</b><c>world</c></a>".to_string()).unwrap();
    let tree = parser(&terms).unwrap();
    let out_terms = xml_reverse_parser(&tree);
    let text = xml_formatter(out_terms);
    assert_eq!(
        text,
        "<?xml version=\"1.0\"?>\n<a>\n  <b>hello</b>\n  <c>world</c>\n</a>\n"
    );
}

#[test]
fn round_trip_preserves_structure() {
    let input = "<top><mid><leaf>payload</leaf></mid><other>text</other></top>";
    let tree = parser(&lexer(input.to_string()).unwrap()).unwrap();
    let rendered = xml_formatter(xml_reverse_parser(&tree));
    let tree2 = parser(&lexer(rendered).unwrap()).unwrap();
    assert_eq!(tree.nodes.len(), tree2.nodes.len());
    for (a, b) in tree.nodes.iter().zip(tree2.nodes.iter()) {
        assert_eq!(a.name, b.name);
        assert_eq!(a.data, b.data);
        assert_eq!(a.parent, b.parent);
        assert_eq!(a.children, b.children);
    }
}

#[test]
fn formatter_prepends_declaration() {
    let text = xml_formatter(vec![XMLTerm::Text("x".to_string()), XMLTerm::Nothing]);
    assert_eq!(text, "<?xml version=\"1.0\"?>\nx");
}
