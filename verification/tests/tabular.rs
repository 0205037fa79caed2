//! Tests for the tabular direction: projection, ingestion, paths.

use xml_csv::XMLNode;
use xml_csv::XMLTree;
use xml_csv::csv_formatter;
use xml_csv::csv_parser;
use xml_csv::lexer;
use xml_csv::parser;
use xml_csv::recursive_csv_format;
use xml_csv::usize_to_string;

#[test]
fn projects_two_sibling_groups() {
    let terms = lexer("<a><x>1</x><y>2</y></a><a><x>3</x><y>4</y></a>".to_string()).unwrap();
    let tree = parser(&terms).unwrap();
    let out = csv_formatter(&tree);
    assert_eq!(out, "x,y\n1,2\n3,4\n");
}

#[test]
fn projects_sparse_columns_ragged() {
    let terms = lexer("<r><g><x>1</x></g><g><y>2</y></g></r>".to_string()).unwrap();
    let tree = parser(&terms).unwrap();
    let out = csv_formatter(&tree);
    // the first group fills only x; y is padded for row 0, and x has run
    // out by row 1, so the rows stay ragged
    assert_eq!(out, "x,y\n1,\n2\n");
}

#[test]
fn projects_empty_tree_to_bare_line() {
    let tree = parser(&Vec::new()).unwrap();
    assert_eq!(csv_formatter(&tree), "\n");
}

#[test]
fn leaf_without_data_contributes_nothing() {
    let terms = lexer("<a><x></x></a>".to_string()).unwrap();
    let tree = parser(&terms).unwrap();
    // x is an empty leaf; a and root still count a row group each
    assert_eq!(csv_formatter(&tree), "\n");
}

#[test]
fn recursive_format_pads_before_append() {
    let terms = lexer("<a><x>1</x></a><a><x>2</x></a>".to_string()).unwrap();
    let tree = parser(&terms).unwrap();
    let mut keymap: Vec<(String, Vec<String>)> = Vec::new();
    let mut index: usize = 0;
    recursive_csv_format(&tree, 0, &mut keymap, &mut index);
    assert_eq!(index, 3);
    assert_eq!(keymap.len(), 1);
    assert_eq!(keymap[0].0, "a/x");
    assert_eq!(keymap[0].1, vec!["1".to_string(), "2".to_string()]);
}

#[test]
fn ingests_two_rows() {
    let tree = csv_parser("name,age\nAlice,30\nBob,25".to_string()).unwrap();
    // root, root2, element+2 leaves, element+2 leaves
    assert_eq!(tree.nodes.len(), 8);
    assert_eq!(tree.nodes[0].name, "root");
    assert_eq!(tree.nodes[1].name, "root2");
    assert_eq!(tree.nodes[1].children, vec![2, 5]);
    assert_eq!(tree.nodes[2].name, "element");
    assert_eq!(tree.nodes[2].children, vec![3, 4]);
    assert_eq!(tree.nodes[3].name, "name");
    assert_eq!(tree.nodes[3].data, "Alice");
    assert_eq!(tree.nodes[4].name, "age");
    assert_eq!(tree.nodes[4].data, "30");
    assert_eq!(tree.nodes[5].name, "element");
    assert_eq!(tree.nodes[6].data, "Bob");
    assert_eq!(tree.nodes[7].data, "25");
}

#[test]
fn ingest_rejects_header_only_input() {
    let err = csv_parser("name,age".to_string()).unwrap_err();
    assert_eq!(err, "No entries in CSV file");
}

#[test]
fn ingest_rejects_empty_input() {
    let err = csv_parser("   \n  ".to_string()).unwrap_err();
    assert_eq!(err, "No entries in CSV file");
}

#[test]
fn ingest_rejects_short_row() {
    let err = csv_parser("a,b,c\nx,y\n1,2,3".to_string()).unwrap_err();
    assert_eq!(err, "Expected key 2 for row 0");
}

#[test]
fn ingest_names_later_short_row() {
    let err = csv_parser("a,b\n1,2\n3".to_string()).unwrap_err();
    assert_eq!(err, "Expected key 1 for row 1");
}

#[test]
fn ingest_keeps_empty_fields() {
    let tree = csv_parser("a,,b\n1,,3".to_string()).unwrap();
    assert_eq!(tree.nodes[2].children.len(), 3);
    assert_eq!(tree.nodes[4].name, "");
    assert_eq!(tree.nodes[4].data, "");
}

#[test]
fn ingest_then_serialize_round_trip() {
    let tree = csv_parser("k\nv".to_string()).unwrap();
    let text = xml_csv::xml_formatter(xml_csv::xml_reverse_parser(&tree));
    assert_eq!(
        text,
        "<?xml version=\"1.0\"?>\n<root2>\n  <element>\n    <k>v</k>\n  </element>\n</root2>\n"
    );
}

#[test]
fn get_path_excludes_wrapper() {
    let terms = lexer("<a><b><c>x</c></b></a>".to_string()).unwrap();
    let tree = parser(&terms).unwrap();
    let path = tree.get_path(3);
    assert_eq!(
        path,
        vec!["a".to_string(), "b".to_string(), "c".to_string()]
    );
    assert!(tree.get_path(0).is_empty());
}

#[test]
fn node_new_starts_empty() {
    let n = XMLNode::new("thing".to_string(), Some(4));
    assert_eq!(n.name, "thing");
    assert_eq!(n.data, "");
    assert_eq!(n.parent, Some(4));
    assert!(n.children.is_empty());
}

#[test]
fn builds_tree_by_hand_and_projects() {
    // two groups holding leaves a/x and a/y, assembled directly
    let mut nodes = Vec::new();
    let mut root = XMLNode::new("root".to_string(), None);
    root.children = vec![1, 4];
    nodes.push(root);
    let mut g1 = XMLNode::new("a".to_string(), Some(0));
    g1.children = vec![2, 3];
    nodes.push(g1);
    let mut x1 = XMLNode::new("x".to_string(), Some(1));
    x1.data = "1".to_string();
    nodes.push(x1);
    let mut y1 = XMLNode::new("y".to_string(), Some(1));
    y1.data = "2".to_string();
    nodes.push(y1);
    let mut g2 = XMLNode::new("a".to_string(), Some(0));
    g2.children = vec![5, 6];
    nodes.push(g2);
    let mut x2 = XMLNode::new("x".to_string(), Some(4));
    x2.data = "3".to_string();
    nodes.push(x2);
    let mut y2 = XMLNode::new("y".to_string(), Some(4));
    y2.data = "4".to_string();
    nodes.push(y2);
    let tree = XMLTree { nodes };
    assert_eq!(csv_formatter(&tree), "x,y\n1,2\n3,4\n");
}

#[test]
fn renders_decimal_numbers() {
    assert_eq!(usize_to_string(0), "0");
    assert_eq!(usize_to_string(7), "7");
    assert_eq!(usize_to_string(305), "305");
    assert_eq!(usize_to_string(10010), "10010");
}
