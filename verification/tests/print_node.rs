//! Printing parsed nodes as pseudo-JSON.

use mpack::node::Tree;
use mpack::print::{print_message, print_node, print_node_to_vec, Printed};

fn as_text(printed: &[Printed]) -> String {
    let mut bytes = Vec::new();
    for piece in printed {
        match piece {
            Printed::Char(b) => bytes.push(*b),
            Printed::Float(bits) => bytes.extend(format!("<f{bits:08x}>").into_bytes()),
            Printed::Double(bits) => bytes.extend(format!("<d{bits:016x}>").into_bytes()),
        }
    }
    String::from_utf8(bytes).unwrap()
}

#[test]
fn prints_the_root_of_a_parsed_tree() {
    let data = [0x82, 0xa1, b'a', 0x92, 0x01, 0x02, 0xa1, b'b', 0x90];
    let tree = Tree::parse(&data);
    let root = tree.root().expect("root");
    assert_eq!(
        as_text(&print_node(&tree, root)),
        "{\n    \"a\": [\n        1,\n        2\n    ],\n    \"b\": [\n    ]\n}"
    );
}

#[test]
fn root_prints_as_the_message_does() {
    let data = [0x93, 0xa3, b'x', b'\n', b'"', 0xc4, 0x01, 0xff, 0xd4, 0x07, 0x2a];
    let tree = Tree::parse(&data);
    let root = tree.root().expect("root");
    assert_eq!(print_node(&tree, root), print_message(&data, 0));
    assert_eq!(
        as_text(&print_node(&tree, root)),
        "[\n    \"x\\n\\\"\",\n    <binary data of length 1: ff>,\n    <ext data of type 7 and length 1: 2a>\n]"
    );
}

#[test]
fn prints_an_inner_node_on_its_own() {
    let data = [0x92, 0x91, 0x07, 0xc0];
    let mut tree = Tree::parse(&data);
    let root = tree.root().expect("root");
    let inner = root.array_at(&mut tree, 0).expect("inner");
    assert_eq!(as_text(&print_node(&tree, inner)), "[\n    7\n]");
    let last = root.array_at(&mut tree, 1).expect("last");
    assert_eq!(as_text(&print_node(&tree, last)), "null");
}

#[test]
fn prints_a_node_at_a_depth_onto_existing_output() {
    let data = [0x91, 0xc3];
    let tree = Tree::parse(&data);
    let root = tree.root().expect("root");
    let mut out = vec![Printed::Char(b'>')];
    print_node_to_vec(&tree, root, &mut out, 1);
    assert_eq!(as_text(&out), ">[\n        true\n    ]");
}

#[test]
fn a_tree_with_an_error_prints_as_an_error() {
    let data = [0x92, 0x01];
    let tree = Tree::parse(&data);
    assert!(tree.root().is_none());
    let good = Tree::parse(&[0xc0]);
    let root = good.root().expect("root");
    assert_eq!(as_text(&print_node(&tree, root)), "<mpack node error>");
}

#[test]
fn a_flagged_tree_prints_as_an_error() {
    let data = [0x81, 0xa1, b'a', 0xc0];
    let mut tree = Tree::parse(&data);
    let root = tree.root().expect("root");
    let _ = root.map_uint(&mut tree, 5);
    assert_eq!(as_text(&print_node(&tree, root)), "<mpack node error>");
}

#[test]
fn prints_floats_as_their_bits() {
    let data = [0xcb, 0x3f, 0xf0, 0, 0, 0, 0, 0, 0];
    let tree = Tree::parse(&data);
    let root = tree.root().expect("root");
    assert_eq!(print_node(&tree, root), vec![Printed::Double(0x3ff0_0000_0000_0000)]);
}
