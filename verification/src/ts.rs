use vstd::prelude::*;
use vstd::utf8::{decode_utf8, valid_utf8};

verus! {

// The syntax provider: tree-sitter with the Rust grammar. The types are
// opaque to the verifier; values of them only flow from the parser into the
// lowering pass that turns them into the crate's own tree representation.

#[verifier::external_type_specification]
#[verifier::external_body]
pub struct ExParser(tree_sitter::Parser);

#[verifier::external_type_specification]
#[verifier::external_body]
pub struct ExTree(tree_sitter::Tree);

#[verifier::external_type_specification]
#[verifier::external_body]
pub struct ExNode<'a>(tree_sitter::Node<'a>);

#[verifier::external_type_specification]
#[verifier::external_body]
pub struct ExLanguage(tree_sitter::Language);

/// Relies on tree_sitter::Parser::new.
#[verifier::external_body]
pub(crate) fn parser_new() -> (r: tree_sitter::Parser) {
    tree_sitter::Parser::new()
}

/// Relies on tree_sitter_rust::language: the grammar for Rust.
#[verifier::external_body]
pub(crate) fn rust_language() -> (r: tree_sitter::Language) {
    tree_sitter_rust::language()
}

/// Relies on tree_sitter::Parser::set_language: true when the parser
/// accepted the grammar, false when its version is incompatible.
#[verifier::external_body]
pub(crate) fn set_language(parser: &mut tree_sitter::Parser, language: tree_sitter::Language) -> (r:
    bool) {
    parser.set_language(language).is_ok()
}

/// Relies on tree_sitter::Parser::parse: parses the bytes into a syntax
/// tree, returning None when parsing was halted.
#[verifier::external_body]
pub(crate) fn parse_bytes(parser: &mut tree_sitter::Parser, code: &[u8]) -> (r: Option<tree_sitter::Tree>) {
    parser.parse(code, None)
}

/// Relies on tree_sitter::Tree::root_node.
#[verifier::external_body]
pub(crate) fn tree_root<'a>(tree: &'a tree_sitter::Tree) -> (r: tree_sitter::Node<'a>) {
    tree.root_node()
}

/// Relies on tree_sitter::Node::kind: the node's grammar-rule name.
#[verifier::external_body]
pub(crate) fn node_kind(node: &tree_sitter::Node<'_>) -> (r: String) {
    node.kind().to_string()
}

/// Relies on tree_sitter::Node::child_count.
#[verifier::external_body]
pub(crate) fn node_child_count(node: &tree_sitter::Node<'_>) -> (r: usize) {
    node.child_count()
}

/// Relies on tree_sitter::Node::child: the i-th child, when there is one.
#[verifier::external_body]
pub(crate) fn node_child<'a>(node: &tree_sitter::Node<'a>, i: usize) -> (r: Option<tree_sitter::Node<'a>>) {
    node.child(i)
}

/// Relies on tree_sitter::Node::start_byte.
#[verifier::external_body]
pub(crate) fn node_start_byte(node: &tree_sitter::Node<'_>) -> (r: usize) {
    node.start_byte()
}

/// Relies on tree_sitter::Node::end_byte.
#[verifier::external_body]
pub(crate) fn node_end_byte(node: &tree_sitter::Node<'_>) -> (r: usize) {
    node.end_byte()
}

/// Relies on tree_sitter::Node::start_position: the 0-based row of the
/// node's first byte.
#[verifier::external_body]
pub(crate) fn node_start_row(node: &tree_sitter::Node<'_>) -> (r: usize) {
    node.start_position().row
}

/// Relies on tree_sitter::Node::field_name_for_child: the grammar field name
/// under which the i-th child hangs, when it has one.
#[verifier::external_body]
pub(crate) fn node_field_name_for_child(node: &tree_sitter::Node<'_>, i: u32) -> (r: Option<String>) {
    node.field_name_for_child(i).map(|s| s.to_string())
}

/// Relies on core::str::from_utf8: Some exactly when the bytes are valid
/// UTF-8, in which case the string holds their decoding.
#[verifier::external_body]
pub(crate) fn bytes_to_string(b: &[u8]) -> (r: Option<String>)
    ensures
        match r {
            Some(s) => valid_utf8(b@) && s@ == decode_utf8(b@),
            None => !valid_utf8(b@),
        },
{
    match core::str::from_utf8(b) {
        Ok(s) => Some(s.to_string()),
        Err(_) => None,
    }
}

} // verus!
