//! End-to-end tests of the transform: token sequence in, sorted array
//! literal or diagnostics out.

use sort::ast::{DiagKind, Token};
use sort::expand::expand_sort;

fn lit(pos: usize, s: &str) -> Token {
    Token::StrLit { pos, value: s.as_bytes().to_vec() }
}

fn comma(pos: usize) -> Token {
    Token::Comma { pos }
}

fn other(pos: usize) -> Token {
    Token::Other { pos }
}

fn value_at(tokens: &[Token], idx: usize) -> String {
    match &tokens[idx] {
        Token::StrLit { value, .. } => String::from_utf8(value.clone()).unwrap(),
        _ => panic!("handle does not point at a string literal"),
    }
}

fn expand_values(tokens: &Vec<Token>) -> Vec<String> {
    let out = expand_sort(tokens, 0);
    assert!(out.diagnostics.is_empty());
    let node = out.node.expect("a clean input must yield a node");
    node.elems.iter().map(|&i| value_at(tokens, i)).collect()
}

#[test]
fn test_sort() {
    let tokens = vec![
        lit(0, "z"),
        comma(3),
        lit(5, "hello"),
        comma(12),
        lit(14, "a"),
        comma(17),
        lit(19, ""),
    ];
    let arr = expand_values(&tokens);
    let expected = vec!["", "a", "hello", "z"];
    assert_eq!(expected, arr);
}

#[test]
fn test_single_empty_string() {
    let tokens = vec![lit(0, "")];
    let arr = expand_values(&tokens);
    let expected = vec![""];
    assert_eq!(expected, arr);
}

#[test]
fn test_no_arguments_gives_empty_array() {
    let tokens: Vec<Token> = vec![];
    let out = expand_sort(&tokens, 7);
    assert!(out.diagnostics.is_empty());
    let node = out.node.expect("no arguments is not an error");
    assert_eq!(node.pos, 7);
    assert!(node.elems.is_empty());
}

#[test]
fn test_trailing_comma_accepted() {
    let tokens = vec![lit(0, "b"), comma(3), lit(5, "a"), comma(8)];
    let arr = expand_values(&tokens);
    let expected = vec!["a", "b"];
    assert_eq!(expected, arr);
}

#[test]
fn test_byte_wise_order() {
    let tokens = vec![lit(0, "b"), comma(3), lit(5, "ab"), comma(9), lit(11, "abc")];
    let arr = expand_values(&tokens);
    let expected = vec!["ab", "abc", "b"];
    assert_eq!(expected, arr);
}

#[test]
fn test_equal_keys_keep_input_order() {
    let tokens = vec![lit(0, "b"), comma(3), lit(5, "a"), comma(8), lit(10, "b")];
    let out = expand_sort(&tokens, 0);
    assert!(out.diagnostics.is_empty());
    let node = out.node.expect("a clean input must yield a node");
    // "a" is the token at index 2; the two "b" handles keep their order.
    assert_eq!(node.elems, vec![2usize, 0, 4]);
}

#[test]
fn test_malformed_literal_reported_once() {
    let tokens = vec![lit(0, "b"), comma(3), other(5), comma(6), lit(8, "a")];
    let out = expand_sort(&tokens, 0);
    assert!(out.node.is_none());
    assert_eq!(out.diagnostics.len(), 1);
    assert_eq!(out.diagnostics[0].pos, 5);
    assert_eq!(out.diagnostics[0].kind, DiagKind::MalformedLiteral);
}

#[test]
fn test_every_malformed_literal_reported() {
    let tokens = vec![other(0), comma(2), other(4), comma(6), lit(8, "a")];
    let out = expand_sort(&tokens, 0);
    assert!(out.node.is_none());
    assert_eq!(out.diagnostics.len(), 2);
    assert_eq!(out.diagnostics[0].pos, 0);
    assert_eq!(out.diagnostics[0].kind, DiagKind::MalformedLiteral);
    assert_eq!(out.diagnostics[1].pos, 4);
    assert_eq!(out.diagnostics[1].kind, DiagKind::MalformedLiteral);
}

#[test]
fn test_missing_comma_fails_once() {
    let tokens = vec![lit(0, "a"), lit(4, "b")];
    let out = expand_sort(&tokens, 0);
    assert!(out.node.is_none());
    assert_eq!(out.diagnostics.len(), 1);
    assert_eq!(out.diagnostics[0].pos, 4);
    assert_eq!(out.diagnostics[0].kind, DiagKind::MalformedSeparator);
}

#[test]
fn test_missing_comma_stops_parsing() {
    // The arguments past the bad separator are malformed, but they are
    // never reached: only the separator is reported.
    let tokens = vec![lit(0, "a"), lit(4, "b"), comma(7), other(9)];
    let out = expand_sort(&tokens, 0);
    assert!(out.node.is_none());
    assert_eq!(out.diagnostics.len(), 1);
    assert_eq!(out.diagnostics[0].pos, 4);
    assert_eq!(out.diagnostics[0].kind, DiagKind::MalformedSeparator);
}

#[test]
fn test_comma_where_argument_expected() {
    // An empty argument is not a string literal: a soft error, like any
    // other malformed argument.
    let tokens = vec![lit(0, "a"), comma(2), comma(4)];
    let out = expand_sort(&tokens, 0);
    assert!(out.node.is_none());
    assert_eq!(out.diagnostics.len(), 1);
    assert_eq!(out.diagnostics[0].pos, 4);
    assert_eq!(out.diagnostics[0].kind, DiagKind::MalformedLiteral);
}

#[test]
fn test_soft_errors_then_missing_comma() {
    // A malformed argument is collected first; the bad separator after it
    // still stops everything, so both are reported, separator last.
    let tokens = vec![other(0), lit(3, "a")];
    let out = expand_sort(&tokens, 0);
    assert!(out.node.is_none());
    assert_eq!(out.diagnostics.len(), 2);
    assert_eq!(out.diagnostics[0].pos, 0);
    assert_eq!(out.diagnostics[0].kind, DiagKind::MalformedLiteral);
    assert_eq!(out.diagnostics[1].pos, 3);
    assert_eq!(out.diagnostics[1].kind, DiagKind::MalformedSeparator);
}

#[test]
fn test_call_site_position_kept() {
    let tokens = vec![lit(0, "x")];
    let out = expand_sort(&tokens, 42);
    let node = out.node.expect("a clean input must yield a node");
    assert_eq!(node.pos, 42);
    assert_eq!(node.elems, vec![0usize]);
}
