//! Comparing tags as MessagePack values.

use mpack::common::{compare_signed, compare_tags, compare_unsigned, Tag};

#[test]
fn integers_compare_by_value_across_signedness() {
    assert_eq!(compare_tags(Tag::Int(5), Tag::Uint(5)), 0);
    assert_eq!(compare_tags(Tag::Uint(5), Tag::Int(5)), 0);
    assert_eq!(compare_tags(Tag::Int(-1), Tag::Uint(0)), -1);
    assert_eq!(compare_tags(Tag::Uint(0), Tag::Int(-1)), 1);
    assert_eq!(compare_tags(Tag::Int(-7), Tag::Int(-3)), -1);
    assert_eq!(compare_tags(Tag::Uint(u64::MAX), Tag::Int(i64::MAX)), 1);
}

#[test]
fn types_compare_in_order() {
    assert_eq!(compare_tags(Tag::Nil, Tag::Bool(false)), -1);
    assert_eq!(compare_tags(Tag::Bool(true), Tag::Int(-1)), -1);
    assert_eq!(compare_tags(Tag::Double(0), Tag::Float(u32::MAX)), 1);
    assert_eq!(compare_tags(Tag::Str(0), Tag::Bin(0)), -1);
    assert_eq!(compare_tags(Tag::Mapping(0), Tag::Array(9)), 1);
    assert_eq!(compare_tags(Tag::Mapping(9), Tag::Ext { extension_type: 0, length: 0 }), -1);
}

#[test]
fn values_of_one_type_compare_by_value_or_length() {
    assert_eq!(compare_tags(Tag::Nil, Tag::Nil), 0);
    assert_eq!(compare_tags(Tag::Bool(false), Tag::Bool(true)), -1);
    assert_eq!(compare_tags(Tag::Str(3), Tag::Str(3)), 0);
    assert_eq!(compare_tags(Tag::Bin(4), Tag::Bin(3)), 1);
    assert_eq!(compare_tags(Tag::Array(1), Tag::Array(2)), -1);
}

#[test]
fn floats_compare_by_their_bits() {
    let minus_zero = 0x8000_0000;
    let one = 0x3f80_0000;
    assert_eq!(compare_tags(Tag::Float(minus_zero), Tag::Float(one)), 1);
    assert_eq!(compare_tags(Tag::Double(1), Tag::Double(1)), 0);
}

#[test]
fn extension_tags_always_compare_greater_within_their_type() {
    let ext = Tag::Ext { extension_type: 1, length: 2 };
    assert_eq!(compare_tags(ext, ext), 1);
}

#[test]
fn plain_comparisons() {
    assert_eq!(compare_unsigned(1, 2), -1);
    assert_eq!(compare_unsigned(2, 2), 0);
    assert_eq!(compare_signed(-1, -2), 1);
}
