use std::cmp::Ordering;

use mavlink_bindgen::element::{identify_element, is_valid_parent, MavXmlElement};
use mavlink_bindgen::types::MavType;

#[test]
fn parse_scalar_type_names() {
    assert_eq!(MavType::parse_type("uint8_t"), Some(MavType::UInt8));
    assert_eq!(MavType::parse_type("uint8_t_mavlink_version"), Some(MavType::UInt8MavlinkVersion));
    assert_eq!(MavType::parse_type("int64_t"), Some(MavType::Int64));
    assert_eq!(MavType::parse_type("Double"), Some(MavType::Double));
    assert_eq!(MavType::parse_type("double"), Some(MavType::Double));
    assert_eq!(MavType::parse_type("float"), Some(MavType::Float));
    assert_eq!(MavType::parse_type("uint128_t"), None);
    assert_eq!(MavType::parse_type(""), None);
}

#[test]
fn parse_array_and_string_type_names() {
    assert_eq!(MavType::parse_type("char[16]"), Some(MavType::String(16)));
    assert_eq!(MavType::parse_type("float[4]"), Some(MavType::Array(Box::new(MavType::Float), 4)));
    assert_eq!(MavType::parse_type("uint16_t[+3]"), Some(MavType::Array(Box::new(MavType::UInt16), 3)));
    assert_eq!(MavType::parse_type("uint8_t[]"), None);
    assert_eq!(MavType::parse_type("uint8_t[x]"), None);
    assert_eq!(MavType::parse_type("uint8_t[2][3]"), None);
    assert_eq!(MavType::parse_type("foo[2]"), None);
    assert_eq!(MavType::parse_type("uint8_t2]"), None);
}

#[test]
fn wire_size_and_ordering_weight() {
    assert_eq!(MavType::UInt8.len(), 1);
    assert_eq!(MavType::Int16.len(), 2);
    assert_eq!(MavType::Float.len(), 4);
    assert_eq!(MavType::Double.len(), 8);
    assert_eq!(MavType::String(10).len(), 10);
    let arr = MavType::Array(Box::new(MavType::UInt32), 3);
    assert_eq!(arr.len(), 12);
    assert_eq!(arr.order_len(), 4);
    assert_eq!(MavType::String(10).order_len(), 1);
    assert_eq!(MavType::UInt64.order_len(), 8);
}

#[test]
fn canonical_names() {
    assert_eq!(MavType::UInt8MavlinkVersion.primitive_type(), "uint8_t");
    assert_eq!(MavType::String(5).primitive_type(), "char");
    assert_eq!(MavType::Array(Box::new(MavType::Int32), 2).primitive_type(), "int32_t");
    assert_eq!(MavType::Double.primitive_type(), "double");
}

#[test]
fn rust_type_names() {
    assert_eq!(MavType::Char.rust_type(), "u8");
    assert_eq!(MavType::Float.rust_type(), "f32");
    assert_eq!(MavType::String(16).rust_type(), "arrayvec::ArrayString<16>");
    assert_eq!(MavType::Array(Box::new(MavType::Float), 4).rust_type(), "[f32;4]");
    assert_eq!(MavType::Array(Box::new(MavType::UInt16), 120).rust_type(), "[u16;120]");
    assert_eq!(MavType::Array(Box::new(MavType::Float), 4).rust_primitive_type(), "f32");
    assert_eq!(MavType::Int8.rust_primitive_type(), "i8");
}

#[test]
fn compare_orders_widest_first() {
    assert_eq!(MavType::UInt64.compare(&MavType::UInt8), Ordering::Less);
    assert_eq!(MavType::UInt8.compare(&MavType::UInt64), Ordering::Greater);
    assert_eq!(MavType::Float.compare(&MavType::Int32), Ordering::Equal);
    let arr = MavType::Array(Box::new(MavType::UInt16), 8);
    assert_eq!(arr.compare(&MavType::Int16), Ordering::Equal);
    assert_eq!(MavType::String(40).compare(&MavType::UInt16), Ordering::Greater);
}

#[test]
fn element_tags() {
    assert_eq!(identify_element("mavlink"), Some(MavXmlElement::Mavlink));
    assert_eq!(identify_element("extensions"), Some(MavXmlElement::Extensions));
    assert_eq!(identify_element("wip"), Some(MavXmlElement::Wip));
    assert_eq!(identify_element("Message"), None);
    assert_eq!(identify_element("unknown"), None);
}

#[test]
fn nesting_table() {
    assert!(is_valid_parent(None, MavXmlElement::Mavlink));
    assert!(!is_valid_parent(Some(MavXmlElement::Mavlink), MavXmlElement::Mavlink));
    assert!(is_valid_parent(Some(MavXmlElement::Messages), MavXmlElement::Message));
    assert!(!is_valid_parent(Some(MavXmlElement::Enums), MavXmlElement::Message));
    assert!(is_valid_parent(Some(MavXmlElement::Enum), MavXmlElement::Description));
    assert!(is_valid_parent(Some(MavXmlElement::Entry), MavXmlElement::Param));
    assert!(!is_valid_parent(Some(MavXmlElement::Message), MavXmlElement::Param));
    assert!(is_valid_parent(Some(MavXmlElement::Message), MavXmlElement::Extensions));
    assert!(!is_valid_parent(None, MavXmlElement::Field));
}
