use mavlink_bindgen::codec::{decode_payload, encode_payload, read_payload, DecodeError};
use mavlink_bindgen::model::{MavEnum, MavEnumEntry, MavField};
use mavlink_bindgen::types::MavType;

fn field(name: &str, mavtype: MavType, enumtype: Option<&str>, display: Option<&str>) -> MavField {
    MavField {
        mavtype,
        name: name.to_string(),
        description: None,
        enumtype: enumtype.map(|s| s.to_string()),
        display: display.map(|s| s.to_string()),
        is_extension: false,
    }
}

fn entry(name: &str, value: Option<u32>) -> MavEnumEntry {
    MavEnumEntry { value, name: name.to_string(), description: None, params: None }
}

fn enm(name: &str, entries: Vec<MavEnumEntry>) -> MavEnum {
    MavEnum { name: name.to_string(), description: None, entries, primitive: None, bitmask: false }
}

fn layout() -> Vec<MavField> {
    vec![
        field("b", MavType::UInt32, None, None),
        field("c", MavType::UInt16, Some("Mode"), None),
        field("f", MavType::UInt8, Some("Flags"), Some("bitmask")),
        field("s", MavType::String(3), None, None),
    ]
}

fn enums() -> Vec<MavEnum> {
    vec![
        enm("Mode", vec![entry("A", Some(5)), entry("B", None)]),
        enm("Flags", vec![entry("X", Some(1)), entry("Y", Some(4))]),
    ]
}

#[test]
fn encode_writes_little_endian_in_order() {
    let values = vec![vec![0x0102_0304], vec![6], vec![5], vec![b'a' as u64, 0, 0]];
    let bytes = encode_payload(&layout(), &values, false);
    assert_eq!(bytes, vec![4, 3, 2, 1, 6, 0, 5, b'a', 0, 0]);
}

#[test]
fn newer_version_drops_trailing_zeros() {
    let values = vec![vec![0x0102_0304], vec![6], vec![5], vec![b'a' as u64, 0, 0]];
    let bytes = encode_payload(&layout(), &values, true);
    assert_eq!(bytes, vec![4, 3, 2, 1, 6, 0, 5, b'a']);
}

#[test]
fn short_payload_is_zero_extended() {
    let values = read_payload(&layout(), &vec![4, 3, 2, 1, 6]);
    assert_eq!(values, vec![vec![0x0102_0304], vec![6], vec![0], vec![0, 0, 0]]);
}

#[test]
fn decode_after_truncated_encode_gives_the_values_back() {
    let values = vec![vec![7], vec![5], vec![4], vec![0, 0, 0]];
    let bytes = encode_payload(&layout(), &values, true);
    assert_eq!(decode_payload(&layout(), &enums(), &bytes), Ok(values));
}

#[test]
fn default_message_round_trip() {
    // the default holds zero in plain fields and the first entry of each enum
    let defaults = vec![vec![0], vec![5], vec![1], vec![0, 0, 0]];
    for v2 in [false, true] {
        let bytes = encode_payload(&layout(), &defaults, v2);
        assert_eq!(decode_payload(&layout(), &enums(), &bytes), Ok(defaults.clone()));
    }
    let empty = encode_payload(&layout(), &vec![vec![0], vec![0], vec![0], vec![0, 0, 0]], true);
    assert!(empty.is_empty());
}

#[test]
fn undefined_enum_value_is_refused() {
    let bytes = vec![0, 0, 0, 0, 7, 0, 1];
    assert_eq!(
        decode_payload(&layout(), &enums(), &bytes),
        Err(DecodeError::InvalidEnum { enum_type: "Mode".to_string(), value: 7 })
    );
}

#[test]
fn unknown_flag_bits_are_refused() {
    let bytes = vec![0, 0, 0, 0, 6, 0, 2];
    assert_eq!(
        decode_payload(&layout(), &enums(), &bytes),
        Err(DecodeError::InvalidFlag { flag_type: "Flags".to_string(), value: 2 })
    );
    let ok = vec![0, 0, 0, 0, 6, 0, 5];
    assert_eq!(decode_payload(&layout(), &enums(), &ok), Ok(vec![vec![0], vec![6], vec![5], vec![0, 0, 0]]));
}

#[test]
fn arrays_of_enum_values_are_not_checked() {
    let fields = vec![field("a", MavType::Array(Box::new(MavType::UInt8), 2), Some("Mode"), None)];
    assert_eq!(decode_payload(&fields, &enums(), &vec![9, 9]), Ok(vec![vec![9, 9]]));
}
