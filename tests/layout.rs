use mavlink_bindgen::layout::{
    encoded_len, extra_crc, extra_crc_from_id, fields_are_valid, fields_in_layout_order, fingerprint_input, fold_crc, message_id_from_name,
    resolve_field_order,
};
use mavlink_bindgen::model::{MavField, MavMessage};
use mavlink_bindgen::types::MavType;

fn field(name: &str, mavtype: MavType, is_extension: bool) -> MavField {
    MavField {
        mavtype,
        name: name.to_string(),
        description: None,
        enumtype: None,
        display: None,
        is_extension,
    }
}

fn message(name: &str, fields: Vec<MavField>) -> MavMessage {
    MavMessage { id: 7, name: name.to_string(), description: None, fields }
}

fn names(fields: &[MavField]) -> Vec<String> {
    fields.iter().map(|f| f.name.clone()).collect()
}

#[test]
fn core_fields_ordered_by_weight() {
    let fields = vec![
        field("a", MavType::UInt8, false),
        field("b", MavType::UInt32, false),
        field("c", MavType::UInt16, false),
    ];
    let resolved = resolve_field_order(fields);
    assert_eq!(names(&resolved), vec!["b", "c", "a"]);
}

#[test]
fn scenario_fingerprint_of_three_fields() {
    let msg = message(
        "TEST",
        vec![
            field("a", MavType::UInt8, false),
            field("b", MavType::UInt32, false),
            field("c", MavType::UInt16, false),
        ],
    );
    assert_eq!(fingerprint_input(&msg), b"TEST uint32_t b uint16_t c uint8_t a ".to_vec());
    assert_eq!(extra_crc(&msg), 213);
}

#[test]
fn equal_weights_keep_declaration_order_and_extensions_follow() {
    let fields = vec![
        field("x", MavType::UInt8, false),
        field("e1", MavType::UInt64, true),
        field("y", MavType::Int8, false),
        field("z", MavType::Float, false),
        field("e2", MavType::UInt8, true),
        field("w", MavType::Array(Box::new(MavType::Double), 3), false),
        field("s", MavType::String(20), false),
    ];
    let resolved = resolve_field_order(fields);
    assert_eq!(names(&resolved), vec!["w", "z", "x", "y", "s", "e1", "e2"]);
}

#[test]
fn heartbeat_fingerprint_matches_the_published_value() {
    let msg = message(
        "HEARTBEAT",
        vec![
            field("mavtype", MavType::UInt8, false),
            field("autopilot", MavType::UInt8, false),
            field("base_mode", MavType::UInt8, false),
            field("custom_mode", MavType::UInt32, false),
            field("system_status", MavType::UInt8, false),
            field("mavlink_version", MavType::UInt8MavlinkVersion, false),
        ],
    );
    assert_eq!(extra_crc(&msg), 50);
}

#[test]
fn array_lengths_enter_the_fingerprint() {
    let msg = message(
        "ARR",
        vec![
            field("s", MavType::String(16), false),
            field("q", MavType::Array(Box::new(MavType::Float), 4), false),
        ],
    );
    let mut expected = b"ARR float q ".to_vec();
    expected.push(4);
    expected.extend_from_slice(b"char s ");
    expected.push(16);
    assert_eq!(fingerprint_input(&msg), expected);
    assert_eq!(extra_crc(&msg), 104);
}

#[test]
fn extension_fields_leave_the_fingerprint_alone() {
    let core = vec![
        field("a", MavType::UInt8, false),
        field("b", MavType::UInt32, false),
        field("c", MavType::UInt16, false),
    ];
    let plain = message("TEST", core.clone());
    let mut with_ext = core.clone();
    with_ext.push(field("ext", MavType::UInt64, true));
    let extended = message("TEST", with_ext);
    assert_eq!(extra_crc(&plain), extra_crc(&extended));
    assert_eq!(fingerprint_input(&plain), fingerprint_input(&extended));
}

#[test]
fn changing_a_core_type_changes_the_fingerprint() {
    let a = message("TEST", vec![field("a", MavType::UInt8, false), field("b", MavType::UInt32, false)]);
    let b = message("TEST", vec![field("a", MavType::Int8, false), field("b", MavType::UInt32, false)]);
    assert_ne!(fingerprint_input(&a), fingerprint_input(&b));
    assert_ne!(extra_crc(&a), extra_crc(&b));
}

#[test]
fn resolution_before_fingerprint_changes_nothing() {
    let fields = vec![
        field("a", MavType::UInt8, false),
        field("b", MavType::UInt32, false),
        field("e", MavType::UInt16, true),
        field("c", MavType::UInt16, false),
    ];
    let before = message("M", fields.clone());
    let after = message("M", resolve_field_order(fields));
    assert_eq!(extra_crc(&before), extra_crc(&after));
}

#[test]
fn fold_of_sixteen_bits() {
    assert_eq!(fold_crc(0x1234), 0x34 ^ 0x12);
    assert_eq!(fold_crc(0xFFFF), 0);
    assert_eq!(fold_crc(0x00AB), 0xAB);
}

#[test]
fn encoded_length_sums_field_sizes() {
    let msg = message(
        "M",
        vec![
            field("a", MavType::UInt8, false),
            field("b", MavType::Array(Box::new(MavType::UInt16), 5), false),
            field("c", MavType::String(7), false),
            field("d", MavType::Double, true),
        ],
    );
    assert_eq!(encoded_len(&msg), Some(1 + 10 + 7 + 8));
    let big = message("M", vec![field("a", MavType::Array(Box::new(MavType::UInt64), usize::MAX), false)]);
    assert_eq!(encoded_len(&big), None);
}

#[test]
fn nested_arrays_are_not_valid() {
    let ok = vec![field("a", MavType::Array(Box::new(MavType::UInt8), 2), false)];
    let nested = vec![field(
        "a",
        MavType::Array(Box::new(MavType::Array(Box::new(MavType::UInt8), 2)), 2),
        false,
    )];
    assert!(fields_are_valid(&ok));
    assert!(!fields_are_valid(&nested));
}

#[test]
fn lookups_by_name_and_id() {
    let mut a = message("TEST", vec![field("a", MavType::UInt8, false), field("b", MavType::UInt32, false), field("c", MavType::UInt16, false)]);
    a.id = 42;
    let mut b = message("OTHER", vec![field("x", MavType::UInt8, false)]);
    b.id = 7;
    let messages = vec![a, b];
    assert_eq!(message_id_from_name(&messages, "TEST"), Some(42));
    assert_eq!(message_id_from_name(&messages, "OTHER"), Some(7));
    assert_eq!(message_id_from_name(&messages, "NONE"), None);
    assert_eq!(extra_crc_from_id(&messages, 42), 213);
    assert_eq!(extra_crc_from_id(&messages, 1000), 0);
}

#[test]
fn wire_order_check() {
    let unsorted = vec![field("a", MavType::UInt8, false), field("b", MavType::UInt32, false)];
    assert!(!fields_in_layout_order(&unsorted));
    let resolved = resolve_field_order(unsorted);
    assert!(fields_in_layout_order(&resolved));
    let ext_first = vec![field("e", MavType::UInt8, true), field("a", MavType::UInt8, false)];
    assert!(!fields_in_layout_order(&ext_first));
    assert!(fields_in_layout_order(&vec![]));
}
