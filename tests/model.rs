use mavlink_bindgen::error::BindGenError;
use mavlink_bindgen::model::{MavEnum, MavEnumEntry, MavField, MavMessage, MavProfile};
use mavlink_bindgen::types::MavType;

fn entry(name: &str, value: Option<u32>) -> MavEnumEntry {
    MavEnumEntry { value, name: name.to_string(), description: None, params: None }
}

fn enm(name: &str, entries: Vec<MavEnumEntry>) -> MavEnum {
    MavEnum { name: name.to_string(), description: None, entries, primitive: None, bitmask: false }
}

fn field(name: &str, mavtype: MavType, enumtype: Option<&str>, display: Option<&str>) -> MavField {
    MavField {
        mavtype,
        name: name.to_string(),
        description: None,
        enumtype: enumtype.map(|s| s.to_string()),
        display: display.map(|s| s.to_string()),
        is_extension: false,
    }
}

fn message(id: u32, name: &str, fields: Vec<MavField>) -> MavMessage {
    MavMessage { id, name: name.to_string(), description: None, fields }
}

fn entry_names(e: &MavEnum) -> Vec<String> {
    e.entries.iter().map(|x| x.name.clone()).collect()
}

#[test]
fn implied_entry_values_follow_the_running_maximum() {
    let e = enm("E", vec![entry("A", None), entry("B", Some(5)), entry("C", None)]);
    assert_eq!(e.entry_values(), Some(vec![1, 5, 6]));
}

#[test]
fn explicit_values_below_the_maximum_do_not_lower_it() {
    let e = enm("E", vec![entry("A", Some(10)), entry("B", Some(3)), entry("C", None), entry("D", Some(0))]);
    assert_eq!(e.entry_values(), Some(vec![10, 3, 11, 0]));
    let empty = enm("E", vec![]);
    assert_eq!(empty.entry_values(), Some(vec![]));
}

#[test]
fn implied_value_past_u32_is_refused() {
    let e = enm("E", vec![entry("A", Some(u32::MAX)), entry("B", None)]);
    assert_eq!(e.entry_values(), None);
}

#[test]
fn merging_disjoint_enums_appends_in_order() {
    let mut first = enm("E", vec![entry("A", Some(1)), entry("B", Some(2))]);
    let second = enm("E", vec![entry("C", Some(3)), entry("D", None)]);
    assert_eq!(first.try_combine(second), Ok(()));
    assert_eq!(entry_names(&first), vec!["A", "B", "C", "D"]);
}

#[test]
fn merging_a_repeated_entry_fails() {
    let mut first = enm("E", vec![entry("A", Some(1)), entry("B", Some(2))]);
    let second = enm("E", vec![entry("C", Some(3)), entry("B", Some(2))]);
    assert_eq!(first.try_combine(second), Err(BindGenError::DuplicateEnumEntry("B".to_string())));
    assert_eq!(entry_names(&first), vec!["A", "B"]);
}

#[test]
fn same_name_other_value_is_not_a_collision() {
    let mut first = enm("E", vec![entry("A", Some(1))]);
    let second = enm("E", vec![entry("A", Some(2))]);
    assert_eq!(first.try_combine(second), Ok(()));
    assert_eq!(first.entries.len(), 2);
}

#[test]
fn merging_another_enum_changes_nothing() {
    let mut first = enm("E", vec![entry("A", Some(1))]);
    let second = enm("F", vec![entry("A", Some(1))]);
    assert_eq!(first.try_combine(second), Ok(()));
    assert_eq!(entry_names(&first), vec!["A"]);
}

#[test]
fn profile_accepts_identical_redefinition_and_refuses_a_different_one() {
    let mut p = MavProfile::new();
    let m = message(1, "PING", vec![field("seq", MavType::UInt32, None, None)]);
    assert_eq!(p.add_message(m.clone()), Ok(()));
    assert_eq!(p.add_message(m.clone()), Ok(()));
    assert_eq!(p.messages.len(), 1);
    let other = message(1, "PING", vec![field("seq", MavType::UInt16, None, None)]);
    assert_eq!(p.add_message(other), Err(BindGenError::MessageRedefined("PING".to_string())));
    assert_eq!(p.messages.len(), 1);
}

#[test]
fn profile_merges_enums_of_one_name() {
    let mut p = MavProfile::new();
    assert_eq!(p.add_enum(enm("E", vec![entry("A", Some(1))])), Ok(()));
    assert_eq!(p.add_enum(enm("F", vec![entry("X", Some(1))])), Ok(()));
    assert_eq!(p.add_enum(enm("E", vec![entry("B", Some(2))])), Ok(()));
    assert_eq!(p.enums.len(), 2);
    assert_eq!(entry_names(&p.enums[0]), vec!["A", "B"]);
    assert_eq!(
        p.add_enum(enm("E", vec![entry("A", Some(1))])),
        Err(BindGenError::DuplicateEnumEntry("A".to_string()))
    );
}

#[test]
fn bitmask_hint_marks_the_enum_and_sets_its_width() {
    let mut p = MavProfile::new();
    p.add_enum(enm("Flags", vec![entry("A", Some(1))])).unwrap();
    p.add_enum(enm("Mode", vec![entry("M", Some(1))])).unwrap();
    p.add_message(message(
        1,
        "M1",
        vec![
            field("f", MavType::UInt16, Some("Flags"), Some("bitmask")),
            field("m", MavType::UInt8, Some("Mode"), None),
        ],
    ))
    .unwrap();
    let p = p.update_enums();
    assert!(p.enums[0].bitmask);
    assert_eq!(p.enums[0].primitive.as_deref(), Some("u16"));
    assert!(!p.enums[1].bitmask);
    assert_eq!(p.enums[1].primitive, None);
}

#[test]
fn fields_of_a_bitmask_enum_get_the_hint() {
    let mut p = MavProfile::new();
    let mut flags = enm("Flags", vec![entry("A", Some(1))]);
    flags.bitmask = true;
    p.add_enum(flags).unwrap();
    p.add_message(message(
        1,
        "M1",
        vec![field("f", MavType::Array(Box::new(MavType::UInt32), 2), Some("Flags"), None)],
    ))
    .unwrap();
    let p = p.update_enums();
    assert_eq!(p.messages[0].fields[0].display.as_deref(), Some("bitmask"));
    assert_eq!(p.enums[0].primitive.as_deref(), Some("u32"));
}

#[test]
fn last_field_read_sets_the_bitmask_width() {
    let mut p = MavProfile::new();
    p.add_enum(enm("Flags", vec![entry("A", Some(1))])).unwrap();
    p.add_message(message(1, "M1", vec![field("f", MavType::UInt16, Some("Flags"), Some("bitmask"))])).unwrap();
    p.add_message(message(2, "M2", vec![field("g", MavType::UInt32, Some("Flags"), None)])).unwrap();
    let p = p.update_enums();
    assert_eq!(p.enums[0].primitive.as_deref(), Some("u32"));
    assert_eq!(p.messages[1].fields[0].display.as_deref(), Some("bitmask"));
}

#[test]
fn a_field_read_before_the_hint_keeps_no_hint() {
    let mut p = MavProfile::new();
    p.add_enum(enm("Flags", vec![entry("A", Some(1))])).unwrap();
    p.add_message(message(1, "M1", vec![field("g", MavType::UInt32, Some("Flags"), None)])).unwrap();
    p.add_message(message(2, "M2", vec![field("f", MavType::UInt16, Some("Flags"), Some("bitmask"))])).unwrap();
    let p = p.update_enums();
    assert_eq!(p.messages[0].fields[0].display, None);
    assert_eq!(p.enums[0].primitive.as_deref(), Some("u16"));
}
