use mavlink_bindgen::error::BindGenError;
use mavlink_bindgen::filter::{MavXmlFilter, MessageFilter, XmlAttribute, XmlEvent};
use mavlink_bindgen::parser::{MavParser, ParseAction};
use mavlink_bindgen::text::{capitalize_word, to_pascal_case};
use mavlink_bindgen::types::MavType;

fn attr(key: &str, value: &str) -> XmlAttribute {
    XmlAttribute { key: key.to_string(), value: value.to_string() }
}

fn start(name: &str, attributes: Vec<XmlAttribute>) -> XmlEvent {
    XmlEvent::Start { name: name.to_string(), attributes }
}

fn empty(name: &str, attributes: Vec<XmlAttribute>) -> XmlEvent {
    XmlEvent::Empty { name: name.to_string(), attributes }
}

fn end(name: &str) -> XmlEvent {
    XmlEvent::End(name.to_string())
}

fn text(s: &str) -> XmlEvent {
    XmlEvent::Text(s.to_string())
}

fn field(name: &str, ty: &str) -> Vec<XmlEvent> {
    vec![start("field", vec![attr("type", ty), attr("name", name)]), text("doc"), end("field")]
}

fn document() -> Vec<XmlEvent> {
    let mut ev = vec![
        start("mavlink", vec![]),
        start("enums", vec![]),
        start("enum", vec![attr("name", "MAV_STATE"), attr("bitmask", "true")]),
        start("description", vec![]),
        text("state\nof it"),
        end("description"),
        start("entry", vec![attr("value", "0x10"), attr("name", "MAV_STATE_A")]),
        start("param", vec![attr("index", "2")]),
        text("second"),
        end("param"),
        end("entry"),
        empty("entry", vec![attr("name", "MAV_STATE_B"), attr("value", "3")]),
        end("enum"),
        end("enums"),
        start("messages", vec![]),
        start("message", vec![attr("id", "3"), attr("name", "THING")]),
        start("description", vec![]),
        text("a thing"),
        end("description"),
    ];
    ev.extend(field("a", "uint8_t"));
    ev.extend(field("type", "uint32_t"));
    ev.extend(vec![empty("extensions", vec![])]);
    ev.extend(field("ext", "uint64_t"));
    ev.extend(field("c", "uint16_t"));
    ev.extend(vec![end("message"), end("messages"), end("mavlink"), XmlEvent::Eof]);
    ev
}

fn run(events: &[XmlEvent]) -> Result<MavParser, BindGenError> {
    let mut parser = MavParser::new();
    for e in events {
        parser.step(e)?;
    }
    Ok(parser)
}

#[test]
fn document_builds_a_profile() {
    let parser = run(&document()).unwrap();
    let profile = parser.finish();
    assert_eq!(profile.messages.len(), 1);
    let m = &profile.messages[0];
    assert_eq!(m.id, 3);
    assert_eq!(m.name, "THING");
    assert_eq!(m.description.as_deref(), Some("a thing"));
    let names: Vec<&str> = m.fields.iter().map(|f| f.name.as_str()).collect();
    assert_eq!(names, vec!["mavtype", "a", "ext", "c"]);
    assert_eq!(m.fields[0].mavtype, MavType::UInt32);
    assert!(m.fields[2].is_extension);
    assert!(m.fields[3].is_extension);
    assert_eq!(profile.enums.len(), 1);
    let e = &profile.enums[0];
    assert_eq!(e.name, "MavState");
    assert!(e.bitmask);
    assert_eq!(e.description.as_deref(), Some("state of it"));
    assert_eq!(e.entries.len(), 2);
    assert_eq!(e.entries[0].value, Some(16));
    assert_eq!(e.entries[1].value, Some(3));
    let params = e.entries[0].params.clone().unwrap();
    assert_eq!(params.len(), 2);
    assert_eq!(params[1], "second");
}

#[test]
fn unknown_tag_is_fatal() {
    let events = vec![start("mavlink", vec![]), start("bogus", vec![])];
    assert_eq!(run(&events).err(), Some(BindGenError::UnexpectedElement("bogus".to_string())));
}

#[test]
fn misplaced_element_is_fatal() {
    let events = vec![start("mavlink", vec![]), start("message", vec![])];
    assert_eq!(run(&events).err(), Some(BindGenError::InvalidParent("message".to_string())));
}

#[test]
fn misplaced_text_is_fatal() {
    let events = vec![start("mavlink", vec![]), start("messages", vec![]), text("stray")];
    assert_eq!(run(&events).err(), Some(BindGenError::UnexpectedText("stray".to_string())));
}

#[test]
fn unreadable_type_and_id_are_fatal() {
    let bad_type = vec![
        start("mavlink", vec![]),
        start("messages", vec![]),
        start("message", vec![attr("id", "1"), attr("name", "M")]),
        start("field", vec![attr("type", "uint9_t"), attr("name", "x")]),
    ];
    assert_eq!(run(&bad_type).err(), Some(BindGenError::InvalidType("uint9_t".to_string())));
    let bad_id = vec![
        start("mavlink", vec![]),
        start("messages", vec![]),
        start("message", vec![attr("id", "one"), attr("name", "M")]),
    ];
    assert_eq!(run(&bad_id).err(), Some(BindGenError::InvalidNumber("one".to_string())));
}

#[test]
fn redefined_message_is_fatal() {
    let mut events = vec![start("mavlink", vec![]), start("messages", vec![])];
    events.push(start("message", vec![attr("id", "1"), attr("name", "M")]));
    events.extend(field("a", "uint8_t"));
    events.push(end("message"));
    events.push(start("message", vec![attr("id", "1"), attr("name", "M")]));
    events.extend(field("a", "uint16_t"));
    events.push(end("message"));
    assert_eq!(run(&events).err(), Some(BindGenError::MessageRedefined("M".to_string())));
}

#[test]
fn include_is_handed_to_the_caller() {
    let mut parser = MavParser::new();
    let events = vec![start("mavlink", vec![]), start("include", vec![]), text("common.xml\n")];
    for e in &events {
        assert_eq!(parser.step(e), Ok(ParseAction::Continue));
    }
    assert_eq!(parser.step(&end("include")), Ok(ParseAction::Include("common.xml".to_string())));
}

#[test]
fn included_profile_is_folded_in() {
    let included = run(&document()).unwrap().finish();
    let mut parser = MavParser::new();
    parser.merge_included(included.clone()).unwrap();
    assert_eq!(
        parser.merge_included(included),
        Err(BindGenError::DuplicateEnumEntry("MAV_STATE_A".to_string()))
    );
    let profile = parser.finish();
    assert_eq!(profile.messages.len(), 1);
    assert_eq!(profile.enums.len(), 1);
    assert_eq!(profile.enums[0].entries.len(), 2);
}

#[test]
fn extension_filter_drops_extension_regions() {
    let mut events = document();
    let mut filter = MavXmlFilter::new(false);
    filter.filter(&mut events).unwrap();
    let profile = run(&events).unwrap().finish();
    let names: Vec<&str> = profile.messages[0].fields.iter().map(|f| f.name.as_str()).collect();
    assert_eq!(names, vec!["mavtype", "a"]);
}

#[test]
fn extension_filter_switched_off_keeps_everything() {
    let mut events = document();
    let before = events.clone();
    let mut filter = MavXmlFilter::new(true);
    filter.filter(&mut events).unwrap();
    assert_eq!(events, before);
}

#[test]
fn message_filter_drops_listed_messages() {
    let mut events = vec![start("mavlink", vec![]), start("messages", vec![])];
    events.push(start("message", vec![attr("id", "1"), attr("name", "STORM32_GIMBAL_MANAGER_INFORMATION")]));
    events.extend(field("a", "uint8_t"));
    events.push(end("message"));
    events.push(start("message", vec![attr("id", "2"), attr("name", "KEPT")]));
    events.extend(field("b", "uint8_t"));
    events.push(end("message"));
    events.extend(vec![end("messages"), end("mavlink")]);
    let mut filter = MavXmlFilter::new(true);
    filter.filter(&mut events).unwrap();
    assert_eq!(events.len(), 2 + 1 + 3 + 1 + 2);
    let profile = run(&events).unwrap().finish();
    assert_eq!(profile.messages.len(), 1);
    assert_eq!(profile.messages[0].name, "KEPT");
}

#[test]
fn filter_refuses_unknown_tags_and_unreadable_input() {
    let mut events = vec![start("mavlink", vec![]), start("bogus", vec![])];
    let mut filter = MavXmlFilter::new(true);
    assert_eq!(filter.filter(&mut events), Err(BindGenError::UnexpectedElement("bogus".to_string())));
    let mut broken = vec![XmlEvent::Invalid("bad".to_string())];
    let mut filter = MavXmlFilter::new(false);
    assert!(filter.filter(&mut broken).is_err());
}

#[test]
fn message_filter_lists_the_unsupported_message() {
    let f = MessageFilter::new();
    assert!(!f.is_in);
    assert_eq!(f.messages, vec!["STORM32_GIMBAL_MANAGER_INFORMATION".to_string()]);
}

#[test]
fn pascal_case_names() {
    assert_eq!(to_pascal_case("MAV_STATE"), "MavState");
    assert_eq!(to_pascal_case("MAV__CMD_"), "MavCmd");
    assert_eq!(to_pascal_case(""), "");
    assert_eq!(to_pascal_case("mav_cmd"), "MavCmd");
    assert_eq!(capitalize_word("hELLO"), "Hello");
    assert_eq!(capitalize_word(""), "");
}

#[test]
fn default_filter_leaves_extensions_out() {
    let mut events = document();
    let mut filter = MavXmlFilter::default();
    assert!(!filter.emit_extensions);
    filter.filter(&mut events).unwrap();
    assert!(!events.iter().any(|e| matches!(e, XmlEvent::Empty { name, .. } if name == "extensions")));
}

#[test]
fn entry_values_read_hex_and_refuse_non_numbers() {
    let base = vec![
        start("mavlink", vec![]),
        start("enums", vec![]),
        start("enum", vec![attr("name", "E")]),
    ];
    let mut hex_empty = base.clone();
    hex_empty.push(empty("entry", vec![attr("name", "A"), attr("value", "0x1F")]));
    let parser = run(&hex_empty).unwrap();
    assert_eq!(parser.mavenum.entries[0].value, Some(31));
    assert_eq!(parser.mavenum.entries[0].name, "A");

    let mut bad_start = base.clone();
    bad_start.push(start("entry", vec![attr("name", "B"), attr("value", "abc")]));
    assert_eq!(run(&bad_start).err(), Some(BindGenError::InvalidNumber("abc".to_string())));

    let mut bad_empty = base.clone();
    bad_empty.push(empty("entry", vec![attr("value", "0xZZ")]));
    assert_eq!(run(&bad_empty).err(), Some(BindGenError::InvalidNumber("0xZZ".to_string())));
}

#[test]
fn start_tags_store_their_attributes() {
    let mut ev = vec![
        start("mavlink", vec![]),
        start("enums", vec![]),
        start("enum", vec![attr("name", "MAV_FLAGS"), attr("bitmask", "true")]),
        end("enum"),
        end("enums"),
        start("messages", vec![]),
        start("message", vec![attr("name", "M"), attr("id", "77")]),
    ];
    ev.push(start("field", vec![attr("type", "uint16_t"), attr("name", "type"), attr("enum", "MAV_FLAGS")]));
    let parser = run(&ev).unwrap();
    assert_eq!(parser.message.id, 77);
    assert_eq!(parser.message.name, "M");
    assert_eq!(parser.field.name, "mavtype");
    assert_eq!(parser.field.mavtype, MavType::UInt16);
    assert_eq!(parser.field.enumtype.as_deref(), Some("MavFlags"));
    assert_eq!(parser.field.display.as_deref(), Some("bitmask"));
}
