use proto_dump::message::decode;
use proto_dump::render::render;
use proto_dump::resolve::{classify, DecodedNode};

fn lines_of(buf: &[u8]) -> Vec<String> {
    let m = decode(buf).unwrap();
    render(&m).into_iter().map(|l| String::from_utf8(l).unwrap()).collect()
}

#[test]
fn varint_renders_in_decimal() {
    assert_eq!(lines_of(&[0x08, 0x96, 0x01]), vec!["1: 150"]);
}

#[test]
fn text_payload_renders_as_text() {
    assert_eq!(lines_of(&[0x12, 0x03, 0x61, 0x62, 0x63]), vec!["2: abc"]);
}

#[test]
fn empty_message_renders_nothing() {
    assert!(lines_of(&[]).is_empty());
}

#[test]
fn fixed_values_render_in_decimal() {
    assert_eq!(
        lines_of(&[0x09, 0xff, 0xff, 0xff, 0xff, 0xff, 0xff, 0xff, 0xff, 0x15, 0x2a, 0, 0, 0]),
        vec!["1: 18446744073709551615", "2: 42"]
    );
}

#[test]
fn nested_message_is_indented() {
    // 3: { 1: 150, 2: { 1: 1 } }
    let buf = [0x1a, 0x07, 0x08, 0x96, 0x01, 0x12, 0x02, 0x08, 0x01];
    assert_eq!(lines_of(&buf), vec!["3: {", "  1: 150", "  2: {", "    1: 1", "  }", "}"]);
}

#[test]
fn text_inside_nested_message_is_indented() {
    // 1: { 2: "hey" } where "hey" does not read as fields
    let buf = [0x0a, 0x05, 0x12, 0x03, 0x68, 0x65, 0x79];
    assert_eq!(lines_of(&buf), vec!["1: {", "  2: hey", "}"]);
}

#[test]
fn raw_bytes_render_as_hex_pairs() {
    assert_eq!(lines_of(&[0x0a, 0x03, 0xff, 0x01, 0xab]), vec!["1: [ff, 01, ab]"]);
    assert_eq!(lines_of(&[0x0a, 0x01, 0xff]), vec!["1: [ff]"]);
}

#[test]
fn groups_render_nothing() {
    assert_eq!(lines_of(&[0x0b, 0x08, 0x01, 0x0c]), vec!["1: 1"]);
}

#[test]
fn payload_that_is_message_and_text_is_message() {
    // 0x08 0x01 is the field `1: 1` and also valid UTF-8.
    let payload = [0x08u8, 0x01];
    assert!(std::str::from_utf8(&payload).is_ok());
    match classify(&payload) {
        DecodedNode::SubMessage(m) => assert_eq!(m.fields.len(), 1),
        other => panic!("expected a message, got {:?}", other),
    }
    assert_eq!(lines_of(&[0x12, 0x02, 0x08, 0x01]), vec!["2: {", "  1: 1", "}"]);
}

#[test]
fn empty_payload_is_empty_message() {
    assert!(matches!(classify(&[]), DecodedNode::SubMessage(m) if m.fields.is_empty()));
    assert_eq!(lines_of(&[0x0a, 0x00]), vec!["1: {", "}"]);
}

#[test]
fn classify_falls_back_in_order() {
    assert_eq!(classify(b"abc"), DecodedNode::Text("abc"));
    assert_eq!(classify("h\u{e9}".as_bytes()), DecodedNode::Text("h\u{e9}"));
    assert_eq!(classify(&[0xff, 0xfe]), DecodedNode::RawBytes(&[0xff, 0xfe]));
    // A lone continuation byte is neither fields nor UTF-8.
    assert_eq!(classify(&[0x80]), DecodedNode::RawBytes(&[0x80]));
}
