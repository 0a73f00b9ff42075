use rich_text_server::document::{decode, encode, Block, Document, ReadJsonError};
use rich_text_server::json_scan::is_valid_props;

fn block(id: &[u8], ty: &[u8], props: &[u8]) -> Block {
    Block { id: id.to_vec(), ty: ty.to_vec(), props: props.to_vec() }
}

#[test]
fn encode_one_block_exact_bytes() {
    let d = Document {
        blocks: vec![block(b"x1", b"text", br#"{"text":"a"}"#)],
    };
    let bytes = encode(&d);
    assert_eq!(
        bytes,
        br#"{"blocks":[{"id":"x1","type":"text","props":{"text":"a"}}]}"#.to_vec()
    );
}

#[test]
fn encode_empty_document() {
    let d = Document { blocks: vec![] };
    assert_eq!(encode(&d), br#"{"blocks":[]}"#.to_vec());
}

#[test]
fn round_trip_preserves_everything() {
    let d = Document {
        blocks: vec![
            block(b"aaaa-bbbb", b"paragraph", br#"{"text":"hello","n":1}"#),
            block(b"cccc-dddd", b"unknown-kind", br#"{"nested":{"arr":[1,2,{"x":null}]}}"#),
            block(b"eeee", b"t", br#"{}"#),
        ],
    };
    let bytes = encode(&d);
    let back = decode(&bytes).expect("canonical bytes must decode");
    assert_eq!(back.blocks.len(), 3);
    for (a, b) in back.blocks.iter().zip(d.blocks.iter()) {
        assert_eq!(a.id, b.id);
        assert_eq!(a.ty, b.ty);
        assert_eq!(a.props, b.props);
    }
    let again = encode(&back);
    assert_eq!(again, bytes);
}

#[test]
fn round_trip_empty_document() {
    let d = Document { blocks: vec![] };
    let back = decode(&encode(&d)).expect("empty document must decode");
    assert_eq!(back.blocks.len(), 0);
}

#[test]
fn decode_rejects_invalid_json() {
    assert!(matches!(decode(b"this is not json"), Err(ReadJsonError::JsonParseError)));
}

#[test]
fn decode_rejects_json_without_blocks() {
    assert!(matches!(decode(br#"{"other":1}"#), Err(ReadJsonError::JsonParseError)));
    assert!(matches!(decode(br#"{}"#), Err(ReadJsonError::JsonParseError)));
    assert!(matches!(decode(b""), Err(ReadJsonError::JsonParseError)));
}

#[test]
fn decode_rejects_block_missing_fields() {
    assert!(matches!(
        decode(br#"{"blocks":[{"id":"x1"}]}"#),
        Err(ReadJsonError::JsonParseError)
    ));
    assert!(matches!(
        decode(br#"{"blocks":[{"id":"x1","type":"t","props":3}]}"#),
        Err(ReadJsonError::JsonParseError)
    ));
}

#[test]
fn decode_rejects_trailing_garbage() {
    assert!(matches!(
        decode(br#"{"blocks":[]}x"#),
        Err(ReadJsonError::JsonParseError)
    ));
}

#[test]
fn decode_props_with_quotes_and_brackets_in_strings() {
    let d = Document {
        blocks: vec![block(b"q", b"t", br#"{"text":"a \"quoted\" ] } value"}"#)],
    };
    let bytes = encode(&d);
    let back = decode(&bytes).expect("quoted props must decode");
    assert_eq!(back.blocks[0].props, d.blocks[0].props);
}

#[test]
fn valid_props_accepts_objects_only() {
    assert!(is_valid_props(br#"{}"#));
    assert!(is_valid_props(br#"{"a":[1,2,{"b":"]"}]}"#));
    assert!(!is_valid_props(br#"[]"#));
    assert!(!is_valid_props(br#"{"#));
    assert!(!is_valid_props(br#"{]"#));
    assert!(!is_valid_props(br#"{} "#));
    assert!(!is_valid_props(b""));
}

#[test]
fn decode_accepts_whitespace() {
    let d = decode(br#"{"blocks": []}"#).expect("spaced empty blocks array must decode");
    assert_eq!(d.blocks.len(), 0);
    let d2 = decode(b" { \"blocks\" : [ ] } ").expect("spaced form must decode");
    assert_eq!(d2.blocks.len(), 0);
}

#[test]
fn decode_accepts_pretty_printed() {
    let text = b"{\n  \"blocks\": [\n    {\n      \"id\": \"x1\",\n      \"type\": \"text\",\n      \"props\": { \"text\": \"a\" }\n    }\n  ]\n}\n";
    let d = decode(text).expect("pretty-printed document must decode");
    assert_eq!(d.blocks.len(), 1);
    assert_eq!(d.blocks[0].id, b"x1".to_vec());
    assert_eq!(d.blocks[0].ty, b"text".to_vec());
    assert_eq!(d.blocks[0].props, br#"{ "text": "a" }"#.to_vec());
}

#[test]
fn decode_accepts_reordered_keys() {
    let d = decode(br#"{"blocks":[{"props":{"n":1},"type":"t","id":"x"}]}"#)
        .expect("reordered block keys must decode");
    assert_eq!(d.blocks[0].id, b"x".to_vec());
    assert_eq!(d.blocks[0].ty, b"t".to_vec());
    assert_eq!(d.blocks[0].props, br#"{"n":1}"#.to_vec());
}

#[test]
fn decode_accepts_extra_members() {
    let d = decode(br#"{"version":7,"blocks":[{"id":"x","type":"t","props":{}}],"meta":{"a":[1,2]},"note":"hi"}"#)
        .expect("extra members are read past");
    assert_eq!(d.blocks.len(), 1);
    assert_eq!(d.blocks[0].id, b"x".to_vec());
}

#[test]
fn decode_accepts_escaped_strings() {
    let d = decode(br#"{"blocks":[{"id":"a\"b","type":"x\\y\n","props":{}}]}"#)
        .expect("escaped id and type must decode");
    assert_eq!(d.blocks[0].id, b"a\"b".to_vec());
    assert_eq!(d.blocks[0].ty, b"x\\y\n".to_vec());
}

#[test]
fn decode_rejects_duplicate_block_keys() {
    assert!(matches!(
        decode(br#"{"blocks":[{"id":"a","id":"b","type":"t","props":{}}]}"#),
        Err(ReadJsonError::JsonParseError)
    ));
}

#[test]
fn encode_escapes_and_round_trips_special_ids() {
    let d = Document {
        blocks: vec![block(b"a\"b\\c", b"line\nbreak", br#"{"x":"y"}"#)],
    };
    let bytes = encode(&d);
    assert_eq!(
        bytes,
        br#"{"blocks":[{"id":"a\"b\\c","type":"line\nbreak","props":{"x":"y"}}]}"#.to_vec()
    );
    let back = decode(&bytes).expect("escaped encoding must decode");
    assert_eq!(back.blocks[0].id, d.blocks[0].id);
    assert_eq!(back.blocks[0].ty, d.blocks[0].ty);
    assert_eq!(back.blocks[0].props, d.blocks[0].props);
}
