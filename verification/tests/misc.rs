use rich_text_server::document::{Block, Document};
use rich_text_server::fs_ops::{FileSystemEntity, JsonStrVisitor, JsonValue, Slug};
use rich_text_server::AppState;

fn block(id: &[u8], ty: &[u8], props: &[u8]) -> Block {
    Block { id: id.to_vec(), ty: ty.to_vec(), props: props.to_vec() }
}

#[test]
fn update_block_props_replaces_whole_table() {
    let mut d = Document {
        blocks: vec![
            block(b"a", b"text", br#"{"text":"one","keep":true}"#),
            block(b"b", b"text", br#"{"text":"two"}"#),
        ],
    };
    let r = d.update_block_props(b"a", br#"{"text":"new"}"#.to_vec());
    assert!(r.is_ok());
    assert_eq!(d.blocks[0].props, br#"{"text":"new"}"#.to_vec());
    assert_eq!(d.blocks[1].props, br#"{"text":"two"}"#.to_vec());
    assert_eq!(d.blocks[0].id, b"a".to_vec());
    assert_eq!(d.blocks[0].ty, b"text".to_vec());
}

#[test]
fn update_block_props_not_found() {
    let mut d = Document {
        blocks: vec![block(b"a", b"text", br#"{}"#)],
    };
    let r = d.update_block_props(b"missing", br#"{"x":1}"#.to_vec());
    assert_eq!(r, Err("Block not found".to_string()));
    assert_eq!(d.blocks[0].props, br#"{}"#.to_vec());
}

#[test]
fn locate_returns_first_match() {
    let d = Document {
        blocks: vec![
            block(b"a", b"t", br#"{}"#),
            block(b"dup", b"t", br#"{"n":1}"#),
            block(b"dup", b"t", br#"{"n":2}"#),
        ],
    };
    assert_eq!(d.locate(b"dup"), Some(1));
    assert_eq!(d.locate(b"a"), Some(0));
    assert_eq!(d.locate(b"zz"), None);
}

#[test]
fn duplicate_id_in_one_document_updates_first_only() {
    let mut d = Document {
        blocks: vec![
            block(b"dup", b"t", br#"{"n":1}"#),
            block(b"dup", b"t", br#"{"n":2}"#),
        ],
    };
    d.update_block_props(b"dup", br#"{"n":9}"#.to_vec()).unwrap();
    assert_eq!(d.blocks[0].props, br#"{"n":9}"#.to_vec());
    assert_eq!(d.blocks[1].props, br#"{"n":2}"#.to_vec());
}

#[test]
fn classify_table() {
    assert_eq!(FileSystemEntity::classify(true, false), FileSystemEntity::File);
    assert_eq!(FileSystemEntity::classify(false, true), FileSystemEntity::Folder);
    assert_eq!(FileSystemEntity::classify(false, false), FileSystemEntity::File);
    assert_eq!(FileSystemEntity::classify(true, true), FileSystemEntity::File);
}

#[test]
fn slug_lowers_filters_and_dashes() {
    let s = Slug::new("Hello World.TXT");
    assert_eq!(s.0, "hello-world.txt".to_string());
}

#[test]
fn slug_drops_punctuation() {
    let s = Slug::new("A!b?c");
    assert_eq!(s.0, "abc".to_string());
}

#[test]
fn slug_of_empty_is_empty() {
    let s = Slug::new("");
    assert_eq!(s.0, String::new());
}

#[test]
fn visitor_starts_empty_and_hands_back_collection() {
    let mut v = JsonStrVisitor::new();
    assert_eq!(v.collected.len(), 0);
    v.collected.push("hit".to_string());
    assert_eq!(v.collected(), vec!["hit".to_string()]);
}

#[test]
fn app_state_keeps_directory() {
    let st = AppState::new("/data/docs".to_string());
    assert_eq!(st.data_directory, "/data/docs".to_string());
}

#[test]
fn visitor_collects_matching_strings_in_order() {
    let value = JsonValue::Object(vec![
        ("a".to_string(), JsonValue::String("KeepMe".to_string())),
        (
            "b".to_string(),
            JsonValue::Array(vec![
                JsonValue::String("drop".to_string()),
                JsonValue::Number("3".to_string()),
                JsonValue::String("KeepToo".to_string()),
                JsonValue::Null,
            ]),
        ),
        ("c".to_string(), JsonValue::Bool(true)),
    ]);
    let mut v = JsonStrVisitor::new();
    let pred = |s: &str| s.starts_with("keep");
    let op = |s: &str| s.to_lowercase();
    v.visit(&value, &pred, &op);
    assert_eq!(
        v.collected(),
        vec!["KeepMe".to_string(), "KeepToo".to_string()]
    );
}
