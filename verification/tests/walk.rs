use rich_text_server::document::{encode, Block, Document};
use rich_text_server::fs_ops::{FsTree, JsonFileSearcher, Outcome};
use rich_text_server::upsert_props;

fn doc_bytes(id: &[u8], ty: &[u8], props: &[u8]) -> Vec<u8> {
    encode(&Document {
        blocks: vec![Block { id: id.to_vec(), ty: ty.to_vec(), props: props.to_vec() }],
    })
}

fn file_bytes<'a>(t: &'a FsTree, path: &[&[u8]]) -> Option<&'a Vec<u8>> {
    match t {
        FsTree::File(b) => {
            if path.is_empty() {
                Some(b)
            } else {
                None
            }
        },
        FsTree::Dir(es) => {
            if path.is_empty() {
                return None;
            }
            for (n, sub) in es {
                if n.as_slice() == path[0] {
                    return file_bytes(sub, &path[1..]);
                }
            }
            None
        },
    }
}

#[test]
fn single_match_update() {
    let a = doc_bytes(b"x", b"text", br#"{"text":"a"}"#);
    let b = doc_bytes(b"y", b"text", br#"{"text":"keep"}"#);
    let tree = FsTree::Dir(vec![
        (b"a.json".to_vec(), FsTree::File(a.clone())),
        (b"b.json".to_vec(), FsTree::File(b.clone())),
    ]);
    let searcher = JsonFileSearcher::new();
    let (nt, oc) = searcher.search_and_replace_props(&tree, b"x", br#"{"text":"b"}"#);
    let na = file_bytes(&nt, &[b"a.json"]).unwrap();
    let nb = file_bytes(&nt, &[b"b.json"]).unwrap();
    assert_eq!(
        na,
        &doc_bytes(b"x", b"text", br#"{"text":"b"}"#)
    );
    assert_eq!(nb, &b);
    assert_eq!(oc.modified.len(), 1);
    assert_eq!(oc.modified[0].0, b"a.json".to_vec());
    assert_eq!(oc.modified[0].1, doc_bytes(b"x", b"text", br#"{"text":"b"}"#));
    assert_eq!(oc.unmatched.len(), 1);
    assert_eq!(oc.unmatched[0], b"b.json".to_vec());
    assert_eq!(oc.skipped.len(), 0);
    assert_eq!(oc.failed.len(), 0);
}

#[test]
fn no_match_changes_nothing_and_echoes_created() {
    let a = doc_bytes(b"x", b"text", br#"{"text":"a"}"#);
    let tree = FsTree::Dir(vec![(b"a.json".to_vec(), FsTree::File(a.clone()))]);
    let (status, echoed, nt, oc) = upsert_props(&tree, b"zzzz", br#"{"text":"new"}"#);
    assert_eq!(status, 201);
    assert_eq!(echoed, br#"{"text":"new"}"#.to_vec());
    assert_eq!(file_bytes(&nt, &[b"a.json"]).unwrap(), &a);
    assert_eq!(oc.modified.len(), 0);
    assert_eq!(oc.unmatched.len(), 1);
}

#[test]
fn multiple_matches_update_every_file() {
    let a = doc_bytes(b"x", b"text", br#"{"text":"a"}"#);
    let b = doc_bytes(b"x", b"text", br#"{"text":"other"}"#);
    let tree = FsTree::Dir(vec![
        (b"a.json".to_vec(), FsTree::File(a)),
        (
            b"sub".to_vec(),
            FsTree::Dir(vec![(b"b.json".to_vec(), FsTree::File(b))]),
        ),
    ]);
    let searcher = JsonFileSearcher::new();
    let (nt, oc) = searcher.search_and_replace_props(&tree, b"x", br#"{"text":"n"}"#);
    let want = doc_bytes(b"x", b"text", br#"{"text":"n"}"#);
    assert_eq!(file_bytes(&nt, &[b"a.json"]).unwrap(), &want);
    assert_eq!(file_bytes(&nt, &[b"sub", b"b.json"]).unwrap(), &want);
    assert_eq!(oc.modified.len(), 2);
    let mut paths: Vec<Vec<u8>> = oc.modified.iter().map(|w| w.0.clone()).collect();
    paths.sort();
    assert_eq!(paths, vec![b"a.json".to_vec(), b"sub/b.json".to_vec()]);
}

#[test]
fn malformed_file_is_skipped_and_others_still_updated() {
    let good = doc_bytes(b"x", b"text", br#"{"text":"a"}"#);
    let bad = b"not json at all".to_vec();
    let tree = FsTree::Dir(vec![
        (b"bad.json".to_vec(), FsTree::File(bad.clone())),
        (b"good.json".to_vec(), FsTree::File(good)),
    ]);
    let searcher = JsonFileSearcher::new();
    let (nt, oc) = searcher.search_and_replace_props(&tree, b"x", br#"{"text":"b"}"#);
    assert_eq!(file_bytes(&nt, &[b"bad.json"]).unwrap(), &bad);
    assert_eq!(
        file_bytes(&nt, &[b"good.json"]).unwrap(),
        &doc_bytes(b"x", b"text", br#"{"text":"b"}"#)
    );
    assert_eq!(oc.skipped, vec![b"bad.json".to_vec()]);
    assert_eq!(oc.modified.len(), 1);
}

#[test]
fn upsert_twice_gives_same_bytes() {
    let a = doc_bytes(b"x", b"text", br#"{"text":"a"}"#);
    let tree = FsTree::Dir(vec![(b"a.json".to_vec(), FsTree::File(a))]);
    let searcher = JsonFileSearcher::new();
    let (t1, _) = searcher.search_and_replace_props(&tree, b"x", br#"{"text":"b"}"#);
    let (t2, _) = searcher.search_and_replace_props(&t1, b"x", br#"{"text":"b"}"#);
    assert_eq!(
        file_bytes(&t1, &[b"a.json"]).unwrap(),
        file_bytes(&t2, &[b"a.json"]).unwrap()
    );
}

#[test]
fn deep_tree_walk_terminates() {
    let mut t = FsTree::File(doc_bytes(b"x", b"text", br#"{"n":0}"#));
    for k in 0..200u32 {
        let name = format!("d{}", k).into_bytes();
        t = FsTree::Dir(vec![(name, t)]);
    }
    let searcher = JsonFileSearcher::new();
    let (_, oc) = searcher.search_and_replace_props(&t, b"x", br#"{"n":1}"#);
    assert_eq!(oc.modified.len(), 1);
}

#[test]
fn empty_directory_walk() {
    let tree = FsTree::Dir(vec![]);
    let searcher = JsonFileSearcher::new();
    let (nt, oc) = searcher.search_and_replace_props(&tree, b"x", br#"{}"#);
    match nt {
        FsTree::Dir(es) => assert_eq!(es.len(), 0),
        _ => panic!("expected a directory"),
    }
    assert_eq!(oc.modified.len(), 0);
    assert_eq!(oc.skipped.len(), 0);
    assert_eq!(oc.unmatched.len(), 0);
}

#[test]
fn record_failed_keeps_every_error() {
    let mut oc = Outcome::new();
    oc.record_failed(b"a.json".to_vec());
    oc.record_failed(b"sub/b.json".to_vec());
    assert_eq!(oc.failed, vec![b"a.json".to_vec(), b"sub/b.json".to_vec()]);
}
