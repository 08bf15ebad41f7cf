use live::document::{Document, Member};
use live::mirror::Mirror;

fn member(key: &str, value: Document) -> Member {
    Member { key: key.to_string(), value }
}

fn named(name: &str) -> Document {
    Document::Object(vec![member(
        "sessionInfo",
        Document::Object(vec![member("name", Document::Text(name.to_string()))]),
    )])
}

#[test]
fn new_mirror_is_empty() {
    let mirror = Mirror::new();
    assert_eq!(mirror.document(), &Document::Null);
    assert_eq!(mirror.current_session_name(), None);
}

#[test]
fn replace_puts_the_document_in_place() {
    let mut mirror = Mirror::new();
    mirror.replace(named("S1"));
    assert_eq!(mirror.document(), &named("S1"));
    assert_eq!(mirror.current_session_name(), Some(&"S1".to_string()));
    mirror.replace(Document::Integer(4));
    assert_eq!(mirror.document(), &Document::Integer(4));
    assert_eq!(mirror.current_session_name(), None);
}

#[test]
fn merge_changes_the_mirrored_document() {
    let mut mirror = Mirror::new();
    mirror.replace(named("S1"));
    mirror.merge(Document::Object(vec![member("lap", Document::Integer(3))]));
    assert_eq!(
        mirror.document(),
        &Document::Object(vec![
            member(
                "sessionInfo",
                Document::Object(vec![member("name", Document::Text("S1".to_string()))])
            ),
            member("lap", Document::Integer(3)),
        ])
    );
    mirror.merge(named("S2"));
    assert_eq!(mirror.current_session_name(), Some(&"S2".to_string()));
    mirror.merge(Document::Null);
    assert_eq!(mirror.document(), &Document::Null);
}
