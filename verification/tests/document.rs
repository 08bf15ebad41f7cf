use live::document::{find, merge, Document, Member};

fn member(key: &str, value: Document) -> Member {
    Member { key: key.to_string(), value }
}

fn number(value: i64) -> Document {
    Document::Integer(value)
}

#[test]
fn objects_merge_member_by_member() {
    let base = Document::Object(vec![
        member("a", number(1)),
        member("nested", Document::Object(vec![member("x", number(1)), member("y", number(2))])),
    ]);
    let patch = Document::Object(vec![
        member("nested", Document::Object(vec![member("y", number(20)), member("z", number(30))])),
        member("b", number(2)),
    ]);
    let expected = Document::Object(vec![
        member("a", number(1)),
        member(
            "nested",
            Document::Object(vec![
                member("x", number(1)),
                member("y", number(20)),
                member("z", number(30)),
            ]),
        ),
        member("b", number(2)),
    ]);
    assert_eq!(merge(base, patch), expected);
}

#[test]
fn new_members_keep_the_order_of_the_patch() {
    let base = Document::Object(Vec::new());
    let patch = Document::Object(vec![
        member("one", number(1)),
        member("two", number(2)),
        member("three", number(3)),
    ]);
    assert_eq!(merge(base, patch.clone()), patch);
}

#[test]
fn scalars_and_lists_overwrite() {
    let list = Document::List(vec![number(1), number(2)]);
    let object = Document::Object(vec![member("a", number(1))]);
    assert_eq!(merge(object.clone(), number(3)), number(3));
    assert_eq!(merge(object.clone(), list.clone()), list);
    assert_eq!(merge(list.clone(), Document::List(vec![number(9)])), Document::List(vec![number(9)]));
    assert_eq!(merge(number(3), object.clone()), object);
    assert_eq!(merge(Document::Text("t".to_string()), Document::Bool(true)), Document::Bool(true));
    assert_eq!(
        merge(Document::Decimal("1.5".to_string()), Document::Decimal("2.5".to_string())),
        Document::Decimal("2.5".to_string())
    );
}

#[test]
fn null_overwrites_like_any_scalar() {
    let base = Document::Object(vec![member("a", number(1)), member("b", number(2))]);
    let patch = Document::Object(vec![member("a", Document::Null)]);
    assert_eq!(
        merge(base, patch),
        Document::Object(vec![member("a", Document::Null), member("b", number(2))])
    );
}

#[test]
fn object_replaces_a_scalar_member() {
    let base = Document::Object(vec![member("a", number(1))]);
    let patch = Document::Object(vec![member("a", Document::Object(vec![member("x", number(1))]))]);
    assert_eq!(merge(base, patch.clone()), patch);
}

#[test]
fn lookup_finds_members_of_objects_only() {
    let object = Document::Object(vec![member("a", number(1)), member("b", number(2))]);
    assert_eq!(object.get(&"b".to_string()), Some(&number(2)));
    assert_eq!(object.get(&"c".to_string()), None);
    assert_eq!(number(1).get(&"a".to_string()), None);
    assert_eq!(Document::List(vec![number(1)]).get(&"0".to_string()), None);
}

#[test]
fn find_gives_the_position() {
    let members = vec![member("a", number(1)), member("b", number(2))];
    assert_eq!(find(&members, &"a".to_string()), Some(0));
    assert_eq!(find(&members, &"b".to_string()), Some(1));
    assert_eq!(find(&members, &"".to_string()), None);
}

#[test]
fn repeated_names_are_not_well_formed() {
    let twice = Document::Object(vec![member("a", number(1)), member("a", number(2))]);
    assert!(!twice.is_well_formed());
    let deep = Document::List(vec![Document::Object(vec![member("k", twice.clone())])]);
    assert!(!deep.is_well_formed());
    let fine = Document::Object(vec![
        member("a", number(1)),
        member("b", Document::List(vec![Document::Object(vec![member("a", number(1))])])),
    ]);
    assert!(fine.is_well_formed());
    assert!(Document::Null.is_well_formed());
}

#[test]
fn builder_sets_and_replaces_members() {
    let built = Document::object()
        .with("a".to_string(), number(1))
        .with("b".to_string(), number(2))
        .with("a".to_string(), number(3));
    assert_eq!(built, Document::Object(vec![member("a", number(3)), member("b", number(2))]));
    assert!(built.is_well_formed());
    assert_eq!(Document::object(), Document::Object(Vec::new()));
    assert_eq!(
        number(1).with("k".to_string(), Document::Null),
        Document::Object(vec![member("k", Document::Null)])
    );
}

#[test]
fn clone_copies_the_whole_tree() {
    let tree = Document::Object(vec![
        member("list", Document::List(vec![number(1), Document::Text("t".to_string())])),
        member("inner", Document::Object(vec![member("d", Document::Decimal("0.5".to_string()))])),
        member("flag", Document::Bool(false)),
    ]);
    assert_eq!(tree.clone(), tree);
    let one = member("m", Document::Null);
    assert_eq!(one.clone(), one);
}

#[test]
fn merging_a_document_into_itself_changes_nothing() {
    let tree = Document::Object(vec![
        member("a", number(1)),
        member("inner", Document::Object(vec![member("x", Document::List(vec![number(1)]))])),
    ]);
    assert_eq!(merge(tree.clone(), tree.clone()), tree);
}
