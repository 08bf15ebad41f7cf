use live::origins::{parse_origins, split_origins, OriginError};

fn strings(items: &[&str]) -> Vec<String> {
    items.iter().map(|item| item.to_string()).collect()
}

#[test]
fn list_is_split_at_commas_and_trimmed() {
    assert_eq!(
        split_origins("https://a.example , http://b.example:3000,\thttps://c.example\n"),
        strings(&["https://a.example", "http://b.example:3000", "https://c.example"])
    );
}

#[test]
fn single_origin() {
    assert_eq!(split_origins("http://localhost:3000"), strings(&["http://localhost:3000"]));
    assert_eq!(parse_origins("http://localhost:3000"), Ok(strings(&["http://localhost:3000"])));
}

#[test]
fn empty_pieces_stay() {
    assert_eq!(split_origins(""), strings(&[""]));
    assert_eq!(split_origins(","), strings(&["", ""]));
    assert_eq!(split_origins(" a ,, b ,"), strings(&["a", "", "b", ""]));
    assert_eq!(split_origins("   "), strings(&[""]));
}

#[test]
fn inner_white_space_stays() {
    assert_eq!(split_origins("  a b  ,\u{3000}c\u{a0}"), strings(&["a b", "c"]));
}

#[test]
fn control_character_is_refused() {
    assert_eq!(parse_origins("http://a,http://b\u{7f}c,d"), Err(OriginError::Invalid { position: 1 }));
    assert_eq!(parse_origins("a\u{1}b"), Err(OriginError::Invalid { position: 0 }));
    assert_eq!(parse_origins("ok, x\ny ,z"), Err(OriginError::Invalid { position: 1 }));
}

#[test]
fn tab_and_non_ascii_are_accepted() {
    assert_eq!(parse_origins("a\tb,h\u{e9}"), Ok(strings(&["a\tb", "h\u{e9}"])));
}
