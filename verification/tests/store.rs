use opusmeta::Tag;

#[test]
fn new_groups_repeated_keys() {
    let tag = Tag::new(
        "vendor".to_string(),
        vec![
            ("Artist".to_string(), "A".to_string()),
            ("ARTIST".to_string(), "B".to_string()),
            ("title".to_string(), "T".to_string()),
        ],
    );
    let artists = tag.get("artist".to_string()).unwrap();
    assert_eq!(artists, &vec!["A".to_string(), "B".to_string()]);
    let titles = tag.get("TITLE".to_string()).unwrap();
    assert_eq!(titles, &vec!["T".to_string()]);
}

#[test]
fn add_one_case_insensitive() {
    let mut tag = Tag::default();
    tag.add_one("Artist".to_string(), "X".to_string());
    let lower = tag.get("artist".to_string()).unwrap();
    assert!(lower.contains(&"X".to_string()));
    let upper = tag.get("ARTIST".to_string()).unwrap();
    assert!(upper.contains(&"X".to_string()));
}

#[test]
fn add_one_appends_in_order() {
    let mut tag = Tag::default();
    tag.add_one("k".to_string(), "1".to_string());
    tag.add_one("K".to_string(), "2".to_string());
    assert_eq!(
        tag.get("k".to_string()).unwrap(),
        &vec!["1".to_string(), "2".to_string()]
    );
}

#[test]
fn add_many_appends_to_existing() {
    let mut tag = Tag::default();
    tag.add_one("genre".to_string(), "a".to_string());
    tag.add_many(
        "GENRE".to_string(),
        vec!["b".to_string(), "c".to_string()],
    );
    assert_eq!(
        tag.get("genre".to_string()).unwrap(),
        &vec!["a".to_string(), "b".to_string(), "c".to_string()]
    );
}

#[test]
fn add_many_empty_adds_no_key() {
    let mut tag = Tag::default();
    tag.add_many("genre".to_string(), vec![]);
    assert!(tag.get("genre".to_string()).is_none());
}

#[test]
fn remove_entries_removes_whole_key() {
    let mut tag = Tag::default();
    tag.add_one("a".to_string(), "1".to_string());
    tag.add_one("A".to_string(), "2".to_string());
    let removed = tag.remove_entries("a".to_string());
    assert_eq!(removed, Some(vec!["1".to_string(), "2".to_string()]));
    assert!(tag.get("a".to_string()).is_none());
    assert!(tag.remove_entries("a".to_string()).is_none());
}

#[test]
fn vendor_get_and_set() {
    let mut tag = Tag::new("first".to_string(), vec![]);
    assert_eq!(tag.get_vendor(), "first");
    tag.set_vendor("second".to_string());
    assert_eq!(tag.get_vendor(), "second");
}

#[test]
fn get_absent_key_is_none() {
    let tag = Tag::default();
    assert!(tag.get("anything".to_string()).is_none());
}
