use strcursor::Gc;

fn gc(s: &str) -> Gc<'_> {
    Gc::from_str(s).unwrap()
}

#[test]
fn test_from_str() {
    assert_eq!(Gc::from_str("a").map(|g| g.as_str()), Some("a"));
    assert_eq!(Gc::from_str("á").map(|g| g.as_str()), Some("á"));
    assert_eq!(Gc::from_str("a\u{0308}").map(|g| g.as_str()), Some("a\u{0308}"));
    // NB: there is a single combining diaeresis in the string.
    assert_eq!(Gc::from_str("\u{0308}").map(|g| g.as_str()), Some("\u{0308}"));
    assert_eq!(Gc::from_str("字").map(|g| g.as_str()), Some("字"));
    assert_eq!(Gc::from_str("").map(|g| g.as_str()), None);
    assert_eq!(Gc::from_str("ab").map(|g| g.as_str()), None);
}

fn split_map(s: &str) -> Option<(&str, &str)> {
    Gc::split_from(s).map(|(gr, rest)| (gr.as_str(), rest))
}

#[test]
fn test_split_from() {
    assert_eq!(split_map("a"), Some(("a", "")));
    assert_eq!(split_map("á"), Some(("á", "")));
    assert_eq!(split_map("a\u{0308}"), Some(("a\u{0308}", "")));
    // NB: there is a single combining diaeresis in the string.
    assert_eq!(split_map("\u{0308}"), Some(("\u{0308}", "")));
    assert_eq!(split_map("字"), Some(("字", "")));
    assert_eq!(split_map(""), None);
    assert_eq!(split_map("ab"), Some(("a", "b")));
}

#[test]
fn test_has_marks() {
    assert!(!gc("a").has_marks());
    assert!(!gc("á").has_marks());
    assert!(gc("a\u{0308}").has_marks());
    assert!(!gc("\u{0308}").has_marks());
    assert!(!gc("字").has_marks());
}

#[test]
fn test_base_char() {
    assert_eq!(gc("a").base_char(), 'a');
    assert_eq!(gc("á").base_char(), 'á');
    assert_eq!(gc("a\u{0308}").base_char(), 'a');
    assert_eq!(gc("\u{0308}").base_char(), '\u{0308}');
    assert_eq!(gc("字").base_char(), '字');
}

#[test]
fn test_mark_str() {
    assert_eq!(gc("a").mark_str(), "");
    assert_eq!(gc("á").mark_str(), "");
    assert_eq!(gc("a\u{0308}").mark_str(), "\u{0308}");
    assert_eq!(gc("\u{0308}").mark_str(), "");
    assert_eq!(gc("字").mark_str(), "");
}
