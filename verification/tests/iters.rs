use strcursor::StrCursor;

#[test]
fn test_iter_before() {
    let s = "a黒cafe\u{301}🍵!";
    let cur = StrCursor::new_at_end(s);
    let mut it = cur.iter_before();
    let mut r: Vec<&str> = vec![];
    while let Some(gc) = it.next() {
        r.push(gc.as_str());
    }
    assert_eq!(&*r, &["!", "🍵", "e\u{301}", "f", "a", "c", "黒", "a",]);
}

#[test]
fn test_iter_before_cur() {
    let s = "a黒cafe\u{301}🍵!";
    let cur = StrCursor::new_at_end(s);
    let mut it = cur.iter_before().with_cursor();
    let mut r: Vec<(&str, usize)> = vec![];
    while let Some((gc, cur)) = it.next() {
        r.push((gc.as_str(), cur.byte_pos()));
    }
    assert_eq!(
        &*r,
        &[
            ("!", 14),
            ("🍵", 10),
            ("e\u{301}", 7),
            ("f", 6),
            ("a", 5),
            ("c", 4),
            ("黒", 1),
            ("a", 0),
        ]
    );
}

#[test]
fn test_iter_after() {
    let s = "a黒cafe\u{301}🍵!";
    let cur = StrCursor::new_at_start(s);
    let mut it = cur.iter_after();
    let mut r: Vec<&str> = vec![];
    while let Some(gc) = it.next() {
        r.push(gc.as_str());
    }
    assert_eq!(&*r, &["a", "黒", "c", "a", "f", "e\u{301}", "🍵", "!",]);
}

#[test]
fn test_iter_after_cur() {
    let s = "a黒cafe\u{301}🍵!";
    let cur = StrCursor::new_at_start(s);
    let mut it = cur.iter_after().with_cursor();
    let mut r: Vec<(&str, usize)> = vec![];
    while let Some((gc, cur)) = it.next() {
        r.push((gc.as_str(), cur.byte_pos()));
    }
    assert_eq!(
        &*r,
        &[
            ("a", 1),
            ("黒", 4),
            ("c", 5),
            ("a", 6),
            ("f", 7),
            ("e\u{301}", 10),
            ("🍵", 14),
            ("!", 15),
        ]
    );
}

#[test]
fn test_iter_cp_before() {
    let s = "a黒cafe\u{301}🍵!";
    let cur = StrCursor::new_at_end(s);
    let mut it = cur.iter_cp_before();
    let mut r: Vec<char> = vec![];
    while let Some(cp) = it.next() {
        r.push(cp);
    }
    assert_eq!(&*r, &['!', '🍵', '\u{301}', 'e', 'f', 'a', 'c', '黒', 'a',]);
}

#[test]
fn test_iter_cp_before_cur() {
    let s = "a黒cafe\u{301}🍵!";
    let cur = StrCursor::new_at_end(s);
    let mut it = cur.iter_cp_before().with_cursor();
    let mut r: Vec<(char, usize)> = vec![];
    while let Some((cp, cur)) = it.next() {
        r.push((cp, cur.byte_pos()));
    }
    assert_eq!(
        &*r,
        &[
            ('!', 14),
            ('🍵', 10),
            ('\u{301}', 8),
            ('e', 7),
            ('f', 6),
            ('a', 5),
            ('c', 4),
            ('黒', 1),
            ('a', 0),
        ]
    );
}

#[test]
fn test_iter_cp_after() {
    let s = "a黒cafe\u{301}🍵!";
    let cur = StrCursor::new_at_start(s);
    let mut it = cur.iter_cp_after();
    let mut r: Vec<char> = vec![];
    while let Some(cp) = it.next() {
        r.push(cp);
    }
    assert_eq!(&*r, &['a', '黒', 'c', 'a', 'f', 'e', '\u{301}', '🍵', '!',]);
}

#[test]
fn test_iter_cp_after_cur() {
    let s = "a黒cafe\u{301}🍵!";
    let cur = StrCursor::new_at_start(s);
    let mut it = cur.iter_cp_after().with_cursor();
    let mut r: Vec<(char, usize)> = vec![];
    while let Some((cp, cur)) = it.next() {
        r.push((cp, cur.byte_pos()));
    }
    assert_eq!(
        &*r,
        &[
            ('a', 1),
            ('黒', 4),
            ('c', 5),
            ('a', 6),
            ('f', 7),
            ('e', 8),
            ('\u{301}', 10),
            ('🍵', 14),
            ('!', 15),
        ]
    );
}
