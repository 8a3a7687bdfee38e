//! Tests for Unicode corner cases.

use strcursor::StrCursor;

const GR_TEST_STR: &'static str = "a\
    b\u{302}c\u{307}\u{332}\
    \u{304b}\u{304b}\u{302}\u{304b}\u{307}\u{332}\
    \u{10330}\u{10331}\u{302}\u{10332}\u{307}\u{332}\
    \u{1d15d}\u{1d15d}\u{1d16e}\u{1d15f}\u{1d16f}\u{1d180}\
    \u{1f468}\u{1f468}\u{200d}\u{1f469}\u{1f468}\u{200d}\u{1f469}\u{200d}\u{1f467}";

/// Are the grapheme cluster breaks where we expect them to be?
#[test]
fn test_gr_seg() {
    let cur = StrCursor::new_at_start(GR_TEST_STR);
    let mut it = cur.iter_after().with_cursor();
    let mut r: Vec<(&str, usize)> = vec![];
    while let Some((gc, cur)) = it.next() {
        r.push((gc.as_str(), cur.byte_pos()));
    }
    assert_eq!(
        &*r,
        &[
            ("a", 1),
            ("b\u{302}", 4),
            ("c\u{307}\u{332}", 9),
            ("\u{304b}", 12),
            ("\u{304b}\u{302}", 17),
            ("\u{304b}\u{307}\u{332}", 24),
            ("\u{10330}", 28),
            ("\u{10331}\u{302}", 34),
            ("\u{10332}\u{307}\u{332}", 42),
            ("\u{1d15d}", 46),
            ("\u{1d15d}\u{1d16e}", 54),
            ("\u{1d15f}\u{1d16f}\u{1d180}", 66),
            ("\u{1f468}", 70),
            ("\u{1f468}\u{200d}\u{1f469}", 81),
            ("\u{1f468}\u{200d}\u{1f469}\u{200d}\u{1f467}", 99),
        ]
    );
}
