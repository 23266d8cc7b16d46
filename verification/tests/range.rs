use helix_core::selection::{
    adjacent_char_positions, byte_range_at_edge, char_at_edge, Range,
};
use ropey::Rope;

#[test]
fn test_contains() {
    let range = Range::new(10, 12);

    assert!(!range.contains(9));
    assert!(range.contains(10));
    assert!(range.contains(11));
    assert!(!range.contains(12));
    assert!(!range.contains(13));

    let range = Range::new(9, 6);
    assert!(!range.contains(9));
    assert!(range.contains(7));
    assert!(range.contains(6));
}

#[test]
fn test_overlaps() {
    fn overlaps(a: (usize, usize), b: (usize, usize)) -> bool {
        Range::new(a.0, a.1).overlaps(&Range::new(b.0, b.1))
    }

    // Two non-zero-width ranges, no overlap.
    assert!(!overlaps((0, 3), (3, 6)));
    assert!(!overlaps((0, 3), (6, 3)));
    assert!(!overlaps((3, 0), (3, 6)));
    assert!(!overlaps((3, 0), (6, 3)));
    assert!(!overlaps((3, 6), (0, 3)));
    assert!(!overlaps((3, 6), (3, 0)));
    assert!(!overlaps((6, 3), (0, 3)));
    assert!(!overlaps((6, 3), (3, 0)));

    // Two non-zero-width ranges, overlap.
    assert!(overlaps((0, 4), (3, 6)));
    assert!(overlaps((0, 4), (6, 3)));
    assert!(overlaps((4, 0), (3, 6)));
    assert!(overlaps((4, 0), (6, 3)));
    assert!(overlaps((3, 6), (0, 4)));
    assert!(overlaps((3, 6), (4, 0)));
    assert!(overlaps((6, 3), (0, 4)));
    assert!(overlaps((6, 3), (4, 0)));

    // Zero-width and non-zero-width range, no overlap.
    assert!(!overlaps((0, 3), (3, 3)));
    assert!(!overlaps((3, 0), (3, 3)));
    assert!(!overlaps((3, 3), (0, 3)));
    assert!(!overlaps((3, 3), (3, 0)));

    // Zero-width and non-zero-width range, overlap.
    assert!(overlaps((1, 4), (1, 1)));
    assert!(overlaps((4, 1), (1, 1)));
    assert!(overlaps((1, 1), (1, 4)));
    assert!(overlaps((1, 1), (4, 1)));

    assert!(overlaps((1, 4), (3, 3)));
    assert!(overlaps((4, 1), (3, 3)));
    assert!(overlaps((3, 3), (1, 4)));
    assert!(overlaps((3, 3), (4, 1)));

    // Two zero-width ranges, no overlap.
    assert!(!overlaps((0, 0), (1, 1)));
    assert!(!overlaps((1, 1), (0, 0)));

    // Two zero-width ranges, overlap.
    assert!(overlaps((1, 1), (1, 1)));
}

#[test]
fn test_grapheme_aligned() {
    let r = Rope::from_str("\r\nHi\r\n");
    let s = r.slice(..);

    // Zero-width.
    assert_eq!(Range::new(0, 0).grapheme_aligned(s), Range::new(0, 0));
    assert_eq!(Range::new(1, 1).grapheme_aligned(s), Range::new(0, 0));
    assert_eq!(Range::new(2, 2).grapheme_aligned(s), Range::new(2, 2));
    assert_eq!(Range::new(3, 3).grapheme_aligned(s), Range::new(3, 3));
    assert_eq!(Range::new(4, 4).grapheme_aligned(s), Range::new(4, 4));
    assert_eq!(Range::new(5, 5).grapheme_aligned(s), Range::new(4, 4));
    assert_eq!(Range::new(6, 6).grapheme_aligned(s), Range::new(6, 6));

    // Forward.
    assert_eq!(Range::new(0, 1).grapheme_aligned(s), Range::new(0, 2));
    assert_eq!(Range::new(1, 2).grapheme_aligned(s), Range::new(0, 2));
    assert_eq!(Range::new(2, 3).grapheme_aligned(s), Range::new(2, 3));
    assert_eq!(Range::new(3, 4).grapheme_aligned(s), Range::new(3, 4));
    assert_eq!(Range::new(4, 5).grapheme_aligned(s), Range::new(4, 6));
    assert_eq!(Range::new(5, 6).grapheme_aligned(s), Range::new(4, 6));

    assert_eq!(Range::new(0, 2).grapheme_aligned(s), Range::new(0, 2));
    assert_eq!(Range::new(1, 3).grapheme_aligned(s), Range::new(0, 3));
    assert_eq!(Range::new(2, 4).grapheme_aligned(s), Range::new(2, 4));
    assert_eq!(Range::new(3, 5).grapheme_aligned(s), Range::new(3, 6));
    assert_eq!(Range::new(4, 6).grapheme_aligned(s), Range::new(4, 6));

    // Reverse.
    assert_eq!(Range::new(1, 0).grapheme_aligned(s), Range::new(2, 0));
    assert_eq!(Range::new(2, 1).grapheme_aligned(s), Range::new(2, 0));
    assert_eq!(Range::new(3, 2).grapheme_aligned(s), Range::new(3, 2));
    assert_eq!(Range::new(4, 3).grapheme_aligned(s), Range::new(4, 3));
    assert_eq!(Range::new(5, 4).grapheme_aligned(s), Range::new(6, 4));
    assert_eq!(Range::new(6, 5).grapheme_aligned(s), Range::new(6, 4));

    assert_eq!(Range::new(2, 0).grapheme_aligned(s), Range::new(2, 0));
    assert_eq!(Range::new(3, 1).grapheme_aligned(s), Range::new(3, 0));
    assert_eq!(Range::new(4, 2).grapheme_aligned(s), Range::new(4, 2));
    assert_eq!(Range::new(5, 3).grapheme_aligned(s), Range::new(6, 3));
    assert_eq!(Range::new(6, 4).grapheme_aligned(s), Range::new(6, 4));
}

#[test]
fn test_line_range() {
    let r = Rope::from_str("\r\nHi\r\nthere!");
    let s = r.slice(..);

    // Zero-width ranges.
    assert_eq!(Range::new(0, 0).line_range(s), (0, 0));
    assert_eq!(Range::new(1, 1).line_range(s), (0, 0));
    assert_eq!(Range::new(2, 2).line_range(s), (1, 1));
    assert_eq!(Range::new(3, 3).line_range(s), (1, 1));

    // Forward ranges.
    assert_eq!(Range::new(0, 1).line_range(s), (0, 0));
    assert_eq!(Range::new(0, 2).line_range(s), (0, 0));
    assert_eq!(Range::new(0, 3).line_range(s), (0, 1));
    assert_eq!(Range::new(1, 2).line_range(s), (0, 0));
    assert_eq!(Range::new(2, 3).line_range(s), (1, 1));
    assert_eq!(Range::new(3, 8).line_range(s), (1, 2));
    assert_eq!(Range::new(0, 12).line_range(s), (0, 2));

    // Reverse ranges.
    assert_eq!(Range::new(1, 0).line_range(s), (0, 0));
    assert_eq!(Range::new(2, 0).line_range(s), (0, 0));
    assert_eq!(Range::new(3, 0).line_range(s), (0, 1));
    assert_eq!(Range::new(2, 1).line_range(s), (0, 0));
    assert_eq!(Range::new(3, 2).line_range(s), (1, 1));
    assert_eq!(Range::new(8, 3).line_range(s), (1, 2));
    assert_eq!(Range::new(12, 0).line_range(s), (0, 2));
}

#[test]
fn test_cursor() {
    let r = Rope::from_str("\r\nHi\r\nthere!");
    let s = r.slice(..);

    // Zero-width ranges.
    assert_eq!(Range::new(0, 0).cursor(s), 0);
    assert_eq!(Range::new(2, 2).cursor(s), 2);
    assert_eq!(Range::new(3, 3).cursor(s), 3);

    // Forward ranges - cursor is at head.
    assert_eq!(Range::new(0, 2).cursor(s), 2);
    assert_eq!(Range::new(0, 3).cursor(s), 3);
    assert_eq!(Range::new(3, 6).cursor(s), 6);

    // Reverse ranges - cursor is at head.
    assert_eq!(Range::new(2, 0).cursor(s), 0);
    assert_eq!(Range::new(6, 2).cursor(s), 2);
    assert_eq!(Range::new(6, 3).cursor(s), 3);
}

#[test]
fn test_put_cursor() {
    let r = Rope::from_str("\r\nHi\r\nthere!");
    let s = r.slice(..);

    // Zero-width ranges - extending from anchor.
    assert_eq!(Range::new(0, 0).put_cursor(s, 0, true), Range::new(0, 0));
    assert_eq!(Range::new(0, 0).put_cursor(s, 2, true), Range::new(0, 2));
    assert_eq!(Range::new(2, 3).put_cursor(s, 4, true), Range::new(2, 4));
    assert_eq!(Range::new(2, 8).put_cursor(s, 4, true), Range::new(2, 4));
    assert_eq!(Range::new(8, 8).put_cursor(s, 4, true), Range::new(8, 4));

    // Forward ranges - anchor stays, head moves.
    assert_eq!(Range::new(3, 6).put_cursor(s, 0, true), Range::new(3, 0));
    assert_eq!(Range::new(3, 6).put_cursor(s, 2, true), Range::new(3, 2));
    assert_eq!(Range::new(3, 6).put_cursor(s, 3, true), Range::new(3, 3));
    assert_eq!(Range::new(3, 6).put_cursor(s, 4, true), Range::new(3, 4));
    assert_eq!(Range::new(3, 6).put_cursor(s, 6, true), Range::new(3, 6));
    assert_eq!(Range::new(3, 6).put_cursor(s, 8, true), Range::new(3, 8));

    // Reverse ranges - anchor stays, head moves.
    assert_eq!(Range::new(6, 3).put_cursor(s, 0, true), Range::new(6, 0));
    assert_eq!(Range::new(6, 3).put_cursor(s, 2, true), Range::new(6, 2));
    assert_eq!(Range::new(6, 3).put_cursor(s, 3, true), Range::new(6, 3));
    assert_eq!(Range::new(6, 3).put_cursor(s, 4, true), Range::new(6, 4));
    assert_eq!(Range::new(6, 3).put_cursor(s, 6, true), Range::new(6, 6));
    assert_eq!(Range::new(6, 3).put_cursor(s, 8, true), Range::new(6, 8));

    // Non-extending - creates zero-width range at new position.
    assert_eq!(Range::new(3, 6).put_cursor(s, 0, false), Range::new(0, 0));
    assert_eq!(Range::new(6, 3).put_cursor(s, 4, false), Range::new(4, 4));
}

#[test]
fn grapheme_alignment_covers_points_ranges_crlf_and_eof() {
    let text = Rope::from("a\u{301}\r\n🙂");
    let slice = text.slice(..);
    for (input, expected) in [
        (Range::point(1), Range::point(0)),
        (Range::new(1, 2), Range::new(0, 2)),
        (Range::new(2, 3), Range::new(2, 4)),
        (Range::new(3, 2), Range::new(4, 2)),
        (Range::point(5), Range::point(5)),
    ] {
        assert_eq!(input.grapheme_aligned(slice), expected);
    }
}

#[test]
fn affinity_helpers_are_total_and_right_first() {
    let text = Rope::from("a🦀");
    assert_eq!(char_at_edge(text.slice(..), 0), Ok(Some('a')));
    assert_eq!(char_at_edge(text.slice(..), 2), Ok(None));
    assert!(char_at_edge(text.slice(..), 3).is_err());
    assert_eq!(byte_range_at_edge(text.slice(..), 0), Ok(0..1));
    assert_eq!(byte_range_at_edge(text.slice(..), 1), Ok(1..5));
    assert_eq!(byte_range_at_edge(text.slice(..), 2), Ok(5..5));
    assert_eq!(adjacent_char_positions(text.slice(..), 1).unwrap(), vec![1, 0]);
    assert_eq!(adjacent_char_positions(text.slice(..), 2).unwrap(), vec![1]);
}
