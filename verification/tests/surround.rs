use helix_core::selection::{Range, Selection};
use helix_core::surround::{
    find_nth_close_pair, find_nth_closest_pairs_pos, find_nth_open_pair, find_nth_pairs_pos,
    get_pair, get_surround_pos, identical_delimiter_at, identical_pair_encloses, matching_identical_delimiter_plaintext,
    Error,
};
use ropey::Rope;

/// The bracket kinds these tests use.
const BRACKETS: &[(char, char)] = &[
    ('(', ')'),
    ('{', '}'),
    ('[', ']'),
    ('<', '>'),
    ('‘', '’'),
    ('“', '”'),
    ('«', '»'),
    ('「', '」'),
    ('（', '）'),
];

// Create a Rope and a matching Selection using a specification language.
// ^ is a single-point selection.
// _ is an expected index. These are returned as a Vec<usize> for use in assertions.
fn rope_with_selections_and_expectations(text: &str, spec: &str) -> (Rope, Selection, Vec<usize>) {
    if text.len() != spec.len() {
        panic!("specification must match text length -- are newlines aligned?");
    }

    let rope = Rope::from(text);

    let selections: Vec<Range> = spec
        .match_indices('^')
        .map(|(i, _)| Range::point(i))
        .collect();

    let expectations: Vec<usize> = spec.match_indices('_').map(|(i, _)| i).collect();

    (rope, Selection::new(selections, 0), expectations)
}

#[test]
fn test_find_nth_closest_pairs_pos_index_range_panic() {
    let (doc, selection, _) = rope_with_selections_and_expectations("(a)c)", "^^^^^");

    assert_eq!(
        find_nth_closest_pairs_pos(doc.slice(..), selection.primary(), 1, BRACKETS),
        Ok((0, 2))
    )
}

#[test]
fn closest_plain_surround_stops_at_nearby_pair_and_counts_only_parents() {
    let mut source = String::from("(a)");
    source.extend(std::iter::repeat_n("}{", 50_000));
    let doc = Rope::from(source);
    assert_eq!(
        find_nth_closest_pairs_pos(doc.slice(..), Range::point(1), 1, BRACKETS),
        Ok((0, 2))
    );
    assert_eq!(
        find_nth_closest_pairs_pos(doc.slice(..), Range::point(1), 0, BRACKETS),
        Err(Error::PairNotFound)
    );

    let siblings = Rope::from("(a)(b)");
    assert_eq!(
        find_nth_closest_pairs_pos(siblings.slice(..), Range::point(3), 1, BRACKETS),
        Ok((3, 5))
    );
    assert_eq!(
        find_nth_closest_pairs_pos(siblings.slice(..), Range::point(3), 2, BRACKETS),
        Err(Error::PairNotFound)
    );

    let competing = Rope::from("(xxxxxxxx[])");
    assert_eq!(
        find_nth_closest_pairs_pos(competing.slice(..), Range::point(11), 1, BRACKETS),
        Ok((0, 11))
    );

    let depth = 20_000;
    let source = format!("{}x{}", "(".repeat(depth), ")".repeat(depth));
    let nested = Rope::from(source);
    assert_eq!(
        find_nth_closest_pairs_pos(nested.slice(..), Range::point(depth), depth, BRACKETS),
        Ok((0, 2 * depth))
    );

    let malformed = Rope::from("({x)}");
    assert_eq!(
        find_nth_closest_pairs_pos(malformed.slice(..), Range::point(2), 2, BRACKETS),
        Err(Error::PairNotFound)
    );
}

#[test]
fn closest_pair_follows_the_direction_of_the_range() {
    let doc = Rope::from("f(ab)");
    assert_eq!(
        find_nth_closest_pairs_pos(doc.slice(..), Range::new(2, 4), 1, BRACKETS),
        Ok((1, 4))
    );
    assert_eq!(
        find_nth_closest_pairs_pos(doc.slice(..), Range::new(4, 2), 1, BRACKETS),
        Ok((4, 1))
    );
    // The closing bracket itself may be selected.
    assert_eq!(
        find_nth_closest_pairs_pos(doc.slice(..), Range::new(2, 5), 1, BRACKETS),
        Ok((1, 4))
    );
    // No pair encloses a range that starts before the opening bracket.
    assert_eq!(
        find_nth_closest_pairs_pos(doc.slice(..), Range::new(0, 3), 1, BRACKETS),
        Err(Error::PairNotFound)
    );
}

#[test]
fn nth_open_and_close_pairs_step_over_nested_pairs() {
    let doc = Rope::from("(a (b) c)");
    let text = doc.slice(..);
    // From inside `c`, the enclosing pair is the outer one.
    assert_eq!(find_nth_open_pair(text, '(', ')', 7, 1), Some(0));
    assert_eq!(find_nth_close_pair(text, '(', ')', 7, 1), Some(8));
    // From inside `b`, the first pair is the inner one and the second the outer one.
    assert_eq!(find_nth_open_pair(text, '(', ')', 4, 1), Some(3));
    assert_eq!(find_nth_close_pair(text, '(', ')', 4, 1), Some(5));
    assert_eq!(find_nth_open_pair(text, '(', ')', 4, 2), Some(0));
    assert_eq!(find_nth_close_pair(text, '(', ')', 4, 2), Some(8));
    assert_eq!(find_nth_open_pair(text, '(', ')', 4, 3), None);
    assert_eq!(find_nth_close_pair(text, '(', ')', 4, 3), None);
    // A cursor on a bracket belongs to that bracket's pair.
    assert_eq!(find_nth_open_pair(text, '(', ')', 3, 1), Some(3));
    assert_eq!(find_nth_close_pair(text, '(', ')', 5, 1), Some(5));
    // At EOF right after a closing bracket, that bracket is the cursor's.
    assert_eq!(find_nth_close_pair(text, '(', ')', 9, 1), Some(8));
    assert_eq!(find_nth_open_pair(text, '(', ')', 9, 1), Some(0));
    // Past EOF there is nothing to find.
    assert_eq!(find_nth_open_pair(text, '(', ')', 10, 1), None);
    assert_eq!(find_nth_close_pair(text, '(', ')', 10, 1), None);
}

#[test]
fn identical_delimiters_pair_by_enclosure() {
    let doc = Rope::from("it's 'path'");
    let text = doc.slice(..);
    // The quote at 5 pairs with the one after it, which encloses the cursor.
    assert_eq!(
        matching_identical_delimiter_plaintext(text, 5, '\'', Range::point(5)),
        Some(10)
    );
    // The quote at 10 pairs back with the quote at 5.
    assert_eq!(
        matching_identical_delimiter_plaintext(text, 10, '\'', Range::point(10)),
        Some(5)
    );
    assert!(identical_pair_encloses(text, 10, 5, Range::new(6, 10)));
    assert!(identical_pair_encloses(text, 5, 10, Range::new(5, 11)));
    assert!(!identical_pair_encloses(text, 5, 10, Range::new(4, 6)));
    // No other quote encloses a range starting before the first one.
    assert_eq!(
        matching_identical_delimiter_plaintext(text, 2, '\'', Range::new(0, 3)),
        None
    );
}

#[test]
fn error_messages() {
    assert_eq!(
        Error::PairNotFound.message(),
        "Surround pair not found around all cursors"
    );
    assert_eq!(
        Error::CursorOverlap.message(),
        "Cursors overlap for a single surround pair range"
    );
    assert_eq!(Error::RangeExceedsText.message(), "Cursor range exceeds text length");
    assert_eq!(
        Error::CursorOnAmbiguousPair.message(),
        "Cursor on ambiguous surround pair"
    );
}

#[test]
fn test_get_surround_pos() {
    let (doc, selection, expectations) =
        rope_with_selections_and_expectations(
            "(some) (chars)\n(newline)",
            "_ ^  _ _ ^   _\n_    ^  _"
        );

    assert_eq!(
        get_surround_pos(doc.slice(..), &selection, Some('('), 1, BRACKETS).unwrap(),
        expectations
    );
}

#[test]
fn test_get_surround_pos_bail_different_surround_chars() {
    let (doc, selection, _) =
        rope_with_selections_and_expectations(
            "[some]\n(chars)xx\n(newline)",
            "  ^   \n  ^      \n         "
        );

    assert_eq!(
        get_surround_pos(doc.slice(..), &selection, Some('('), 1, BRACKETS),
        Err(Error::PairNotFound)
    );
}

#[test]
fn test_get_surround_pos_bail_overlapping_surround_chars() {
    let (doc, selection, _) =
        rope_with_selections_and_expectations(
            "[some]\n(chars)xx\n(newline)",
            "      \n       ^ \n      ^  "
        );

    assert_eq!(
        get_surround_pos(doc.slice(..), &selection, Some('('), 1, BRACKETS),
        Err(Error::PairNotFound) // overlapping surround chars
    );
}

#[test]
fn test_get_surround_pos_bail_cursor_overlap() {
    let (doc, selection, _) =
        rope_with_selections_and_expectations(
            "[some]\n(chars)xx\n(newline)",
            "  ^^  \n         \n         "
        );

    assert_eq!(
        get_surround_pos(doc.slice(..), &selection, Some('['), 1, BRACKETS),
        Err(Error::CursorOverlap)
    );
}

#[test]
fn test_find_nth_pairs_pos_quote_success() {
    let (doc, selection, expectations) =
        rope_with_selections_and_expectations(
            "some 'quoted text' on this 'line'\n'and this one'",
            "     _        ^  _               \n              "
        );

    assert_eq!(2, expectations.len());
    assert_eq!(
        find_nth_pairs_pos(doc.slice(..), '\'', selection.primary(), 1, BRACKETS, None)
            .expect("find should succeed"),
        (expectations[0], expectations[1])
    )
}

#[test]
fn test_find_nth_pairs_pos_nested_quote_success() {
    let (doc, selection, expectations) =
        rope_with_selections_and_expectations(
            "some 'nested 'quoted' text' on this 'line'\n'and this one'",
            "     _           ^        _               \n              "
        );

    assert_eq!(2, expectations.len());
    assert_eq!(
        find_nth_pairs_pos(doc.slice(..), '\'', selection.primary(), 2, BRACKETS, None)
            .expect("find should succeed"),
        (expectations[0], expectations[1])
    )
}

#[test]
fn test_find_nth_pairs_pos_on_quote_uses_plaintext_parity() {
    let (doc, selection, _) =
        rope_with_selections_and_expectations(
            "some 'nested 'quoted' text' on this 'line'\n'and this one'",
            "                    ^                     \n              "
        );

    assert_eq!(
        find_nth_pairs_pos(doc.slice(..), '\'', selection.primary(), 1, BRACKETS, None),
        Ok((20, 26))
    );
}

#[test]
fn surround_discovery_uses_right_then_left_adjacency_at_eof() {
    let doc = Rope::from("(a)");
    assert_eq!(
        find_nth_pairs_pos(doc.slice(..), ')', Range::point(3), 1, BRACKETS, None),
        Ok((0, 2))
    );
    assert_eq!(
        find_nth_closest_pairs_pos(doc.slice(..), Range::point(3), 1, BRACKETS),
        Ok((0, 2))
    );

    let doc = Rope::from("「é」");
    assert_eq!(
        find_nth_pairs_pos(doc.slice(..), '」', Range::point(3), 1, BRACKETS, None),
        Ok((0, 2))
    );
}

#[test]
fn identical_delimiter_adjacency_uses_plaintext_parity() {
    let doc = Rope::from("'é'");
    assert_eq!(
        find_nth_pairs_pos(doc.slice(..), '\'', Range::point(0), 1, BRACKETS, None),
        Ok((0, 2))
    );
    assert_eq!(
        find_nth_pairs_pos(doc.slice(..), '\'', Range::point(3), 1, BRACKETS, None),
        Ok((0, 2))
    );

    let apostrophe = Rope::from("it's 'path'");
    assert_eq!(
        find_nth_pairs_pos(apostrophe.slice(..), '\'', Range::point(5), 1, BRACKETS, None),
        Ok((5, 10))
    );
}

#[test]
fn pairs_pos_refuses_short_texts_and_ranges_past_the_end() {
    let one = Rope::from("(");
    assert_eq!(
        find_nth_pairs_pos(one.slice(..), '(', Range::point(0), 1, BRACKETS, None),
        Err(Error::PairNotFound)
    );
    let doc = Rope::from("(a)");
    assert_eq!(
        find_nth_pairs_pos(doc.slice(..), '(', Range::new(1, 5), 1, BRACKETS, None),
        Err(Error::RangeExceedsText)
    );
}

#[test]
fn pairs_pos_on_a_lone_quote_is_ambiguous() {
    let doc = Rope::from("'ab");
    assert_eq!(
        find_nth_pairs_pos(doc.slice(..), '\'', Range::point(0), 1, BRACKETS, None),
        Err(Error::CursorOnAmbiguousPair)
    );
}

#[test]
fn pairs_pos_takes_the_syntax_match_when_it_encloses_the_range() {
    let doc = Rope::from("'a'b'");
    assert_eq!(
        find_nth_pairs_pos(doc.slice(..), '\'', Range::point(2), 1, BRACKETS, Some(0)),
        Ok((0, 2))
    );
    assert_eq!(
        find_nth_pairs_pos(doc.slice(..), '\'', Range::point(2), 1, BRACKETS, None),
        Ok((2, 4))
    );
    // A syntax match that does not enclose the range gives way to plain text.
    assert_eq!(
        find_nth_pairs_pos(doc.slice(..), '\'', Range::new(1, 3), 1, BRACKETS, Some(4)),
        Ok((0, 2))
    );
}

#[test]
fn pairs_pos_keeps_the_direction_and_counts_outward() {
    let doc = Rope::from("((a))");
    assert_eq!(
        find_nth_pairs_pos(doc.slice(..), ')', Range::new(3, 2), 1, BRACKETS, None),
        Ok((3, 1))
    );
    assert_eq!(
        find_nth_pairs_pos(doc.slice(..), '(', Range::point(2), 2, BRACKETS, None),
        Ok((0, 4))
    );
    assert_eq!(
        find_nth_pairs_pos(doc.slice(..), '(', Range::point(2), 3, BRACKETS, None),
        Err(Error::PairNotFound)
    );
    // A char that no pair holds is its own closing char.
    let stars = Rope::from("*a*");
    assert_eq!(
        find_nth_pairs_pos(stars.slice(..), '*', Range::point(1), 1, BRACKETS, None),
        Ok((0, 2))
    );
}

#[test]
fn surround_pairs_come_from_the_table() {
    assert_eq!(get_pair(BRACKETS, ')'), ('(', ')'));
    assert_eq!(get_pair(BRACKETS, '「'), ('「', '」'));
    assert_eq!(get_pair(BRACKETS, '*'), ('*', '*'));
}

#[test]
fn surround_positions_without_a_char_take_the_closest_pair() {
    let doc = Rope::from("(a) [b]");
    let selection = Selection::new(vec![Range::point(1), Range::point(5)], 0);
    assert_eq!(
        get_surround_pos(doc.slice(..), &selection, None, 1, BRACKETS),
        Ok(vec![0, 2, 4, 6])
    );
    assert_eq!(
        get_surround_pos(doc.slice(..), &selection, None, 0, BRACKETS),
        Err(Error::PairNotFound)
    );
}

#[test]
fn identical_delimiter_right_of_the_cursor_comes_first() {
    let doc = Rope::from("'a''b'");
    // Quotes on both sides of the cursor: the one after it is the cursor's.
    assert_eq!(
        find_nth_pairs_pos(doc.slice(..), '\'', Range::point(3), 1, BRACKETS, None),
        Ok((3, 5))
    );
    // Only a quote before the cursor: that one.
    assert_eq!(
        find_nth_pairs_pos(doc.slice(..), '\'', Range::point(1), 1, BRACKETS, None),
        Ok((0, 2))
    );
}

#[test]
fn the_delimiter_under_the_cursor_is_the_one_a_syntax_tree_is_asked_about() {
    let doc = Rope::from("'a''b'");
    let text = doc.slice(..);
    assert_eq!(identical_delimiter_at(text, '\'', Range::point(3), BRACKETS), Some(3));
    assert_eq!(identical_delimiter_at(text, '\'', Range::point(1), BRACKETS), Some(0));
    assert_eq!(identical_delimiter_at(text, 'a', Range::point(1), BRACKETS), Some(1));
    // Pairs of distinct chars, ranges past the end and short texts have none.
    assert_eq!(identical_delimiter_at(text, '(', Range::point(1), BRACKETS), None);
    assert_eq!(identical_delimiter_at(text, '\'', Range::point(9), BRACKETS), None);
    let one = Rope::from("'");
    assert_eq!(identical_delimiter_at(one.slice(..), '\'', Range::point(0), BRACKETS), None);
}
