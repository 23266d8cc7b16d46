use helix_core::movement::{
    move_horizontally, move_next_long_word_end, move_next_long_word_start, move_next_paragraph,
    move_next_sub_word_end, move_next_sub_word_start, move_next_word_end, move_next_word_start,
    move_prev_long_word_end, move_prev_long_word_start, move_prev_paragraph,
    move_prev_sub_word_end, move_prev_sub_word_start, move_prev_word_end, move_prev_word_start,
    parent_node_end_range, pick_object_span, treesitter_object_range_is_valid,
    treesitter_object_step, goto_treesitter_object, CharHelpers, CharsAt, DestinationMotion, Direction, WordMotionTarget,
    Extension, Movement, TargetSelection,
};
use helix_core::selection::{Range, Selection};
use ropey::Rope;

/// Reads a text with selection markers: `#[` .. `]#` is the primary range,
/// `#(` .. `)#` a secondary one, and `|` inside a marker is the head.
fn print(s: &str) -> (String, Selection) {
    let chars: Vec<char> = s.chars().collect();
    let mut text = String::new();
    let mut ranges: Vec<Range> = Vec::new();
    let mut primary = 0;
    let mut pos = 0usize;
    let mut open: Option<(usize, bool, Option<usize>)> = None;
    let mut i = 0;
    while i < chars.len() {
        let c = chars[i];
        let next = chars.get(i + 1).copied();
        match open {
            None if c == '#' && (next == Some('[') || next == Some('(')) => {
                open = Some((pos, next == Some('['), None));
                i += 2;
                continue;
            }
            Some((start, is_primary, None)) if c == '|' => {
                open = Some((start, is_primary, Some(pos)));
                i += 1;
                continue;
            }
            Some((start, is_primary, head))
                if (c == ']' || c == ')') && next == Some('#') =>
            {
                let head = head.expect("a range marker needs a head");
                let anchor = if head == start { pos } else { start };
                if is_primary {
                    primary = ranges.len();
                }
                ranges.push(Range::new(anchor, head));
                open = None;
                i += 2;
                continue;
            }
            _ => {}
        }
        text.push(c);
        pos += 1;
        i += 1;
    }
    (text, Selection::new(ranges, primary))
}

/// Writes `s` with the markers of `selection` (the inverse of `print`).
fn plain(s: &str, selection: &Selection) -> String {
    let chars: Vec<char> = s.chars().collect();
    let ranges = selection.ranges();
    let primary = selection.primary_index();
    let mut out = String::new();
    for pos in 0..=chars.len() {
        for (i, r) in ranges.iter().enumerate() {
            if r.to() == pos && r.from() < r.to() {
                if r.head == pos {
                    out.push('|');
                }
                out.push_str(if i == primary { "]#" } else { ")#" });
            }
        }
        for (i, r) in ranges.iter().enumerate() {
            if r.from() == pos {
                out.push_str(if i == primary { "#[" } else { "#(" });
                if r.head == pos {
                    out.push('|');
                }
                if r.from() == r.to() {
                    out.push_str(if i == primary { "]#" } else { ")#" });
                }
            }
        }
        if pos < chars.len() {
            out.push(chars[pos]);
        }
    }
    out
}

#[test]
fn zero_count_word_motions_are_identity() {
    let text = Rope::from("one two");
    for range in [Range::new(1, 6), Range::new(6, 1), Range::point(4)] {
        assert_eq!(move_next_word_start(text.slice(..), range, 0), range);
        assert_eq!(move_next_word_end(text.slice(..), range, 0), range);
        assert_eq!(move_prev_word_start(text.slice(..), range, 0), range);
        assert_eq!(move_prev_word_end(text.slice(..), range, 0), range);
    }
}

#[test]
fn motion_shapes_are_explicit_and_direction_preserving() {
    let forward = Range::new(2, 6);
    let backward = Range::new(6, 2);

    assert_eq!(
        DestinationMotion::LinearSelecting.apply(forward, 9, Movement::Move),
        Range::new(6, 9)
    );
    assert_eq!(
        DestinationMotion::LinearSelecting.apply(backward, 9, Movement::Move),
        Range::new(2, 9)
    );
    assert_eq!(
        DestinationMotion::Relocation.apply(forward, 9, Movement::Move),
        Range::point(9)
    );
    assert_eq!(Extension.apply(forward, 1), Range::new(2, 1));
    assert_eq!(Extension.apply(backward, 7), Range::new(6, 7));
}

#[test]
fn target_selection_uses_travel_or_neutral_arrival_edge() {
    let input = Range::new(3, 5);
    let target = Range::new(10, 14);

    assert_eq!(
        TargetSelection::directional(target, Direction::Forward).apply(input, Movement::Move),
        Range::new(10, 14)
    );
    assert_eq!(
        TargetSelection::directional(target, Direction::Backward).apply(input, Movement::Move),
        Range::new(14, 10)
    );
    assert_eq!(
        TargetSelection::nondirectional(target).apply(input, Movement::Move),
        Range::new(14, 10)
    );
    assert_eq!(
        TargetSelection::directional(target, Direction::Forward).apply(input, Movement::Extend),
        Range::new(3, 14)
    );
    assert_eq!(
        TargetSelection::directional(target, Direction::Backward)
            .apply(input, Movement::Extend),
        Range::new(3, 10)
    );
}

#[test]
fn parent_node_exclusive_eof_end_stays_in_bounds() {
    let eof = 6;
    for input in [Range::point(3), Range::new(2, 4), Range::new(5, 3)] {
        assert_eq!(
            parent_node_end_range(input, eof, Movement::Extend),
            Range::new(input.anchor, eof)
        );
    }
    assert_eq!(
        parent_node_end_range(Range::new(2, 4), eof, Movement::Move),
        Range::new(4, eof)
    );
}

#[test]
fn treesitter_object_accepts_exclusive_eof_end() {
    assert!(treesitter_object_range_is_valid(6, 2, 6));
    assert!(treesitter_object_range_is_valid(6, 6, 6));
    assert!(!treesitter_object_range_is_valid(6, 2, 7));
}

#[test]
fn test_behaviour_when_moving_to_start_of_next_words() {
    let tests = [
        ("Basic forward motion stops at the first space",
            vec![(1, Range::new(0, 0), Range::new(0, 6))]),
        (" Starting from a boundary advances the anchor",
            vec![(1, Range::new(0, 0), Range::new(0, 1))]),
        ("Long       whitespace gap is bridged by the head",
            vec![(1, Range::new(0, 0), Range::new(0, 11))]),
        ("Previous anchor is irrelevant for forward motions",
            vec![(1, Range::new(12, 0), Range::new(0, 9))]),
        ("    Starting from whitespace moves to last space in sequence",
            vec![(1, Range::new(0, 0), Range::new(0, 4))]),
        ("Starting from mid-word leaves anchor at start position and moves head",
            vec![(1, Range::new(3, 3), Range::new(3, 9))]),
        ("Identifiers_with_underscores are considered a single word",
            vec![(1, Range::new(0, 0), Range::new(0, 29))]),
        ("Jumping\n    into starting whitespace selects the spaces before 'into'",
            vec![(1, Range::new(0, 7), Range::new(8, 12))]),
        ("alphanumeric.!,and.?=punctuation are considered 'words' for the purposes of word motion",
            vec![
                (1, Range::new(0, 0), Range::new(0, 12)),
                (1, Range::new(0, 12), Range::new(12, 15)),
                (1, Range::new(12, 15), Range::new(15, 18))
            ]),
        ("...   ... punctuation and spaces behave as expected",
            vec![
                (1, Range::new(0, 0), Range::new(0, 6)),
                (1, Range::new(0, 6), Range::new(6, 10)),
            ]),
        (".._.._ punctuation is not joined by underscores into a single block",
            vec![(1, Range::new(0, 0), Range::new(0, 2))]),
        ("Newlines\n\nare bridged seamlessly.",
            vec![
                (1, Range::new(0, 0), Range::new(0, 8)),
                (1, Range::new(0, 8), Range::new(10, 14)),
            ]),
        ("Jumping\n\n\n\n\n\n   from newlines to whitespace selects whitespace.",
            vec![
                (1, Range::new(0, 9), Range::new(13, 16)),
            ]),
        ("A failed motion does not modify the range",
            vec![
                (3, Range::new(37, 41), Range::new(37, 41)),
            ]),
        ("oh oh oh two character words!",
            vec![
                (1, Range::new(0, 0), Range::new(0, 3)),
                (1, Range::new(0, 3), Range::new(3, 6)),
                (1, Range::new(0, 2), Range::new(2, 3)),
            ]),
        ("Multiple motions at once resolve correctly",
            vec![
                (3, Range::new(0, 0), Range::new(17, 20)),
            ]),
        ("Excessive motions are performed partially",
            vec![
                (999, Range::new(0, 0), Range::new(32, 41)),
            ]),
        ("", // Edge case of moving forward in empty string
            vec![
                (1, Range::new(0, 0), Range::new(0, 0)),
            ]),
        ("\n\n\n\n\n", // Edge case of moving forward in all newlines
            vec![
                (1, Range::new(0, 0), Range::new(5, 5)),
            ]),
        ("\n   \n   \n Jumping through alternated space blocks and newlines selects the space blocks",
            vec![
                (1, Range::new(0, 0), Range::new(1, 4)),
                (1, Range::new(1, 4), Range::new(5, 8)),
            ]),
        ("ヒーリクス multibyte characters behave as normal characters",
            vec![
                (1, Range::new(0, 0), Range::new(0, 6)),
            ]),
    ];

    for (sample, scenario) in tests {
        for (count, begin, expected_end) in scenario.into_iter() {
            let range = move_next_word_start(Rope::from(sample).slice(..), begin, count);
            assert_eq!(range, expected_end, "Case failed: [{}]", sample);
        }
    }
}

#[test]
fn test_behaviour_when_moving_to_start_of_next_sub_words() {
    let tests = [
        (
            "NextSubwordStart",
            vec![
                (1, Range::new(0, 0), Range::new(0, 4)),
                (1, Range::new(4, 4), Range::new(4, 11)),
            ],
        ),
        (
            "next_subword_start",
            vec![
                (1, Range::new(0, 0), Range::new(0, 5)),
                (1, Range::new(4, 4), Range::new(4, 5)),
            ],
        ),
        (
            "Next_Subword_Start",
            vec![
                (1, Range::new(0, 0), Range::new(0, 5)),
                (1, Range::new(4, 4), Range::new(4, 5)),
            ],
        ),
        (
            "NEXT_SUBWORD_START",
            vec![
                (1, Range::new(0, 0), Range::new(0, 5)),
                (1, Range::new(4, 4), Range::new(4, 5)),
            ],
        ),
        (
            "next subword start",
            vec![
                (1, Range::new(0, 0), Range::new(0, 5)),
                (1, Range::new(4, 4), Range::new(4, 5)),
            ],
        ),
        (
            "Next Subword Start",
            vec![
                (1, Range::new(0, 0), Range::new(0, 5)),
                (1, Range::new(4, 4), Range::new(4, 5)),
            ],
        ),
        (
            "NEXT SUBWORD START",
            vec![
                (1, Range::new(0, 0), Range::new(0, 5)),
                (1, Range::new(4, 4), Range::new(4, 5)),
            ],
        ),
        (
            "next__subword__start",
            vec![
                (1, Range::new(0, 0), Range::new(0, 6)),
                (1, Range::new(4, 4), Range::new(4, 6)),
                (1, Range::new(5, 5), Range::new(5, 6)),
            ],
        ),
        (
            "Next__Subword__Start",
            vec![
                (1, Range::new(0, 0), Range::new(0, 6)),
                (1, Range::new(4, 4), Range::new(4, 6)),
                (1, Range::new(5, 5), Range::new(5, 6)),
            ],
        ),
        (
            "NEXT__SUBWORD__START",
            vec![
                (1, Range::new(0, 0), Range::new(0, 6)),
                (1, Range::new(4, 4), Range::new(4, 6)),
                (1, Range::new(5, 5), Range::new(5, 6)),
            ],
        ),
    ];

    for (sample, scenario) in tests {
        for (count, begin, expected_end) in scenario.into_iter() {
            let range = move_next_sub_word_start(Rope::from(sample).slice(..), begin, count);
            assert_eq!(range, expected_end, "Case failed: [{}]", sample);
        }
    }
}

#[test]
fn test_behaviour_when_moving_to_end_of_next_sub_words() {
    let tests = [
        (
            "NextSubwordEnd",
            vec![
                (1, Range::new(0, 0), Range::new(0, 4)),
                (1, Range::new(4, 4), Range::new(4, 11)),
            ],
        ),
        (
            "next subword end",
            vec![
                (1, Range::new(0, 0), Range::new(0, 4)),
                (1, Range::new(4, 4), Range::new(4, 12)),
            ],
        ),
        (
            "Next Subword End",
            vec![
                (1, Range::new(0, 0), Range::new(0, 4)),
                (1, Range::new(4, 4), Range::new(4, 12)),
            ],
        ),
        (
            "NEXT SUBWORD END",
            vec![
                (1, Range::new(0, 0), Range::new(0, 4)),
                (1, Range::new(4, 4), Range::new(4, 12)),
            ],
        ),
        (
            "next_subword_end",
            vec![
                (1, Range::new(0, 0), Range::new(0, 4)),
                (1, Range::new(4, 4), Range::new(4, 12)),
            ],
        ),
        (
            "Next_Subword_End",
            vec![
                (1, Range::new(0, 0), Range::new(0, 4)),
                (1, Range::new(4, 4), Range::new(4, 12)),
            ],
        ),
        (
            "NEXT_SUBWORD_END",
            vec![
                (1, Range::new(0, 0), Range::new(0, 4)),
                (1, Range::new(4, 4), Range::new(4, 12)),
            ],
        ),
        (
            "next__subword__end",
            vec![
                (1, Range::new(0, 0), Range::new(0, 4)),
                (1, Range::new(4, 4), Range::new(4, 13)),
                (1, Range::new(5, 5), Range::new(5, 13)),
            ],
        ),
        (
            "Next__Subword__End",
            vec![
                (1, Range::new(0, 0), Range::new(0, 4)),
                (1, Range::new(4, 4), Range::new(4, 13)),
                (1, Range::new(5, 5), Range::new(5, 13)),
            ],
        ),
        (
            "NEXT__SUBWORD__END",
            vec![
                (1, Range::new(0, 0), Range::new(0, 4)),
                (1, Range::new(4, 4), Range::new(4, 13)),
                (1, Range::new(5, 5), Range::new(5, 13)),
            ],
        ),
    ];

    for (sample, scenario) in tests {
        for (count, begin, expected_end) in scenario.into_iter() {
            let range = move_next_sub_word_end(Rope::from(sample).slice(..), begin, count);
            assert_eq!(range, expected_end, "Case failed: [{}]", sample);
        }
    }
}

#[test]
fn test_behaviour_when_moving_to_start_of_next_long_words() {
    let tests = [
        ("Basic forward motion stops at the first space",
            vec![(1, Range::new(0, 0), Range::new(0, 6))]),
        (" Starting from a boundary advances the anchor",
            vec![(1, Range::new(0, 0), Range::new(0, 1))]),
        ("Long       whitespace gap is bridged by the head",
            vec![(1, Range::new(0, 0), Range::new(0, 11))]),
        ("Previous anchor is irrelevant for forward motions",
            vec![(1, Range::new(12, 0), Range::new(0, 9))]),
        ("    Starting from whitespace moves to last space in sequence",
            vec![(1, Range::new(0, 0), Range::new(0, 4))]),
        ("Starting from mid-word leaves anchor at start position and moves head",
            vec![(1, Range::new(3, 3), Range::new(3, 9))]),
        ("Identifiers_with_underscores are considered a single word",
            vec![(1, Range::new(0, 0), Range::new(0, 29))]),
        ("Jumping\n    into starting whitespace selects the spaces before 'into'",
            vec![(1, Range::new(0, 7), Range::new(8, 12))]),
        ("alphanumeric.!,and.?=punctuation are not treated any differently than alphanumerics",
            vec![
                (1, Range::new(0, 0), Range::new(0, 33)),
            ]),
        ("...   ... punctuation and spaces behave as expected",
            vec![
                (1, Range::new(0, 0), Range::new(0, 6)),
                (1, Range::new(0, 6), Range::new(6, 10)),
            ]),
        (".._.._ punctuation is joined by underscores into a single word, as it behaves like alphanumerics",
            vec![(1, Range::new(0, 0), Range::new(0, 7))]),
        ("Newlines\n\nare bridged seamlessly.",
            vec![
                (1, Range::new(0, 0), Range::new(0, 8)),
                (1, Range::new(0, 8), Range::new(10, 14)),
            ]),
        ("Jumping\n\n\n\n\n\n   from newlines to whitespace selects whitespace.",
            vec![
                (1, Range::new(0, 9), Range::new(13, 16)),
            ]),
        ("A failed motion does not modify the range",
            vec![
                (3, Range::new(37, 41), Range::new(37, 41)),
            ]),
        ("oh oh oh two character words!",
            vec![
                (1, Range::new(0, 0), Range::new(0, 3)),
                (1, Range::new(0, 3), Range::new(3, 6)),
                (1, Range::new(0, 1), Range::new(1, 3)),
            ]),
        ("Multiple motions at once resolve correctly",
            vec![
                (3, Range::new(0, 0), Range::new(17, 20)),
            ]),
        ("Excessive motions are performed partially",
            vec![
                (999, Range::new(0, 0), Range::new(32, 41)),
            ]),
        ("", // Edge case of moving forward in empty string
            vec![
                (1, Range::new(0, 0), Range::new(0, 0)),
            ]),
        ("\n\n\n\n\n", // Edge case of moving forward in all newlines
            vec![
                (1, Range::new(0, 0), Range::new(5, 5)),
            ]),
        ("\n   \n   \n Jumping through alternated space blocks and newlines selects the space blocks",
            vec![
                (1, Range::new(0, 0), Range::new(1, 4)),
                (1, Range::new(1, 4), Range::new(5, 8)),
            ]),
        ("ヒー..リクス multibyte characters behave as normal characters, including their interaction with punctuation",
            vec![
                (1, Range::new(0, 0), Range::new(0, 8)),
            ]),
    ];

    for (sample, scenario) in tests {
        for (count, begin, expected_end) in scenario.into_iter() {
            let range = move_next_long_word_start(Rope::from(sample).slice(..), begin, count);
            assert_eq!(range, expected_end, "Case failed: [{}]", sample);
        }
    }
}

#[test]
fn test_behaviour_when_moving_to_start_of_previous_words() {
    let tests = [
        ("Basic backward motion from the middle of a word",
            vec![(1, Range::new(3, 3), Range::new(3, 0))]),

        // // Why do we want this behavior?  The current behavior fails this
        // // test, but seems better and more consistent.
        // ("Starting from after boundary retreats the anchor",
        //     vec![(1, Range::new(0, 9), Range::new(8, 0))]),

        ("    Jump to start of a word preceded by whitespace",
            vec![(1, Range::new(5, 5), Range::new(5, 4))]),
        ("    Jump to start of line from start of word preceded by whitespace",
            vec![(1, Range::new(4, 4), Range::new(4, 0))]),
        ("Previous anchor is irrelevant for backward motions",
            vec![(1, Range::new(12, 5), Range::new(5, 0))]),
        ("    Starting from whitespace moves to first space in sequence",
            vec![(1, Range::new(0, 4), Range::new(4, 0))]),
        ("Identifiers_with_underscores are considered a single word",
            vec![(1, Range::new(0, 20), Range::new(20, 0))]),
        ("Jumping\n    \nback through a newline selects whitespace",
            vec![(1, Range::new(0, 13), Range::new(12, 8))]),
        ("Jumping to start of word from the end selects the word",
            vec![(1, Range::new(6, 7), Range::new(7, 0))]),
        ("alphanumeric.!,and.?=punctuation are considered 'words' for the purposes of word motion",
            vec![
                (1, Range::new(29, 30), Range::new(30, 21)),
                (1, Range::new(30, 21), Range::new(21, 18)),
                (1, Range::new(21, 18), Range::new(18, 15))
            ]),
        ("...   ... punctuation and spaces behave as expected",
            vec![
                (1, Range::new(0, 10), Range::new(10, 6)),
                (1, Range::new(10, 6), Range::new(6, 0)),
            ]),
        (".._.._ punctuation is not joined by underscores into a single block",
            vec![(1, Range::new(0, 6), Range::new(6, 5))]),
        ("Newlines\n\nare bridged seamlessly.",
            vec![
                (1, Range::new(0, 10), Range::new(8, 0)),
            ]),
        ("Jumping    \n\n\n\n\nback from within a newline group selects previous block",
            vec![
                (1, Range::new(0, 13), Range::new(11, 0)),
            ]),
        ("Failed motions do not modify the range",
            vec![
                (0, Range::new(3, 0), Range::new(3, 0)),
            ]),
        ("Multiple motions at once resolve correctly",
            vec![
                (3, Range::new(18, 18), Range::new(9, 0)),
            ]),
        ("Excessive motions are performed partially",
            vec![
                (999, Range::new(40, 40), Range::new(10, 0)),
            ]),
        ("", // Edge case of moving backwards in empty string
            vec![
                (1, Range::new(0, 0), Range::new(0, 0)),
            ]),
        ("\n\n\n\n\n", // Edge case of moving backwards in all newlines
            vec![
                (1, Range::new(5, 5), Range::new(0, 0)),
            ]),
        ("   \n   \nJumping back through alternated space blocks and newlines selects the space blocks",
            vec![
                (1, Range::new(0, 8), Range::new(7, 4)),
                (1, Range::new(7, 4), Range::new(3, 0)),
            ]),
        ("ヒーリクス multibyte characters behave as normal characters",
            vec![
                (1, Range::new(0, 6), Range::new(6, 0)),
            ]),
    ];

    for (sample, scenario) in tests {
        for (count, begin, expected_end) in scenario.into_iter() {
            let range = move_prev_word_start(Rope::from(sample).slice(..), begin, count);
            assert_eq!(range, expected_end, "Case failed: [{}]", sample);
        }
    }
}

#[test]
fn test_behaviour_when_moving_to_start_of_previous_sub_words() {
    let tests = [
        (
            "PrevSubwordEnd",
            vec![
                (1, Range::new(13, 13), Range::new(13, 11)),
                (1, Range::new(11, 11), Range::new(11, 4)),
            ],
        ),
        (
            "prev subword end",
            vec![
                (1, Range::new(15, 15), Range::new(15, 13)),
                (1, Range::new(12, 12), Range::new(12, 5)),
            ],
        ),
        (
            "Prev Subword End",
            vec![
                (1, Range::new(15, 15), Range::new(15, 13)),
                (1, Range::new(12, 12), Range::new(12, 5)),
            ],
        ),
        (
            "PREV SUBWORD END",
            vec![
                (1, Range::new(15, 15), Range::new(15, 13)),
                (1, Range::new(12, 12), Range::new(12, 5)),
            ],
        ),
        (
            "prev_subword_end",
            vec![
                (1, Range::new(15, 15), Range::new(15, 13)),
                (1, Range::new(12, 12), Range::new(12, 5)),
            ],
        ),
        (
            "Prev_Subword_End",
            vec![
                (1, Range::new(15, 15), Range::new(15, 13)),
                (1, Range::new(12, 12), Range::new(12, 5)),
            ],
        ),
        (
            "PREV_SUBWORD_END",
            vec![
                (1, Range::new(15, 15), Range::new(15, 13)),
                (1, Range::new(12, 12), Range::new(12, 5)),
            ],
        ),
        (
            "prev__subword__end",
            vec![
                (1, Range::new(17, 17), Range::new(17, 15)),
                (1, Range::new(13, 13), Range::new(13, 6)),
                (1, Range::new(14, 14), Range::new(14, 6)),
            ],
        ),
        (
            "Prev__Subword__End",
            vec![
                (1, Range::new(17, 17), Range::new(17, 15)),
                (1, Range::new(13, 13), Range::new(13, 6)),
                (1, Range::new(14, 14), Range::new(14, 6)),
            ],
        ),
        (
            "PREV__SUBWORD__END",
            vec![
                (1, Range::new(17, 17), Range::new(17, 15)),
                (1, Range::new(13, 13), Range::new(13, 6)),
                (1, Range::new(14, 14), Range::new(14, 6)),
            ],
        ),
    ];

    for (sample, scenario) in tests {
        for (count, begin, expected_end) in scenario.into_iter() {
            let range = move_prev_sub_word_start(Rope::from(sample).slice(..), begin, count);
            assert_eq!(range, expected_end, "Case failed: [{}]", sample);
        }
    }
}

#[test]
fn test_behaviour_when_moving_to_start_of_previous_long_words() {
    let tests = [
        (
            "Basic backward motion from the middle of a word",
            vec![(1, Range::new(3, 3), Range::new(3, 0))],
        ),

        // // Why do we want this behavior?  The current behavior fails this
        // // test, but seems better and more consistent.
        // ("Starting from after boundary retreats the anchor",
        //     vec![(1, Range::new(0, 9), Range::new(8, 0))]),

        (
            "    Jump to start of a word preceded by whitespace",
            vec![(1, Range::new(5, 5), Range::new(5, 4))],
        ),
        (
            "    Jump to start of line from start of word preceded by whitespace",
            vec![(1, Range::new(3, 4), Range::new(4, 0))],
        ),
        ("Previous anchor is irrelevant for backward motions",
            vec![(1, Range::new(12, 5), Range::new(5, 0))]),
        (
            "    Starting from whitespace moves to first space in sequence",
            vec![(1, Range::new(0, 4), Range::new(4, 0))],
        ),
        ("Identifiers_with_underscores are considered a single word",
            vec![(1, Range::new(0, 20), Range::new(20, 0))]),
        (
            "Jumping\n    \nback through a newline selects whitespace",
            vec![(1, Range::new(0, 13), Range::new(12, 8))],
        ),
        (
            "Jumping to start of word from the end selects the word",
            vec![(1, Range::new(6, 7), Range::new(7, 0))],
        ),
        (
            "alphanumeric.!,and.?=punctuation are treated exactly the same",
            vec![(1, Range::new(29, 30), Range::new(30, 0))],
        ),
        (
            "...   ... punctuation and spaces behave as expected",
            vec![
                (1, Range::new(0, 10), Range::new(10, 6)),
                (1, Range::new(10, 6), Range::new(6, 0)),
            ],
        ),
        (".._.._ punctuation is joined by underscores into a single block",
            vec![(1, Range::new(0, 6), Range::new(6, 0))]),
        (
            "Newlines\n\nare bridged seamlessly.",
            vec![(1, Range::new(0, 10), Range::new(8, 0))],
        ),
        (
            "Jumping    \n\n\n\n\nback from within a newline group selects previous block",
            vec![(1, Range::new(0, 13), Range::new(11, 0))],
        ),
        (
            "Failed motions do not modify the range",
            vec![(0, Range::new(3, 0), Range::new(3, 0))],
        ),
        (
            "Multiple motions at once resolve correctly",
            vec![(3, Range::new(19, 19), Range::new(9, 0))],
        ),
        (
            "Excessive motions are performed partially",
            vec![(999, Range::new(40, 40), Range::new(10, 0))],
        ),
        (
            "", // Edge case of moving backwards in empty string
            vec![(1, Range::new(0, 0), Range::new(0, 0))],
        ),
        (
            "\n\n\n\n\n", // Edge case of moving backwards in all newlines
            vec![(1, Range::new(5, 5), Range::new(0, 0))],
        ),
        ("   \n   \nJumping back through alternated space blocks and newlines selects the space blocks",
            vec![
                (1, Range::new(0, 8), Range::new(7, 4)),
                (1, Range::new(7, 4), Range::new(3, 0)),
            ]),
        ("ヒーリ..クス multibyte characters behave as normal characters, including when interacting with punctuation",
            vec![
                (1, Range::new(0, 8), Range::new(8, 0)),
            ]),
    ];

    for (sample, scenario) in tests {
        for (count, begin, expected_end) in scenario.into_iter() {
            let range = move_prev_long_word_start(Rope::from(sample).slice(..), begin, count);
            assert_eq!(range, expected_end, "Case failed: [{}]", sample);
        }
    }
}

#[test]
fn test_behaviour_when_moving_to_end_of_next_words() {
    let tests = [
        ("Basic forward motion from the start of a word to the end of it",
            vec![(1, Range::new(0, 0), Range::new(0, 5))]),
        ("Basic forward motion from the end of a word to the end of the next",
            vec![(1, Range::new(0, 5), Range::new(5, 13))]),
        ("Basic forward motion from the middle of a word to the end of it",
            vec![(1, Range::new(2, 2), Range::new(2, 5))]),
        ("    Jumping to end of a word preceded by whitespace",
            vec![(1, Range::new(0, 0), Range::new(0, 11))]),

        // // Why do we want this behavior?  The current behavior fails this
        // // test, but seems better and more consistent.
        // (" Starting from a boundary advances the anchor",
        //     vec![(1, Range::new(0, 0), Range::new(1, 9))]),

        ("Previous anchor is irrelevant for end of word motion",
            vec![(1, Range::new(12, 2), Range::new(2, 8))]),
        ("Identifiers_with_underscores are considered a single word",
            vec![(1, Range::new(0, 0), Range::new(0, 28))]),
        ("Jumping\n    into starting whitespace selects up to the end of next word",
            vec![(1, Range::new(0, 7), Range::new(8, 16))]),
        ("alphanumeric.!,and.?=punctuation are considered 'words' for the purposes of word motion",
            vec![
                (1, Range::new(0, 0), Range::new(0, 12)),
                (1, Range::new(0, 12), Range::new(12, 15)),
                (1, Range::new(12, 15), Range::new(15, 18))
            ]),
        ("...   ... punctuation and spaces behave as expected",
            vec![
                (1, Range::new(0, 0), Range::new(0, 3)),
                (1, Range::new(0, 3), Range::new(3, 9)),
            ]),
        (".._.._ punctuation is not joined by underscores into a single block",
            vec![(1, Range::new(0, 0), Range::new(0, 2))]),
        ("Newlines\n\nare bridged seamlessly.",
            vec![
                (1, Range::new(0, 0), Range::new(0, 8)),
                (1, Range::new(0, 8), Range::new(10, 13)),
            ]),
        ("Jumping\n\n\n\n\n\n   from newlines to whitespace selects to end of next word.",
            vec![
                (1, Range::new(0, 8), Range::new(13, 20)),
            ]),
        ("A failed motion does not modify the range",
            vec![
                (3, Range::new(37, 41), Range::new(37, 41)),
            ]),
        ("Multiple motions at once resolve correctly",
            vec![
                (3, Range::new(0, 0), Range::new(16, 19)),
            ]),
        ("Excessive motions are performed partially",
            vec![
                (999, Range::new(0, 0), Range::new(31, 41)),
            ]),
        ("", // Edge case of moving forward in empty string
            vec![
                (1, Range::new(0, 0), Range::new(0, 0)),
            ]),
        ("\n\n\n\n\n", // Edge case of moving forward in all newlines
            vec![
                (1, Range::new(0, 0), Range::new(5, 5)),
            ]),
        ("\n   \n   \n Jumping through alternated space blocks and newlines selects the space blocks",
            vec![
                (1, Range::new(0, 0), Range::new(1, 4)),
                (1, Range::new(1, 4), Range::new(5, 8)),
            ]),
        ("ヒーリクス multibyte characters behave as normal characters",
            vec![
                (1, Range::new(0, 0), Range::new(0, 5)),
            ]),
    ];

    for (sample, scenario) in tests {
        for (count, begin, expected_end) in scenario.into_iter() {
            let range = move_next_word_end(Rope::from(sample).slice(..), begin, count);
            assert_eq!(range, expected_end, "Case failed: [{}]", sample);
        }
    }
}

#[test]
fn test_behaviour_when_moving_to_end_of_previous_words() {
    let tests = [
        ("Basic backward motion from the middle of a word",
            vec![(1, Range::new(9, 9), Range::new(9, 5))]),
        ("Starting from after boundary retreats the anchor",
            vec![(1, Range::new(0, 14), Range::new(14, 13))]),
        ("Jump     to end of a word succeeded by whitespace",
            vec![(1, Range::new(11, 11), Range::new(11, 4))]),
        ("    Jump to start of line from end of word preceded by whitespace",
            vec![(1, Range::new(8, 8), Range::new(8, 0))]),
        ("Previous anchor is irrelevant for backward motions",
            vec![(1, Range::new(26, 12), Range::new(12, 8))]),
        ("    Starting from whitespace moves to first space in sequence",
            vec![(1, Range::new(0, 4), Range::new(4, 0))]),
        ("Test identifiers_with_underscores are considered a single word",
            vec![(1, Range::new(0, 25), Range::new(25, 4))]),
        ("Jumping\n    \nback through a newline selects whitespace",
            vec![(1, Range::new(0, 13), Range::new(12, 8))]),
        ("Jumping to start of word from the end selects the whole word",
            vec![(1, Range::new(16, 16), Range::new(16, 10))]),
        ("alphanumeric.!,and.?=punctuation are considered 'words' for the purposes of word motion",
            vec![
                (1, Range::new(30, 30), Range::new(30, 21)),
                (1, Range::new(31, 21), Range::new(21, 18)),
                (1, Range::new(21, 18), Range::new(18, 15))
            ]),

        ("...   ... punctuation and spaces behave as expected",
            vec![
                (1, Range::new(0, 10), Range::new(10, 9)),
                (1, Range::new(9, 3), Range::new(3, 0)),
            ]),
        (".._.._ punctuation is not joined by underscores into a single block",
            vec![(1, Range::new(0, 5), Range::new(5, 3))]),
        ("Newlines\n\nare bridged seamlessly.",
            vec![
                (1, Range::new(0, 10), Range::new(8, 0)),
            ]),
        ("Jumping    \n\n\n\n\nback from within a newline group selects previous block",
            vec![
                (1, Range::new(0, 13), Range::new(11, 7)),
            ]),
        ("Failed motions do not modify the range",
            vec![
                (0, Range::new(3, 0), Range::new(3, 0)),
            ]),
        ("Multiple motions at once resolve correctly",
            vec![
                (3, Range::new(24, 24), Range::new(16, 8)),
            ]),
        ("Excessive motions are performed partially",
            vec![
                (999, Range::new(40, 40), Range::new(9, 0)),
            ]),
        ("", // Edge case of moving backwards in empty string
            vec![
                (1, Range::new(0, 0), Range::new(0, 0)),
            ]),
        ("\n\n\n\n\n", // Edge case of moving backwards in all newlines
            vec![
                (1, Range::new(5, 5), Range::new(0, 0)),
            ]),
        ("   \n   \nJumping back through alternated space blocks and newlines selects the space blocks",
            vec![
                (1, Range::new(0, 8), Range::new(7, 4)),
                (1, Range::new(7, 4), Range::new(3, 0)),
            ]),
        ("Test ヒーリクス multibyte characters behave as normal characters",
            vec![
                (1, Range::new(0, 10), Range::new(10, 4)),
            ]),
    ];

    for (sample, scenario) in tests {
        for (count, begin, expected_end) in scenario.into_iter() {
            let range = move_prev_word_end(Rope::from(sample).slice(..), begin, count);
            assert_eq!(range, expected_end, "Case failed: [{}]", sample);
        }
    }
}

#[test]
fn test_behaviour_when_moving_to_end_of_previous_sub_words() {
    let tests = [
        (
            "PrevSubwordEnd",
            vec![
                (1, Range::new(13, 13), Range::new(13, 11)),
                (1, Range::new(11, 11), Range::new(11, 4)),
            ],
        ),
        (
            "prev subword end",
            vec![
                (1, Range::new(15, 15), Range::new(15, 12)),
                (1, Range::new(12, 12), Range::new(12, 4)),
            ],
        ),
        (
            "Prev Subword End",
            vec![
                (1, Range::new(15, 15), Range::new(15, 12)),
                (1, Range::new(12, 12), Range::new(12, 4)),
            ],
        ),
        (
            "PREV SUBWORD END",
            vec![
                (1, Range::new(15, 15), Range::new(15, 12)),
                (1, Range::new(12, 12), Range::new(12, 4)),
            ],
        ),
        (
            "prev_subword_end",
            vec![
                (1, Range::new(15, 15), Range::new(15, 12)),
                (1, Range::new(12, 12), Range::new(12, 4)),
            ],
        ),
        (
            "Prev_Subword_End",
            vec![
                (1, Range::new(15, 15), Range::new(15, 12)),
                (1, Range::new(12, 12), Range::new(12, 4)),
            ],
        ),
        (
            "PREV_SUBWORD_END",
            vec![
                (1, Range::new(15, 15), Range::new(15, 12)),
                (1, Range::new(12, 12), Range::new(12, 4)),
            ],
        ),
        (
            "prev__subword__end",
            vec![
                (1, Range::new(17, 17), Range::new(17, 13)),
                (1, Range::new(13, 13), Range::new(13, 4)),
                (1, Range::new(14, 14), Range::new(14, 13)),
            ],
        ),
        (
            "Prev__Subword__End",
            vec![
                (1, Range::new(17, 17), Range::new(17, 13)),
                (1, Range::new(13, 13), Range::new(13, 4)),
                (1, Range::new(14, 14), Range::new(14, 13)),
            ],
        ),
        (
            "PREV__SUBWORD__END",
            vec![
                (1, Range::new(17, 17), Range::new(17, 13)),
                (1, Range::new(13, 13), Range::new(13, 4)),
                (1, Range::new(14, 14), Range::new(14, 13)),
            ],
        ),
    ];

    for (sample, scenario) in tests {
        for (count, begin, expected_end) in scenario.into_iter() {
            let range = move_prev_sub_word_end(Rope::from(sample).slice(..), begin, count);
            assert_eq!(range, expected_end, "Case failed: [{}]", sample);
        }
    }
}

#[test]
fn test_behaviour_when_moving_to_end_of_next_long_words() {
    let tests = [
        ("Basic forward motion from the start of a word to the end of it",
            vec![(1, Range::new(0, 0), Range::new(0, 5))]),
        ("Basic forward motion from the end of a word to the end of the next",
            vec![(1, Range::new(0, 5), Range::new(5, 13))]),
        ("Basic forward motion from the middle of a word to the end of it",
            vec![(1, Range::new(2, 2), Range::new(2, 5))]),
        ("    Jumping to end of a word preceded by whitespace",
            vec![(1, Range::new(0, 0), Range::new(0, 11))]),

        // // Why do we want this behavior?  The current behavior fails this
        // // test, but seems better and more consistent.
        // (" Starting from a boundary advances the anchor",
        //     vec![(1, Range::new(0, 0), Range::new(1, 9))]),

        ("Previous anchor is irrelevant for end of word motion",
            vec![(1, Range::new(12, 2), Range::new(2, 8))]),
        ("Identifiers_with_underscores are considered a single word",
            vec![(1, Range::new(0, 0), Range::new(0, 28))]),
        ("Jumping\n    into starting whitespace selects up to the end of next word",
            vec![(1, Range::new(0, 7), Range::new(8, 16))]),
        ("alphanumeric.!,and.?=punctuation are treated the same way",
            vec![
                (1, Range::new(0, 0), Range::new(0, 32)),
            ]),
        ("...   ... punctuation and spaces behave as expected",
            vec![
                (1, Range::new(0, 0), Range::new(0, 3)),
                (1, Range::new(0, 3), Range::new(3, 9)),
            ]),
        (".._.._ punctuation is joined by underscores into a single block",
            vec![(1, Range::new(0, 0), Range::new(0, 6))]),
        ("Newlines\n\nare bridged seamlessly.",
            vec![
                (1, Range::new(0, 0), Range::new(0, 8)),
                (1, Range::new(0, 8), Range::new(10, 13)),
            ]),
        ("Jumping\n\n\n\n\n\n   from newlines to whitespace selects to end of next word.",
            vec![
                (1, Range::new(0, 9), Range::new(13, 20)),
            ]),
        ("A failed motion does not modify the range",
            vec![
                (3, Range::new(37, 41), Range::new(37, 41)),
            ]),
        ("Multiple motions at once resolve correctly",
            vec![
                (3, Range::new(0, 0), Range::new(16, 19)),
            ]),
        ("Excessive motions are performed partially",
            vec![
                (999, Range::new(0, 0), Range::new(31, 41)),
            ]),
        ("", // Edge case of moving forward in empty string
            vec![
                (1, Range::new(0, 0), Range::new(0, 0)),
            ]),
        ("\n\n\n\n\n", // Edge case of moving forward in all newlines
            vec![
                (1, Range::new(0, 0), Range::new(5, 5)),
            ]),
        ("\n   \n   \n Jumping through alternated space blocks and newlines selects the space blocks",
            vec![
                (1, Range::new(0, 0), Range::new(1, 4)),
                (1, Range::new(1, 4), Range::new(5, 8)),
            ]),
        ("ヒーリ..クス multibyte characters behave as normal characters, including  when they interact with punctuation",
            vec![
                (1, Range::new(0, 0), Range::new(0, 7)),
            ]),
    ];

    for (sample, scenario) in tests {
        for (count, begin, expected_end) in scenario.into_iter() {
            let range = move_next_long_word_end(Rope::from(sample).slice(..), begin, count);
            assert_eq!(range, expected_end, "Case failed: [{}]", sample);
        }
    }
}

#[test]
fn test_behaviour_when_moving_to_end_of_prev_long_words() {
    let tests = [
        (
            "Basic backward motion from the middle of a word",
            vec![(1, Range::new(3, 3), Range::new(3, 0))],
        ),
        ("Starting from after boundary retreats the anchor",
            vec![(1, Range::new(0, 9), Range::new(9, 8))],
        ),
        (
            "Jump    to end of a word succeeded by whitespace",
            vec![(1, Range::new(10, 10), Range::new(10, 4))],
        ),
        (
            "    Jump to start of line from end of word preceded by whitespace",
            vec![(1, Range::new(3, 4), Range::new(4, 0))],
        ),
        ("Previous anchor is irrelevant for backward motions",
            vec![(1, Range::new(12, 5), Range::new(5, 0))]),
        (
            "    Starting from whitespace moves to first space in sequence",
            vec![(1, Range::new(0, 4), Range::new(4, 0))],
        ),
        ("Identifiers_with_underscores are considered a single word",
            vec![(1, Range::new(0, 20), Range::new(20, 0))]),
        (
            "Jumping\n    \nback through a newline selects whitespace",
            vec![(1, Range::new(0, 13), Range::new(12, 8))],
        ),
        (
            "Jumping to start of word from the end selects the word",
            vec![(1, Range::new(6, 7), Range::new(7, 0))],
        ),
        (
            "alphanumeric.!,and.?=punctuation are treated exactly the same",
            vec![(1, Range::new(29, 30), Range::new(30, 0))],
        ),
        (
            "...   ... punctuation and spaces behave as expected",
            vec![
                (1, Range::new(0, 10), Range::new(10, 9)),
                (1, Range::new(10, 6), Range::new(6, 3)),
            ],
        ),
        (".._.._ punctuation is joined by underscores into a single block",
            vec![(1, Range::new(0, 6), Range::new(6, 0))]),
        (
            "Newlines\n\nare bridged seamlessly.",
            vec![(1, Range::new(0, 10), Range::new(8, 0))],
        ),
        (
            "Jumping    \n\n\n\n\nback from within a newline group selects previous block",
            vec![(1, Range::new(0, 13), Range::new(11, 7))],
        ),
        (
            "Failed motions do not modify the range",
            vec![(0, Range::new(3, 0), Range::new(3, 0))],
        ),
        (
            "Multiple motions at once resolve correctly",
            vec![(3, Range::new(19, 19), Range::new(8, 0))],
        ),
        (
            "Excessive motions are performed partially",
            vec![(999, Range::new(40, 40), Range::new(9, 0))],
        ),
        (
            "", // Edge case of moving backwards in empty string
            vec![(1, Range::new(0, 0), Range::new(0, 0))],
        ),
        (
            "\n\n\n\n\n", // Edge case of moving backwards in all newlines
            vec![(1, Range::new(5, 5), Range::new(0, 0))],
        ),
        ("   \n   \nJumping back through alternated space blocks and newlines selects the space blocks",
            vec![
                (1, Range::new(0, 8), Range::new(7, 4)),
                (1, Range::new(7, 4), Range::new(3, 0)),
            ]),
        ("ヒーリ..クス multibyte characters behave as normal characters, including when interacting with punctuation",
            vec![
                (1, Range::new(0, 8), Range::new(8, 7)),
            ]),
    ];

    for (sample, scenario) in tests {
        for (count, begin, expected_end) in scenario.into_iter() {
            let range = move_prev_long_word_end(Rope::from(sample).slice(..), begin, count);
            assert_eq!(range, expected_end, "Case failed: [{}]", sample);
        }
    }
}

#[test]
fn test_behaviour_when_moving_to_prev_paragraph_single() {
    // With beam cursor semantics, use zero-width ranges
    let tests = [
        ("#[|]#", "#[|]#"),
        ("s#[|]#tart at\nfirst char\n", "#[|s]#tart at\nfirst char\n"),
        ("start at\nlast char\n#[|]#", "#[|start at\nlast char\n]#"),
        (
            "goto\nfirst\n\np#[|]#aragraph",
            "goto\nfirst\n\n#[|p]#aragraph",
        ),
        (
            "goto\nfirst\n\n#[|]#paragraph",
            "#[|goto\nfirst\n\n]#paragraph",
        ),
        (
            "goto\nsecond\n\npa#[|]#ragraph",
            "goto\nsecond\n\n#[|pa]#ragraph",
        ),
        (
            "here\n\nhave\nmultiple\nparagraph\n\n\n\n\n#[|]#",
            "here\n\n#[|have\nmultiple\nparagraph\n\n\n\n\n]#",
        ),
    ];

    for (before, expected) in tests {
        let (s, selection) = print(before);
        let text = Rope::from(s.as_str());
        let selection =
            selection.transform(|r| move_prev_paragraph(text.slice(..), r, 1, Movement::Move));
        let actual = plain(s.as_ref(), &selection);
        assert_eq!(actual, expected, "\nbefore: `{:?}`", before);
    }
}

#[test]
fn test_behaviour_when_moving_to_prev_paragraph_double() {
    // With beam cursor semantics, use zero-width ranges
    let tests = [
        (
            "one#[|]#\n\ntwo\n\nthree\n\n",
            "#[|one]#\n\ntwo\n\nthree\n\n",
        ),
        (
            "one\n\ntwo\n\nthr#[|]#ee\n\n",
            "one\n\n#[|two\n\nthr]#ee\n\n",
        ),
    ];

    for (before, expected) in tests {
        let (s, selection) = print(before);
        let text = Rope::from(s.as_str());
        let selection =
            selection.transform(|r| move_prev_paragraph(text.slice(..), r, 2, Movement::Move));
        let actual = plain(s.as_ref(), &selection);
        assert_eq!(actual, expected, "\nbefore: `{:?}`", before);
    }
}

#[test]
fn test_behaviour_when_moving_to_prev_paragraph_extend() {
    let tests = [
        (
            "one\n\n#[|two\n\n]#three\n\n",
            "#[|one\n\ntwo\n\n]#three\n\n",
        ),
        (
            "#[|one\n\ntwo\n\n]#three\n\n",
            "#[|one\n\ntwo\n\n]#three\n\n",
        ),
    ];

    for (before, expected) in tests {
        let (s, selection) = print(before);
        let text = Rope::from(s.as_str());
        let selection = selection
            .transform(|r| move_prev_paragraph(text.slice(..), r, 1, Movement::Extend));
        let actual = plain(s.as_ref(), &selection);
        assert_eq!(actual, expected, "\nbefore: `{:?}`", before);
    }
}

#[test]
fn test_behaviour_when_moving_to_next_paragraph_single() {
    // With beam cursor semantics, cursor positions are zero-width ranges
    // and movements create selections from cursor to new position
    let tests = [
        ("#[|]#", "#[|]#"),
        // Cursor at position 0, move to end of paragraph
        ("#[|]#start at\nfirst char\n", "#[start at\nfirst char\n|]#"),
        // Cursor at end of document, no movement
        ("start at\nlast char\n#[|]#", "start at\nlast char\n#[|]#"),
        (
            "a\nb\n\n#[|]#goto\nthird\n\nparagraph",
            "a\nb\n\n#[goto\nthird\n\n|]#paragraph",
        ),
        (
            "a\nb\n#[|]#goto\nthird\n\nparagraph",
            "a\nb\n#[goto\nthird\n\n|]#paragraph",
        ),
        (
            "a\nb#[|]#\n\ngoto\nsecond\n\nparagraph",
            "a\nb#[\n\n|]#goto\nsecond\n\nparagraph",
        ),
        (
            "here\n\nhave\n#[|]#multiple\nparagraph\n\n\n\n\n",
            "here\n\nhave\n#[multiple\nparagraph\n\n\n\n\n|]#",
        ),
        (
            "#[|]#text\n\n\nafter two blank lines\n\nmore text\n",
            "#[text\n\n\n|]#after two blank lines\n\nmore text\n",
        ),
        (
            "text\n\n\n#[|]#after two blank lines\n\nmore text\n",
            "text\n\n\n#[after two blank lines\n\n|]#more text\n",
        ),
    ];

    for (before, expected) in tests {
        let (s, selection) = print(before);
        let text = Rope::from(s.as_str());
        let selection =
            selection.transform(|r| move_next_paragraph(text.slice(..), r, 1, Movement::Move));
        let actual = plain(s.as_ref(), &selection);
        assert_eq!(actual, expected, "\nbefore: `{:?}`", before);
    }
}

#[test]
fn test_behaviour_when_moving_to_next_paragraph_double() {
    // With beam cursor semantics, use zero-width ranges
    let tests = [
        (
            "one\n\ntwo\n\nth#[|]#ree\n\n",
            "one\n\ntwo\n\nth#[ree\n\n|]#",
        ),
        (
            "on#[|]#e\n\ntwo\n\nthree\n\n",
            "on#[e\n\ntwo\n\n|]#three\n\n",
        ),
    ];

    for (before, expected) in tests {
        let (s, selection) = print(before);
        let text = Rope::from(s.as_str());
        let selection =
            selection.transform(|r| move_next_paragraph(text.slice(..), r, 2, Movement::Move));
        let actual = plain(s.as_ref(), &selection);
        assert_eq!(actual, expected, "\nbefore: `{:?}`", before);
    }
}

#[test]
fn test_behaviour_when_moving_to_next_paragraph_extend() {
    let tests = [
        (
            "one\n\n#[two\n\n|]#three\n\n",
            "one\n\n#[two\n\nthree\n\n|]#",
        ),
        (
            "one\n\n#[two\n\nthree\n\n|]#",
            "one\n\n#[two\n\nthree\n\n|]#",
        ),
    ];

    for (before, expected) in tests {
        let (s, selection) = print(before);
        let text = Rope::from(s.as_str());
        let selection = selection
            .transform(|r| move_next_paragraph(text.slice(..), r, 1, Movement::Extend));
        let actual = plain(s.as_ref(), &selection);
        assert_eq!(actual, expected, "\nbefore: `{:?}`", before);
    }
}

const SINGLE_LINE_SAMPLE: &str = "This is a simple alphabetic line";
const MULTILINE_SAMPLE: &str = "\
    Multiline\n\
    text sample\n\
    which\n\
    is merely alphabetic\n\
    and whitespaced\n\
";

// Positions below are char indices; the comments give the line and column.
#[test]
fn horizontal_moves_through_single_line_text() {
    let text = Rope::from(SINGLE_LINE_SAMPLE);
    let slice = text.slice(..);
    let mut range = Range::point(0);

    let moves_and_expected_positions = [
        ((Direction::Forward, 1usize), 1usize), // (0, 1) T|his is a simple alphabetic line
        ((Direction::Forward, 2usize), 3),      // (0, 3) Thi|s is a simple alphabetic line
        ((Direction::Forward, 0usize), 3),      // (0, 3) Thi|s is a simple alphabetic line
        ((Direction::Forward, 999usize), 32),   // (0, 32) This is a simple alphabetic line|
        ((Direction::Forward, 999usize), 32),   // (0, 32) This is a simple alphabetic line|
        ((Direction::Backward, 999usize), 0),   // (0, 0) |This is a simple alphabetic line
    ];

    for ((direction, amount), position) in moves_and_expected_positions {
        range = move_horizontally(slice, range, direction, amount, Movement::Move);
        assert_eq!(range.head, position)
    }
}

#[test]
fn horizontal_moves_through_multiline_text() {
    let text = Rope::from(MULTILINE_SAMPLE);
    let slice = text.slice(..);
    let mut range = Range::point(0);

    let moves_and_expected_positions = [
        ((Direction::Forward, 11usize), 11usize), // (1, 1) Multiline\nt|ext sample\n...
        ((Direction::Backward, 1usize), 10),      // (1, 0) Multiline\n|text sample\n...
        ((Direction::Backward, 5usize), 5),       // (0, 5) Multi|line\ntext sample\n...
        ((Direction::Backward, 999usize), 0),     // (0, 0) |Multiline\ntext sample\n...
        ((Direction::Forward, 3usize), 3),        // (0, 3) Mul|tiline\ntext sample\n...
        ((Direction::Forward, 0usize), 3),        // (0, 3) Mul|tiline\ntext sample\n...
        ((Direction::Backward, 0usize), 3),       // (0, 3) Mul|tiline\ntext sample\n...
        ((Direction::Forward, 999usize), 65),     // (5, 0) ...and whitespaced\n|
        ((Direction::Forward, 999usize), 65),     // (5, 0) ...and whitespaced\n|
    ];

    for ((direction, amount), position) in moves_and_expected_positions {
        let previous = range;
        range = move_horizontally(slice, range, direction, amount, Movement::Move);
        assert_eq!(range.head, position);
        if amount == 0 {
            assert_eq!(range, previous);
        } else {
            assert_eq!(range.anchor, previous.head);
        }
    }
}

#[test]
fn selection_extending_moves_in_single_line_text() {
    let text = Rope::from(SINGLE_LINE_SAMPLE);
    let slice = text.slice(..);
    let mut range = Range::point(0);
    let original_anchor = range.anchor;

    let moves = [
        (Direction::Forward, 1usize),
        (Direction::Forward, 5usize),
        (Direction::Backward, 3usize),
    ];

    for (direction, amount) in moves {
        range = move_horizontally(slice, range, direction, amount, Movement::Extend);
        assert_eq!(range.anchor, original_anchor);
    }
}

#[test]
fn object_motion_picks_the_nearest_span_in_its_direction() {
    let spans = [(0usize, 9usize), (10, 12), (10, 19)];
    assert_eq!(pick_object_span(&spans, 0, Direction::Forward), Some((10, 19)));
    assert_eq!(pick_object_span(&spans, 10, Direction::Forward), None);
    assert_eq!(pick_object_span(&spans, 12, Direction::Backward), Some((10, 12)));
    assert_eq!(pick_object_span(&spans, 9, Direction::Backward), Some((0, 9)));
    assert_eq!(pick_object_span(&spans, 8, Direction::Backward), None);
    assert_eq!(pick_object_span(&[], 0, Direction::Forward), None);
}

#[test]
fn object_motion_step_goes_to_the_chars_of_the_span() {
    let text = Rope::from("fn a() {}\nfn b() {}");
    let s = text.slice(..);
    let spans = [(0usize, 9usize), (10, 19)];
    assert_eq!(
        treesitter_object_step(s, Range::point(0), &spans, Direction::Forward),
        Some(Range::new(10, 19))
    );
    assert_eq!(
        treesitter_object_step(s, Range::point(19), &spans, Direction::Backward),
        Some(Range::new(10, 19))
    );
    assert_eq!(
        treesitter_object_step(s, Range::point(12), &spans, Direction::Backward),
        Some(Range::new(0, 9))
    );
    // Nothing after the last span, a cursor past the end, a span past the end.
    assert_eq!(treesitter_object_step(s, Range::point(12), &spans, Direction::Forward), None);
    assert_eq!(treesitter_object_step(s, Range::point(50), &spans, Direction::Forward), None);
    assert_eq!(treesitter_object_step(s, Range::point(0), &[(5, 100)], Direction::Forward), None);

    // Byte offsets become char indices.
    let text = Rope::from("é a");
    let s = text.slice(..);
    assert_eq!(
        treesitter_object_step(s, Range::point(0), &[(3, 4)], Direction::Forward),
        Some(Range::new(2, 3))
    );
}

#[test]
fn word_motion_reads_the_chars_up_to_where_it_stopped() {
    let text = Rope::from("hello world");
    let s = text.slice(..);
    let mut chars = CharsAt::new(s, 0);
    let r = chars.range_to_target(WordMotionTarget::NextWordStart, Range::point(0));
    assert_eq!(r, Range::new(0, 6));
    assert_eq!(chars.pos(), 7);

    let mut chars = CharsAt::new(s, 11);
    let r = chars.range_to_target(WordMotionTarget::PrevWordStart, Range::point(11));
    assert_eq!(r, Range::new(11, 6));
    assert_eq!(chars.pos(), 5);

    // Running out of chars leaves them read to the end.
    let mut chars = CharsAt::new(s, 6);
    let r = chars.range_to_target(WordMotionTarget::NextWordStart, Range::point(6));
    assert_eq!(r, Range::new(6, 11));
    assert_eq!(chars.pos(), 11);
}

#[test]
fn object_motion_repeats_until_it_stops_moving() {
    let text = Rope::from("aaa bbb ccc");
    let s = text.slice(..);
    let spans = |_r: Range| vec![(0usize, 3usize), (4, 7), (8, 11)];
    assert_eq!(goto_treesitter_object(s, Range::point(1), Direction::Forward, 0, spans), Range::point(1));
    assert_eq!(goto_treesitter_object(s, Range::point(0), Direction::Forward, 1, spans), Range::new(4, 7));
    assert_eq!(goto_treesitter_object(s, Range::point(0), Direction::Forward, 2, spans), Range::new(8, 11));
    // Nothing lies after the last object: the motion stops there.
    assert_eq!(goto_treesitter_object(s, Range::point(0), Direction::Forward, 5, spans), Range::new(8, 11));
    // Backward from the end: the last object, then no progress.
    assert_eq!(goto_treesitter_object(s, Range::point(11), Direction::Backward, 3, spans), Range::new(8, 11));
    // The spans may depend on where the cursor is.
    let near = |r: Range| if r.head < 5 { vec![(4usize, 7usize)] } else { Vec::new() };
    assert_eq!(goto_treesitter_object(s, Range::point(0), Direction::Forward, 3, near), Range::new(4, 7));
}
