use helix_core::chars::{categorize_char, char_is_line_ending, char_is_punctuation, CharCategory};
use helix_core::graphemes::{
    ensure_grapheme_boundary_next, ensure_grapheme_boundary_prev, next_grapheme_boundary,
    nth_next_grapheme_boundary, nth_prev_grapheme_boundary, prev_grapheme_boundary,
};
use helix_core::movement::{
    backwards_skip_while, move_horizontally, move_next_paragraph, move_next_word_start,
    move_prev_paragraph, move_prev_word_start, skip_while, Direction, Movement,
};
use helix_core::surround::find_nth_closest_pairs_pos;
use helix_core::selection::{
    byte_range_at_edge, char_at_edge, endpoint_assoc, split_on_newline, Assoc, EndpointRole,
    Range, Selection, SelectionBoundsError, UnequalReplacements,
};
use ropey::Rope;

#[test]
fn flip_twice_is_identity_and_keeps_text() {
    for r in [Range::new(2, 7), Range::new(7, 2), Range::point(4)] {
        assert_eq!(r.flip().flip(), r);
        assert_eq!((r.flip().from(), r.flip().to()), (r.from(), r.to()));
    }
    assert_eq!(Range::new(2, 7).flip().direction(), Direction::Backward);
    assert_eq!(Range::new(2, 7).with_direction(Direction::Backward), Range::new(7, 2));
    assert_eq!(Range::new(7, 2).with_direction(Direction::Forward), Range::new(2, 7));
    assert_eq!(Range::point(3).with_direction(Direction::Backward).direction(), Direction::Forward);
}

#[test]
fn overlap_rule_examples() {
    let a = Range::new(2, 5);
    let b = Range::new(5, 8);
    assert!(!a.overlaps(&b) && !b.overlaps(&a));
    assert!(Range::point(2).overlaps(&a) && a.overlaps(&Range::point(2)));
    assert!(Range::point(4).overlaps(&a));
    assert!(!Range::point(5).overlaps(&a));
    assert!(Range::point(3).overlaps(&Range::point(3)));
    assert!(!Range::point(3).overlaps(&Range::point(4)));
}

#[test]
fn merge_and_extend_cover_their_inputs() {
    assert_eq!(Range::new(5, 2).merge(Range::new(9, 7)), Range::new(9, 2));
    assert_eq!(Range::new(5, 2).merge(Range::new(7, 9)), Range::new(2, 9));
    assert_eq!(Range::new(3, 6).extend(1, 4), Range::new(1, 6));
    assert_eq!(Range::new(6, 3).extend(4, 9), Range::new(9, 3));
}

#[test]
fn grapheme_alignment_is_idempotent() {
    let text = Rope::from("a\u{301}\r\n🙂x");
    let s = text.slice(..);
    for r in [Range::point(1), Range::new(1, 3), Range::new(3, 1), Range::new(0, 6)] {
        let once = r.grapheme_aligned(s);
        assert_eq!(once.grapheme_aligned(s), once);
        assert!(once.from() <= r.from() && r.to() <= once.to() || r.anchor == r.head);
    }
}

#[test]
fn normalization_laws_on_examples() {
    let ranges = vec![
        Range::new(10, 12),
        Range::new(6, 7),
        Range::new(4, 5),
        Range::new(3, 4),
        Range::new(0, 6),
        Range::new(7, 8),
    ];
    let once = Selection::new(ranges.clone(), 3);
    // Sorted, disjoint, and every input lies within an output range.
    let out = once.ranges();
    for w in out.windows(2) {
        assert!(w[0].from() < w[1].from() && w[0].to() <= w[1].from());
        assert!(!w[0].overlaps(&w[1]));
    }
    for r in &ranges {
        assert!(out.iter().any(|o| o.contains_range(r)));
    }
    // The primary input (3, 4) lies within the primary output.
    assert!(once.primary().contains_range(&Range::new(3, 4)));
    // Normalizing again changes nothing.
    let twice = once.clone().normalize();
    assert_eq!(twice, once);
    // Reversing the input gives the same selection.
    let mut reversed = ranges.clone();
    reversed.reverse();
    let primary = reversed.iter().position(|r| *r == Range::new(3, 4)).unwrap();
    assert_eq!(Selection::new(reversed, primary), once);
}

#[test]
fn cursors_normalize_to_heads() {
    let sel = Selection::new(vec![Range::new(0, 3), Range::new(5, 3), Range::new(8, 9)], 1);
    let text = Rope::from("0123456789");
    let cursors = sel.cursors(text.slice(..));
    assert_eq!(cursors.ranges(), &[Range::point(3), Range::point(9)]);
    assert_eq!(cursors.primary_index(), 0);
}

#[test]
fn zero_count_motions_are_identity() {
    let text = Rope::from("one\n\ntwo three");
    let s = text.slice(..);
    for range in [Range::new(1, 6), Range::new(6, 1), Range::point(4)] {
        assert_eq!(move_next_word_start(s, range, 0), range);
        assert_eq!(move_prev_paragraph(s, range, 0, Movement::Move), range);
        assert_eq!(move_next_paragraph(s, range, 0, Movement::Extend), range);
        assert_eq!(move_horizontally(s, range, Direction::Forward, 0, Movement::Move), range);
    }
}

#[test]
fn horizontal_motion_selects_crossed_graphemes() {
    let text = Rope::from("a\u{301}b\r\nc");
    let s = text.slice(..);
    assert_eq!(
        move_horizontally(s, Range::point(0), Direction::Forward, 1, Movement::Move),
        Range::new(0, 2)
    );
    assert_eq!(
        move_horizontally(s, Range::point(2), Direction::Forward, 2, Movement::Move),
        Range::new(2, 5)
    );
    assert_eq!(
        move_horizontally(s, Range::new(1, 5), Direction::Backward, 1, Movement::Extend),
        Range::new(1, 3)
    );
    assert_eq!(
        move_horizontally(s, Range::point(6), Direction::Forward, 3, Movement::Move),
        Range::point(6)
    );
}

#[test]
fn grapheme_boundaries_step_over_clusters() {
    let text = Rope::from("a\u{301}\r\n🙂");
    let s = text.slice(..);
    assert_eq!(next_grapheme_boundary(s, 0), 2);
    assert_eq!(next_grapheme_boundary(s, 2), 4);
    assert_eq!(next_grapheme_boundary(s, 5), 5);
    assert_eq!(prev_grapheme_boundary(s, 4), 2);
    assert_eq!(prev_grapheme_boundary(s, 1), 0);
    assert_eq!(prev_grapheme_boundary(s, 0), 0);
    assert_eq!(nth_next_grapheme_boundary(s, 0, 2), 4);
    assert_eq!(nth_prev_grapheme_boundary(s, 5, 3), 0);
    assert_eq!(ensure_grapheme_boundary_next(s, 3), 4);
    assert_eq!(ensure_grapheme_boundary_prev(s, 3), 2);
    assert_eq!(ensure_grapheme_boundary_prev(s, 2), 2);
}

#[test]
fn char_classes() {
    assert!(char_is_line_ending('\n'));
    assert!(!char_is_line_ending('\r'));
    assert_eq!(categorize_char('\n'), CharCategory::Eol);
    assert_eq!(categorize_char(' '), CharCategory::Whitespace);
    assert_eq!(categorize_char('_'), CharCategory::Word);
    assert_eq!(categorize_char('é'), CharCategory::Word);
    assert_eq!(categorize_char('.'), CharCategory::Punctuation);
    assert_eq!(categorize_char('+'), CharCategory::Punctuation);
    assert_eq!(categorize_char('\u{301}'), CharCategory::Unknown);
    assert!(char_is_punctuation('$'));
    assert!(!char_is_punctuation('a'));
}

#[test]
fn right_affinity_helpers_reject_out_of_bounds_edges() {
    let text = Rope::from("aé");
    let s = text.slice(..);
    assert_eq!(char_at_edge(s, 1), Ok(Some('é')));
    assert_eq!(char_at_edge(s, 2), Ok(None));
    assert_eq!(
        char_at_edge(s, 3),
        Err(SelectionBoundsError { position: 3, len_chars: 2 })
    );
    assert_eq!(byte_range_at_edge(s, 1), Ok(1..3));
    assert_eq!(byte_range_at_edge(s, 2), Ok(3..3));
    assert_eq!(Range::new(2, 1).into_byte_range(s), (1, 3));
    assert_eq!(Range::new(1, 2).into_byte_range(s), (1, 3));
}

#[test]
fn selection_construction_reports_the_first_out_of_bounds_edge() {
    let text = Rope::from("abc");
    let err = Selection::try_new(vec![Range::new(1, 2), Range::new(5, 7)], 0, text.slice(..));
    assert_eq!(err.unwrap_err(), SelectionBoundsError { position: 5, len_chars: 3 });
    let ok = Selection::try_new(vec![Range::new(3, 0)], 0, text.slice(..)).unwrap();
    assert_eq!(ok.ranges(), &[Range::new(3, 0)]);
}

#[test]
fn selection_edits() {
    let sel = Selection::new(vec![Range::new(0, 1), Range::new(4, 6)], 0);
    let pushed = sel.clone().push(Range::point(9));
    assert_eq!(pushed.ranges(), &[Range::new(0, 1), Range::new(4, 6), Range::point(9)]);
    assert_eq!(pushed.primary_index(), 2);
    let removed = pushed.clone().remove(1);
    assert_eq!(removed.ranges(), &[Range::new(0, 1), Range::point(9)]);
    assert_eq!(removed.primary_index(), 1);
    let replaced = sel.clone().replace(1, Range::new(1, 3));
    assert_eq!(replaced.ranges(), &[Range::new(0, 1), Range::new(1, 3)]);
    assert_eq!(sel.clone().merge_ranges().ranges(), &[Range::new(0, 6)]);
    assert_eq!(sel.clone().into_single().ranges(), &[Range::new(0, 1)]);
    let moved = sel.transform(|r| Range::new(r.anchor + 1, r.head + 1));
    assert_eq!(moved.ranges(), &[Range::new(1, 2), Range::new(5, 7)]);
}

#[test]
fn line_range_iterator_yields_merged_runs() {
    let text = Rope::from("a\nb\nc\nd\ne\n");
    let sel = Selection::new(
        vec![Range::new(0, 1), Range::new(2, 3), Range::new(6, 7), Range::new(8, 9)],
        0,
    );
    let mut it = sel.line_ranges(text.slice(..));
    assert_eq!(it.next(), Some((0, 1)));
    assert_eq!(it.next(), Some((3, 4)));
    assert_eq!(it.next(), None);
    assert_eq!(sel.line_ranges(text.slice(..)).to_vec(), vec![(0, 1), (3, 4)]);
}

#[test]
fn split_on_newline_leaves_out_line_endings() {
    let text = Rope::from("ab\r\ncd\nef");
    let sel = Selection::new(vec![Range::new(0, 9), Range::point(2)], 0);
    let split = split_on_newline(text.slice(..), &sel);
    assert_eq!(
        split.ranges(),
        &[Range::new(0, 2), Range::new(4, 6), Range::new(7, 9)]
    );
    let sel = Selection::single(1, 7);
    let split = split_on_newline(text.slice(..), &sel);
    assert_eq!(split.ranges(), &[Range::new(1, 2), Range::new(4, 6)]);
}

#[test]
fn skip_while_finds_the_first_failing_char() {
    let text = Rope::from("  ab  ");
    let s = text.slice(..);
    assert_eq!(skip_while(s, 0, |c| c == ' '), Some(2));
    assert_eq!(skip_while(s, 4, |c| c == ' '), None);
    assert_eq!(backwards_skip_while(s, 6, |c| c == ' '), Some(3));
    assert_eq!(backwards_skip_while(s, 2, |c| c == ' '), Some(0));
    assert_eq!(backwards_skip_while(s, 3, |c| c == 'a'), Some(1));
    assert_eq!(backwards_skip_while(s, 0, |c| c == 'a'), Some(0));
}

#[test]
fn endpoint_association_follows_roles() {
    // Changes (from, to, inserted_len): an equal replacement and an unequal one.
    let ur = UnequalReplacements::new(&[(1, 3, 2), (5, 9, 1)]);
    assert!(!ur.contains(2));
    assert!(ur.contains(6));
    assert!(!ur.contains(5));
    assert!(!ur.contains(9));
    assert_eq!(endpoint_assoc(&ur, 6, EndpointRole::Lower), Assoc::BeforeSticky);
    assert_eq!(endpoint_assoc(&ur, 6, EndpointRole::Upper), Assoc::AfterSticky);
    assert_eq!(endpoint_assoc(&ur, 2, EndpointRole::Lower), Assoc::AfterSticky);
    assert_eq!(endpoint_assoc(&ur, 2, EndpointRole::Upper), Assoc::BeforeSticky);
    let r = Range::new(2, 6);
    assert_eq!(r.endpoint_assocs(&ur), (Assoc::AfterSticky, Assoc::AfterSticky));
    let (a, h) = r.endpoint_assocs(&ur);
    assert_eq!(r.flip().endpoint_assocs(&ur), (h, a));
    assert_eq!(
        Range::point(6).endpoint_assocs(&ur),
        (Assoc::AfterSticky, Assoc::AfterSticky)
    );
}

#[test]
fn node_byte_spans_become_char_ranges() {
    let text = Rope::from("aé🙂b");
    let s = text.slice(..);
    // Bytes: a=0, é=1..3, 🙂=3..7, b=7..8.
    assert_eq!(Range::from_node(1, 7, s, Direction::Forward), Range::new(1, 3));
    assert_eq!(Range::from_node(1, 7, s, Direction::Backward), Range::new(3, 1));
    // A byte inside a char belongs to that char.
    assert_eq!(Range::from_node(2, 8, s, Direction::Forward), Range::new(1, 4));
    assert_eq!(Range::from_node(8, 8, s, Direction::Backward), Range::point(4));
}

#[test]
fn fragments_and_slices_hold_the_selected_text() {
    let text = Rope::from("aé🙂b\ncd");
    let s = text.slice(..);
    let r = Range::new(4, 1);
    assert_eq!(r.fragment(s), "é🙂b");
    assert_eq!(String::from(r.slice(s)), "é🙂b");
    let sel = Selection::new(vec![Range::new(0, 1), Range::new(7, 5)], 0);
    assert_eq!(sel.fragments(s), vec!["a".to_string(), "cd".to_string()]);
    let slices: Vec<String> = sel.slices(s).into_iter().map(String::from).collect();
    assert_eq!(slices, vec!["a".to_string(), "cd".to_string()]);
    assert!(Range::new(1, 2).is_single_grapheme(s));
    assert!(!Range::new(1, 3).is_single_grapheme(s));
    assert_eq!(Range::new(6, 7).cursor_line(s), 1);
}

#[test]
fn normalization_never_adds_ranges() {
    let ranges = vec![Range::new(0, 4), Range::new(2, 6), Range::new(5, 9)];
    let sel = Selection::new(ranges.clone(), 0);
    assert!(sel.len() <= ranges.len());
    assert_eq!(sel.ranges(), &[Range::new(0, 9)]);
}

#[test]
fn backward_paragraph_motion_lands_on_a_line_start() {
    let text = Rope::from("one\n\ntwo three");
    let s = text.slice(..);
    // From inside the first line of a paragraph: to that paragraph's start.
    assert_eq!(move_prev_paragraph(s, Range::point(8), 1, Movement::Move), Range::new(8, 5));
    // From a paragraph's start: to the start of the one above.
    assert_eq!(move_prev_paragraph(s, Range::point(5), 1, Movement::Move), Range::new(5, 0));
    // Extending keeps the anchor.
    assert_eq!(move_prev_paragraph(s, Range::new(2, 9), 2, Movement::Extend), Range::new(2, 0));
}

#[test]
fn word_motions_from_their_end_of_the_text_change_nothing() {
    let text = Rope::from("one\n\ntwo three");
    let s = text.slice(..);
    assert_eq!(move_next_word_start(s, Range::new(2, 14), 3), Range::new(2, 14));
    assert_eq!(move_prev_word_start(s, Range::new(5, 0), 2), Range::new(5, 0));
}

#[test]
fn closest_pairs_are_bracket_pairs_and_widen_outward() {
    let text = Rope::from("([a] {b})");
    let s = text.slice(..);
    let brackets: &[(char, char)] = &[('(', ')'), ('{', '}'), ('[', ']'), ('<', '>')];
    let chars: Vec<char> = "([a] {b})".chars().collect();
    let first = find_nth_closest_pairs_pos(s, Range::point(2), 1, brackets).unwrap();
    assert_eq!(first, (1, 3));
    assert_eq!((chars[first.0], chars[first.1]), ('[', ']'));
    let second = find_nth_closest_pairs_pos(s, Range::point(2), 2, brackets).unwrap();
    assert_eq!(second, (0, 8));
    assert!(second.0 <= first.0 && first.1 <= second.1 && second != first);
    assert_eq!((chars[second.0], chars[second.1]), ('(', ')'));
    // A backward range gets the pair back head first.
    assert_eq!(find_nth_closest_pairs_pos(s, Range::new(3, 2), 1, brackets), Ok((3, 1)));
}

#[test]
fn grapheme_boundaries_never_split_crlf() {
    let text = Rope::from("a\r\nb");
    let s = text.slice(..);
    assert_eq!(next_grapheme_boundary(s, 1), 3);
    assert_eq!(prev_grapheme_boundary(s, 3), 1);
    assert_eq!(prev_grapheme_boundary(s, 2), 1);
}

#[test]
fn white_space_is_the_unicode_property() {
    assert_eq!(categorize_char('\u{3000}'), CharCategory::Whitespace);
    assert_eq!(categorize_char('\u{a0}'), CharCategory::Whitespace);
    assert_eq!(categorize_char('\t'), CharCategory::Whitespace);
    assert_ne!(categorize_char('\u{200b}'), CharCategory::Whitespace);
}
