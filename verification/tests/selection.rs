use helix_core::selection::{Range, Selection, SelectionBoundsError};
use ropey::Rope;

/// Reads a text with selection markers: `#[` .. `]#` is the primary range,
/// `#(` .. `)#` a secondary one, and `|` inside a marker is the head.
fn print(s: &str) -> (String, Selection) {
    let chars: Vec<char> = s.chars().collect();
    let mut text = String::new();
    let mut ranges: Vec<Range> = Vec::new();
    let mut primary = 0;
    let mut pos = 0usize;
    let mut open: Option<(usize, bool, Option<usize>)> = None;
    let mut i = 0;
    while i < chars.len() {
        let c = chars[i];
        let next = chars.get(i + 1).copied();
        match open {
            None if c == '#' && (next == Some('[') || next == Some('(')) => {
                open = Some((pos, next == Some('['), None));
                i += 2;
                continue;
            }
            Some((start, is_primary, None)) if c == '|' => {
                open = Some((start, is_primary, Some(pos)));
                i += 1;
                continue;
            }
            Some((start, is_primary, head))
                if (c == ']' || c == ')') && next == Some('#') =>
            {
                let head = head.expect("a range marker needs a head");
                let anchor = if head == start { pos } else { start };
                if is_primary {
                    primary = ranges.len();
                }
                ranges.push(Range::new(anchor, head));
                open = None;
                i += 2;
                continue;
            }
            _ => {}
        }
        text.push(c);
        pos += 1;
        i += 1;
    }
    (text, Selection::new(ranges, primary))
}

#[test]
fn test_create_normalizes_and_merges() {
    let sel = Selection::new(
        vec![
            Range::new(10, 12),
            Range::new(6, 7),
            Range::new(4, 5),
            Range::new(3, 4),
            Range::new(0, 6),
            Range::new(7, 8),
            Range::new(9, 13),
            Range::new(13, 14),
        ],
        0,
    )
    .normalize();

    let res = sel
        .ranges()
        .iter()
        .map(|range| format!("{}/{}", range.anchor, range.head))
        .collect::<Vec<String>>()
        .join(",");

    assert_eq!(res, "0/6,6/7,7/8,9/13,13/14");

    // it correctly calculates a new primary index
    let sel = Selection::new(
        vec![Range::new(0, 2), Range::new(1, 5), Range::new(4, 7)],
        2,
    )
    .normalize();

    let res = sel
        .ranges()
        .iter()
        .map(|range| format!("{}/{}", range.anchor, range.head))
        .collect::<Vec<String>>()
        .join(",");

    assert_eq!(res, "0/7");
    assert_eq!(sel.primary_index(), 0);
}

#[test]
fn test_create_merges_adjacent_points() {
    let sel = Selection::new(
        vec![
            Range::new(10, 12),
            Range::new(12, 12),
            Range::new(12, 12),
            Range::new(10, 10),
            Range::new(8, 10),
        ],
        0,
    )
    .normalize();

    let res = sel
        .ranges()
        .iter()
        .map(|range| format!("{}/{}", range.anchor, range.head))
        .collect::<Vec<String>>()
        .join(",");

    assert_eq!(res, "8/10,10/12,12/12");
}

#[test]
fn selection_line_ranges() {
    let (text, selection) = print(
        r#"                                           L0
            #[|these]# line #(|ranges)# are #(|merged)#   L1
                                                          L2
            single one-line #(|range)#                    L3
                                                          L4
            single #(|multiline                           L5
            range)#                                       L6
                                                          L7
            these #(|multiline                            L8
            ranges)# are #(|also                          L9
            merged)#                                      L10
                                                          L11
            adjacent #(|ranges)#                          L12
            are merged #(|the same way)#                  L13
            "#,
    );
    let rope = Rope::from_str(&text);
    assert_eq!(
        vec![(1, 1), (3, 3), (5, 6), (8, 10), (12, 13)],
        selection.line_ranges(rope.slice(..)).to_vec(),
    );
}

#[test]
fn test_merge_consecutive_ranges() {
    let selection = Selection::new(
        vec![
            Range::new(0, 1),
            Range::new(1, 10),
            Range::new(15, 20),
            Range::new(25, 26),
            Range::new(26, 30)
        ],
        4,
    );

    let result = selection.merge_consecutive_ranges();

    assert_eq!(
        result.ranges(),
        &[Range::new(0, 10), Range::new(15, 20), Range::new(25, 30)]
    );
    assert_eq!(result.primary_index(), 2);

    let selection = Selection::new(vec![Range::new(0, 1)], 0);
    let result = selection.merge_consecutive_ranges();

    assert_eq!(result.ranges(), &[Range::new(0, 1)]);
    assert_eq!(result.primary_index(), 0);

    let selection = Selection::new(
        vec![
            Range::new(0, 1),
            Range::new(1, 5),
            Range::new(5, 8),
            Range::new(8, 10),
            Range::new(10, 15),
            Range::new(18, 25)
        ],
        3,
    );

    let result = selection.merge_consecutive_ranges();

    assert_eq!(result.ranges(), &[Range::new(0, 15), Range::new(18, 25)]);
    assert_eq!(result.primary_index(), 0);
}

#[test]
fn test_backward_secondary_selection_preserved() {
    // Test that backward selections (head < anchor) are preserved
    // through ensure_invariants and other operations
    let text = Rope::from_str("Hello world!");
    let s = text.slice(..);

    // Create a selection with a forward primary and backward secondary
    // Primary: positions 0-5 (forward), Secondary: positions 6-11 (backward: anchor=11, head=6)
    let selection = Selection::new(vec![Range::new(0, 5), Range::new(11, 6)], 0);

    // Verify the secondary selection is backward
    let secondary = &selection.ranges()[1];
    assert_eq!(secondary.anchor, 11);
    assert_eq!(secondary.head, 6);
    assert!(
        secondary.head < secondary.anchor,
        "Secondary should be backward"
    );

    // Verify from() and to() return correct values regardless of direction
    assert_eq!(secondary.from(), 6);
    assert_eq!(secondary.to(), 11);

    // Ensure invariants should NOT change the direction
    let normalized = selection.clone().ensure_invariants(s);

    // Check that ranges still exist and have correct from/to
    // Note: after ensure_invariants the order might change due to sorting by from()
    let ranges = normalized.ranges();
    assert_eq!(ranges.len(), 2, "Should still have 2 ranges");

    // Find the range that covers 6-11
    let backward_range = ranges.iter().find(|r| r.from() == 6 && r.to() == 11);
    assert!(
        backward_range.is_some(),
        "Should still have range covering 6-11"
    );
    let backward_range = backward_range.unwrap();

    // The direction should be preserved
    assert_eq!(backward_range.anchor, 11, "Anchor should be 11");
    assert_eq!(backward_range.head, 6, "Head should be 6");
    assert!(
        backward_range.head < backward_range.anchor,
        "Backward direction should be preserved after ensure_invariants"
    );
}

#[test]
fn validation_rejects_out_of_bounds_without_clamping() {
    let text = Rope::from("abc");
    let error = Selection::single(0, 4)
        .try_ensure_invariants(text.slice(..))
        .unwrap_err();
    assert_eq!(
        error,
        SelectionBoundsError {
            position: 4,
            len_chars: 3
        }
    );
}

#[test]
fn construction_preserves_participants_until_grapheme_alignment() {
    let text = Rope::from("a\u{301}b");
    let selection = Selection::new_unaligned(vec![Range::point(0), Range::new(1, 2)], 1);
    assert_eq!(selection.ranges(), &[Range::point(0), Range::new(1, 2)]);

    let normalized = selection.ensure_invariants(text.slice(..));
    assert_eq!(normalized.ranges(), &[Range::new(0, 2)]);
    assert_eq!(normalized.primary_index(), 0);
}

#[test]
fn d10_normalization_is_permutation_independent() {
    let primary = Range::new(7, 2);
    let ranges = [primary, Range::new(1, 4), Range::new(6, 9)];
    for permutation in [
        [ranges[0], ranges[1], ranges[2]],
        [ranges[0], ranges[2], ranges[1]],
        [ranges[1], ranges[0], ranges[2]],
        [ranges[1], ranges[2], ranges[0]],
        [ranges[2], ranges[0], ranges[1]],
        [ranges[2], ranges[1], ranges[0]],
    ] {
        let primary_index = permutation
            .iter()
            .position(|&range| range == primary)
            .unwrap();
        let selection =
            Selection::new(permutation.into_iter().collect(), primary_index).normalize();
        assert_eq!(selection.ranges(), &[Range::new(9, 1)]);
        assert_eq!(selection.primary_index(), 0);
    }
}

#[test]
fn d10_secondary_merge_uses_deterministic_winner() {
    let selection = Selection::new(
        vec![
            Range::point(20),
            Range::new(5, 2),
            Range::new(1, 4),
            Range::new(3, 6)
        ],
        0,
    )
    .normalize();
    assert_eq!(selection.ranges(), &[Range::new(1, 6), Range::point(20)]);
    assert_eq!(selection.primary_index(), 1);
}

#[test]
fn d10_secondary_ties_choose_widest_then_forward() {
    let widest = Selection::new(
        vec![
            Range::point(20),
            Range::new(4, 1),
            Range::new(6, 1),
            Range::new(2, 5)
        ],
        0,
    )
    .normalize();
    assert_eq!(widest.ranges()[0], Range::new(6, 1));

    let forward = Selection::new(
        vec![Range::point(20), Range::new(5, 1), Range::new(1, 5)],
        0,
    )
    .normalize();
    assert_eq!(forward.ranges()[0], Range::new(1, 5));
}

#[test]
fn primary_mut_changes_only_the_primary_range() {
    let mut selection = Selection::new(vec![Range::new(0, 1), Range::new(3, 4)], 1);
    *selection.primary_mut() = Range::new(3, 6);
    assert_eq!(selection.primary(), Range::new(3, 6));
    assert_eq!(selection.ranges()[0], Range::new(0, 1));
    assert_eq!(selection.primary_index(), 1);
    assert_eq!(selection.len(), 2);
}

#[test]
fn mapping_a_range_through_insertions() {
    let r = Range::new(2, 5);
    // At the lower edge: the edge moves after the inserted text.
    assert_eq!(r.map(&[(2, 2, 3)]), Range::new(5, 8));
    // At the upper edge: the inserted text stays outside.
    assert_eq!(r.map(&[(5, 5, 3)]), Range::new(2, 5));
    // Strictly inside: selected.
    assert_eq!(r.map(&[(3, 3, 2)]), Range::new(2, 7));
    // Before and after the range.
    assert_eq!(r.map(&[(0, 0, 1)]), Range::new(3, 6));
    assert_eq!(r.map(&[(7, 7, 1)]), Range::new(2, 5));
    // Backward ranges follow the roles of their edges.
    assert_eq!(Range::new(5, 2).map(&[(2, 2, 3)]), Range::new(8, 5));
    assert_eq!(Range::new(5, 2).map(&[(5, 5, 3)]), Range::new(5, 2));
    // A point moves after text inserted at it.
    assert_eq!(Range::point(3).map(&[(3, 3, 2)]), Range::point(5));
    // No change keeps the range as it is.
    assert_eq!(r.map(&[]), r);
}

#[test]
fn mapping_a_range_through_deletions_and_replacements() {
    let r = Range::new(2, 5);
    assert_eq!(r.map(&[(1, 3, 0)]), Range::new(1, 3));
    // Deleting or emptying the whole range gives the same forward point.
    assert_eq!(r.map(&[(2, 5, 0)]), Range::point(2));
    assert_eq!(Range::new(5, 2).map(&[(2, 5, 0)]), Range::point(2));
    // Equal-length replacements keep offsets.
    assert_eq!(r.map(&[(3, 4, 1)]), Range::new(2, 5));
    assert_eq!(r.map(&[(1, 3, 2)]), Range::new(2, 5));
    // An upper edge inside an unequal replacement goes to its end.
    assert_eq!(r.map(&[(3, 7, 1)]), Range::new(2, 4));
    // A lower edge inside one goes to its start.
    assert_eq!(r.map(&[(1, 3, 4)]), Range::new(1, 7));
    // A range equal to the replaced text selects the new text.
    assert_eq!(r.map(&[(2, 5, 2)]), Range::new(2, 4));
    assert_eq!(Range::new(5, 2).map(&[(2, 5, 2)]), Range::new(4, 2));
    // Points.
    assert_eq!(Range::point(3).map(&[(1, 4, 0)]), Range::point(1));
    assert_eq!(Range::point(3).map(&[(3, 5, 0)]), Range::point(3));
    assert_eq!(Range::point(3).map(&[(1, 3, 5)]), Range::point(6));
    assert_eq!(Range::point(3).map(&[(2, 6, 4)]), Range::point(3));
    assert_eq!(Range::point(3).map(&[(2, 6, 2)]), Range::point(4));
    // Several changes: earlier ones shift later positions.
    assert_eq!(Range::point(8).map(&[(0, 0, 2), (4, 6, 0)]), Range::point(8));
    assert_eq!(Range::point(5).map(&[(0, 0, 2), (4, 6, 0)]), Range::point(6));
}

#[test]
fn mapping_a_selection_maps_then_aligns_then_normalizes() {
    let selection = Selection::new(vec![Range::new(0, 1), Range::new(3, 4)], 1);
    // "abcdef" without "bc".
    let text = Rope::from("adef");
    let mapped = selection.clone().map_no_normalize(&[(1, 3, 0)]);
    assert_eq!(mapped.ranges(), &[Range::new(0, 1), Range::new(1, 2)]);
    let mapped = selection.clone().map(&[(1, 3, 0)], text.slice(..));
    assert_eq!(mapped.ranges(), &[Range::new(0, 1), Range::new(1, 2)]);
    assert_eq!(mapped.primary_index(), 1);

    // Both ranges collapse onto one point: one normalization merges them,
    // and the merged range is primary.
    let text = Rope::from("ef");
    let mapped = selection.map(&[(0, 4, 0)], text.slice(..));
    assert_eq!(mapped.ranges(), &[Range::point(0)]);
    assert_eq!(mapped.primary_index(), 0);

    // A combining mark inserted at the upper edge is outside after the first
    // phase, and joins the selected grapheme after alignment.
    let selection = Selection::single(0, 1);
    let text = Rope::from("a\u{301}b");
    assert_eq!(selection.clone().map_no_normalize(&[(1, 1, 1)]).ranges(), &[Range::new(0, 1)]);
    assert_eq!(selection.map(&[(1, 1, 1)], text.slice(..)).ranges(), &[Range::new(0, 2)]);
}
