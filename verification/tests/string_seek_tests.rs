use std::cmp::Ordering;

use llvm_codecov::region::Region;
use llvm_codecov::string_seek::{
    can_shrinkwrap, find_all, get_region_text, shrink_step, shrinkwrap, shrinkwrap_checked,
    PositionNotFound, Shrink, StrPos,
};

fn region(start: (usize, usize), end: (usize, usize)) -> Region {
    Region { id: 11, start, end, count: 42, has_count: true, is_gap: false }
}

fn places(pairs: &[(usize, usize)]) -> Vec<StrPos> {
    pairs.iter().map(|&(line, col)| StrPos::new(line, col)).collect()
}

fn found(positions: &[StrPos]) -> Vec<(usize, usize, Option<usize>)> {
    positions.iter().map(|p| (p.line, p.col, p.pos)).collect()
}

#[test]
fn a_new_place_has_no_offset() {
    let p = StrPos::new(3, 9);
    assert_eq!((p.line, p.col, p.pos), (3, 9, None));
}

#[test]
fn advancing_past_a_character_takes_a_column() {
    let mut p = StrPos::new(2, 7);
    p.advance((14, 'x'));
    assert_eq!((p.line, p.col, p.pos), (2, 8, Some(15)));
    p.advance((15, ' '));
    assert_eq!((p.line, p.col, p.pos), (2, 9, Some(16)));
}

#[test]
fn advancing_past_a_line_feed_starts_a_line() {
    let mut p = StrPos::new(2, 7);
    p.advance((0, '\n'));
    assert_eq!((p.line, p.col, p.pos), (3, 1, Some(1)));
}

#[test]
fn advancing_counts_from_the_offset_of_the_place() {
    let mut p = StrPos::new(1, 2);
    p.pos = Some(1);
    p.advance((2, 'a'));
    assert_eq!((p.line, p.col, p.pos), (1, 3, Some(2)));
    p.advance((40, '\n'));
    assert_eq!((p.line, p.col, p.pos), (2, 1, Some(3)));
    p.advance((0, '\r'));
    assert_eq!((p.line, p.col, p.pos), (2, 2, Some(4)));
    p.advance((0, '\t'));
    assert_eq!((p.line, p.col, p.pos), (2, 3, Some(5)));
}

#[test]
fn advancing_needs_room_only_where_it_moves() {
    let mut p = StrPos::new(3, usize::MAX);
    p.advance((5, '\n'));
    assert_eq!((p.line, p.col, p.pos), (4, 1, Some(6)));
    let mut p = StrPos::new(usize::MAX, 8);
    p.pos = Some(usize::MAX - 1);
    p.advance((0, 'x'));
    assert_eq!((p.line, p.col, p.pos), (usize::MAX, 9, Some(usize::MAX)));
}

#[test]
fn places_are_ordered_by_line_then_column() {
    let a = StrPos::new(1, 9);
    let b = StrPos::new(2, 1);
    let c = StrPos::new(2, 4);
    assert_eq!(a.cmp(&b), Ordering::Less);
    assert_eq!(b.cmp(&a), Ordering::Greater);
    assert_eq!(b.cmp(&c), Ordering::Less);
    assert_eq!(c.cmp(&b), Ordering::Greater);
    assert_eq!(c.cmp(&c), Ordering::Equal);
    assert_eq!(a.partial_cmp(&b), Some(Ordering::Less));
    assert!(a < b && b < c && c >= b && b >= b);
}

#[test]
fn the_offset_plays_no_part_in_comparing() {
    let mut a = StrPos::new(5, 5);
    let b = StrPos::new(5, 5);
    a.pos = Some(100);
    assert!(a == b);
    assert_eq!(a.cmp(&b), Ordering::Equal);
    assert!(a != StrPos::new(5, 6));
}

#[test]
fn places_are_sorted_and_given_their_offsets() {
    let mut positions = places(&[(2, 2), (1, 1), (1, 3), (2, 1)]);
    assert_eq!(find_all("ab\ncd", &mut positions), Ok(()));
    assert_eq!(
        found(&positions),
        vec![(1, 1, Some(0)), (1, 3, Some(2)), (2, 1, Some(3)), (2, 2, Some(4))]
    );
}

#[test]
fn the_start_of_the_text_has_offset_zero() {
    let mut positions = places(&[(1, 1)]);
    assert_eq!(find_all("hello\nworld", &mut positions), Ok(()));
    assert_eq!(positions[0].pos, Some(0));
    let mut positions = places(&[(1, 1)]);
    assert_eq!(find_all("", &mut positions), Ok(()));
    assert_eq!(positions[0].pos, Some(0));
}

#[test]
fn the_end_of_the_text_has_its_length_as_offset() {
    let mut positions = places(&[(2, 3)]);
    assert_eq!(find_all("ab\ncd", &mut positions), Ok(()));
    assert_eq!(positions[0].pos, Some(5));
    let mut positions = places(&[(2, 1)]);
    assert_eq!(find_all("ab\n", &mut positions), Ok(()));
    assert_eq!(positions[0].pos, Some(3));
}

#[test]
fn a_place_past_the_end_of_its_line_gets_the_next_line() {
    let mut positions = places(&[(1, 10), (1, 4)]);
    assert_eq!(find_all("ab\ncd", &mut positions), Ok(()));
    assert_eq!(found(&positions), vec![(1, 4, Some(3)), (1, 10, Some(3))]);
}

#[test]
fn a_place_before_the_first_gets_offset_zero() {
    let mut positions = places(&[(1, 0), (0, 0), (0, 50)]);
    assert_eq!(find_all("ab", &mut positions), Ok(()));
    assert_eq!(found(&positions), vec![(0, 0, Some(0)), (0, 50, Some(0)), (1, 0, Some(0))]);
}

#[test]
fn offsets_count_characters() {
    let mut positions = places(&[(2, 1), (1, 2), (2, 2)]);
    assert_eq!(find_all("\u{e9}\u{4e16}\n\u{1F600}", &mut positions), Ok(()));
    assert_eq!(found(&positions), vec![(1, 2, Some(1)), (2, 1, Some(3)), (2, 2, Some(4))]);
}

#[test]
fn equal_places_get_equal_offsets() {
    let mut positions = places(&[(2, 1), (1, 2), (2, 1), (1, 2)]);
    assert_eq!(find_all("a\nb", &mut positions), Ok(()));
    assert_eq!(
        found(&positions),
        vec![(1, 2, Some(1)), (1, 2, Some(1)), (2, 1, Some(2)), (2, 1, Some(2))]
    );
}

#[test]
fn no_places_nothing_to_find() {
    let mut positions: Vec<StrPos> = Vec::new();
    assert_eq!(find_all("abc", &mut positions), Ok(()));
    assert!(positions.is_empty());
}

#[test]
fn a_place_after_the_text_is_not_found() {
    let mut positions = places(&[(3, 1)]);
    assert_eq!(find_all("ab\ncd", &mut positions), Err(PositionNotFound));
    let mut positions = places(&[(2, 4)]);
    assert_eq!(find_all("ab\ncd", &mut positions), Err(PositionNotFound));
    let mut positions = places(&[(1, 2)]);
    assert_eq!(find_all("", &mut positions), Err(PositionNotFound));
}

#[test]
fn places_before_a_missing_one_are_still_found() {
    let mut lost = StrPos::new(9, 9);
    lost.pos = Some(77);
    let mut positions = vec![lost, StrPos::new(1, 2), StrPos::new(1, 1)];
    assert_eq!(find_all("ab", &mut positions), Err(PositionNotFound));
    assert_eq!(found(&positions), vec![(1, 1, Some(0)), (1, 2, Some(1)), (9, 9, Some(77))]);
}

#[test]
fn looking_up_twice_gives_the_same_offsets() {
    let text = "fn f() {\n    g();\n}\n";
    let asked = [(3, 2), (1, 8), (2, 5), (4, 1), (2, 9)];
    let mut first = places(&asked);
    let mut second = places(&asked);
    second.reverse();
    assert_eq!(find_all(text, &mut first), Ok(()));
    assert_eq!(find_all(text, &mut second), Ok(()));
    assert_eq!(found(&first), found(&second));
    assert_eq!(
        found(&first),
        vec![(1, 8, Some(7)), (2, 5, Some(13)), (2, 9, Some(17)), (3, 2, Some(19)), (4, 1, Some(20))]
    );
    let mut again = first.clone();
    assert_eq!(find_all(text, &mut again), Ok(()));
    assert_eq!(found(&again), found(&first));
}

#[test]
fn each_region_gets_the_text_between_its_ends() {
    let text = "fn main() {\n    let x = 1;\n}\n";
    let regions = vec![region((1, 11), (3, 2)), region((2, 5), (2, 8)), region((1, 1), (1, 3))];
    let pairs = get_region_text(regions.clone(), text).unwrap();
    assert_eq!(pairs.len(), 3);
    assert_eq!(pairs[0], (regions[0], "{\n    let x = 1;\n}"));
    assert_eq!(pairs[1], (regions[1], "let"));
    assert_eq!(pairs[2], (regions[2], "fn"));
}

#[test]
fn region_text_is_cut_by_characters() {
    let text = "h\u{e9}llo w\u{f6}rld";
    let pairs = get_region_text(vec![region((1, 2), (1, 6)), region((1, 7), (1, 12))], text);
    let pairs = pairs.unwrap();
    assert_eq!(pairs[0].1, "\u{e9}llo");
    assert_eq!(pairs[1].1, "w\u{f6}rld");
}

#[test]
fn a_region_may_be_empty_or_reach_the_end() {
    let text = "ab\ncd";
    let pairs =
        get_region_text(vec![region((1, 2), (1, 2)), region((1, 1), (2, 3))], text).unwrap();
    assert_eq!(pairs[0].1, "");
    assert_eq!(pairs[1].1, "ab\ncd");
}

#[test]
fn a_region_that_ends_before_it_starts_has_no_text() {
    let pairs = get_region_text(vec![region((2, 2), (1, 1))], "ab\ncd").unwrap();
    assert_eq!(pairs[0].1, "");
    assert_eq!(pairs[0].0, region((2, 2), (1, 1)));
}

#[test]
fn no_regions_no_text() {
    assert_eq!(get_region_text(Vec::new(), "abc"), Ok(Vec::new()));
}

#[test]
fn a_region_beyond_the_text_is_not_found() {
    assert_eq!(
        get_region_text(vec![region((1, 1), (1, 2)), region((1, 1), (7, 1))], "ab\ncd"),
        Err(PositionNotFound)
    );
    assert_eq!(get_region_text(vec![region((4, 1), (1, 1))], "ab\ncd"), Err(PositionNotFound));
}

#[test]
fn text_without_whitespace_at_its_ends_is_left_alone() {
    let r = region((1, 11), (3, 2));
    assert_eq!(shrinkwrap(r, "{\n    let x = 1;\n}"), r);
}

#[test]
fn whitespace_at_both_ends_is_cut_off() {
    let wrapped = shrinkwrap(region((2, 1), (3, 1)), "    let x = 1;\n");
    assert_eq!(wrapped, region((2, 5), (2, 15)));
}

#[test]
fn leading_line_feeds_move_the_start_down() {
    let wrapped = shrinkwrap(region((1, 5), (4, 1)), "\n\n  foo  \n");
    assert_eq!(wrapped, region((3, 3), (3, 6)));
}

#[test]
fn whitespace_inside_the_code_is_kept() {
    let wrapped = shrinkwrap(region((7, 2), (9, 4)), " a\n b \n   ");
    assert_eq!(wrapped, region((7, 3), (8, 3)));
}

#[test]
fn other_whitespace_than_blanks_counts() {
    let wrapped = shrinkwrap(region((1, 1), (1, 9)), "\t\u{a0}\r x\u{2003}\t");
    assert_eq!(wrapped, region((1, 5), (1, 6)));
}

#[test]
fn nothing_but_whitespace_shrinks_to_the_start() {
    let wrapped = shrinkwrap(region((4, 3), (5, 3)), "   \n  ");
    assert_eq!(wrapped, region((4, 3), (4, 3)));
    assert_eq!(shrinkwrap(region((4, 3), (4, 4)), " "), region((4, 3), (4, 3)));
    assert_eq!(shrinkwrap(region((4, 3), (5, 1)), "\n"), region((4, 3), (4, 3)));
}

#[test]
fn no_text_shrinks_to_the_start() {
    assert_eq!(shrinkwrap(region((4, 3), (4, 3)), ""), region((4, 3), (4, 3)));
    assert_eq!(shrinkwrap(region((4, 3), (9, 9)), ""), region((4, 3), (4, 3)));
}

#[test]
fn shrinking_keeps_identifier_count_and_flags() {
    let r = Region { id: 5, start: (1, 1), end: (1, 4), count: 8, has_count: false, is_gap: true };
    assert_eq!(
        shrinkwrap(r, " x "),
        Region { id: 5, start: (1, 2), end: (1, 3), count: 8, has_count: false, is_gap: true }
    );
}

#[test]
fn shrinking_twice_changes_nothing_more() {
    let text = "ab\n  \n  foo(\n  1)  \n\nz";
    let r = region((1, 3), (5, 1));
    let span = get_region_text(vec![r], text).unwrap()[0].1;
    assert_eq!(span, "\n  \n  foo(\n  1)  \n");
    let once = shrinkwrap(r, span);
    assert_eq!(once, region((3, 3), (4, 5)));
    let rest = get_region_text(vec![once], text).unwrap()[0].1;
    assert_eq!(rest, span.trim());
    assert_eq!(shrinkwrap(once, rest), once);

    let blank = shrinkwrap(region((2, 1), (3, 1)), "  \n");
    let rest = get_region_text(vec![blank], text).unwrap()[0].1;
    assert_eq!(rest, "");
    assert_eq!(shrinkwrap(blank, rest), blank);
}

#[test]
fn a_narrowed_interval_lies_inside_the_one_it_came_from() {
    let wrapped = shrinkwrap(region((3, 7), (6, 1)), " \n\t if a {\n b }\n \n");
    assert_eq!(wrapped, region((4, 3), (5, 5)));
    assert!((3, 7) <= wrapped.start && wrapped.start <= wrapped.end && wrapped.end <= (7, 1));
}

#[test]
fn lines_and_columns_must_stay_in_range_up_to_the_end_of_the_code() {
    let far_right = region((1, usize::MAX), (1, usize::MAX));
    assert!(can_shrinkwrap(&far_right, ""));
    assert!(!can_shrinkwrap(&far_right, "a"));
    assert!(can_shrinkwrap(&far_right, "\n"));
    assert!(can_shrinkwrap(&far_right, "\nabc"));
    assert!(can_shrinkwrap(&far_right, "  \t "));
    assert!(!can_shrinkwrap(&far_right, "  \t a"));
    let far_down = region((usize::MAX, 1), (usize::MAX, 1));
    assert!(can_shrinkwrap(&far_down, "abc"));
    assert!(can_shrinkwrap(&far_down, "abc\n"));
    assert!(can_shrinkwrap(&far_down, "abc\n \n\n"));
    assert!(!can_shrinkwrap(&far_down, "abc\nd"));
    assert!(!can_shrinkwrap(&far_down, "abc\n \n d"));
    assert!(can_shrinkwrap(&region((usize::MAX - 1, usize::MAX - 2), (1, 1)), "ab\nc"));
    assert!(!can_shrinkwrap(&region((usize::MAX - 1, usize::MAX - 2), (1, 1)), "abc\n"));
    assert!(can_shrinkwrap(&region((1, 1), (1, 1)), "fn main() {}\n"));
}

#[test]
fn narrowing_works_wherever_the_code_fits() {
    assert_eq!(
        shrinkwrap(region((usize::MAX - 1, usize::MAX - 2), (1, 1)), " b\n"),
        region((usize::MAX - 1, usize::MAX - 1), (usize::MAX - 1, usize::MAX))
    );
    let far_right = region((1, usize::MAX), (2, 1));
    assert_eq!(shrinkwrap(far_right, " \t "), region((1, usize::MAX), (1, usize::MAX)));
    assert_eq!(
        shrinkwrap(region((usize::MAX, 2), (1, 1)), "ab \n\n"),
        region((usize::MAX, 2), (usize::MAX, 4))
    );
    assert_eq!(
        shrinkwrap_checked(region((1, usize::MAX - 1), (9, 9)), "a   "),
        Some(region((1, usize::MAX - 1), (1, usize::MAX)))
    );
    assert_eq!(shrinkwrap_checked(far_right, "a"), None);
    assert_eq!(shrinkwrap_checked(far_right, "  a"), None);
    assert_eq!(shrinkwrap_checked(region((usize::MAX, 1), (1, 1)), "a\nb"), None);
    assert_eq!(
        shrinkwrap_checked(region((2, 1), (3, 1)), "    let x = 1;\n"),
        Some(region((2, 5), (2, 15)))
    );
}

#[test]
fn text_that_is_all_code_at_its_ends_is_left_alone() {
    let r = region((5, 3), (7, 2));
    assert_eq!(shrinkwrap(r, "if a {\n \t\n}"), r);
}

#[test]
fn whitespace_before_the_code_moves_the_start() {
    let state = Shrink { start: (2, 5), end: (2, 5), running: (2, 5), seen: false };
    assert_eq!(
        shrink_step(state, ' ', true),
        Shrink { start: (2, 6), end: (2, 5), running: (2, 6), seen: false }
    );
    assert_eq!(
        shrink_step(state, '\n', true),
        Shrink { start: (3, 1), end: (2, 5), running: (3, 1), seen: false }
    );
}

#[test]
fn code_moves_the_end_to_just_after_itself() {
    let state = Shrink { start: (2, 6), end: (2, 5), running: (2, 6), seen: false };
    let after = shrink_step(state, 'x', false);
    assert_eq!(after, Shrink { start: (2, 6), end: (2, 7), running: (2, 7), seen: true });
    let later = Shrink { start: (2, 6), end: (2, 7), running: (4, 2), seen: true };
    assert_eq!(
        shrink_step(later, 'y', false),
        Shrink { start: (2, 6), end: (4, 3), running: (4, 3), seen: true }
    );
}

#[test]
fn whitespace_after_code_moves_neither_end() {
    let state = Shrink { start: (2, 6), end: (2, 7), running: (2, 7), seen: true };
    assert_eq!(
        shrink_step(state, ' ', true),
        Shrink { start: (2, 6), end: (2, 7), running: (2, 8), seen: true }
    );
    assert_eq!(
        shrink_step(state, '\n', true),
        Shrink { start: (2, 6), end: (2, 7), running: (3, 1), seen: true }
    );
}

#[test]
fn a_step_goes_by_the_answer_it_is_given() {
    let state = Shrink { start: (1, 1), end: (1, 1), running: (1, 1), seen: false };
    assert_eq!(
        shrink_step(state, ' ', false),
        Shrink { start: (1, 1), end: (1, 2), running: (1, 2), seen: true }
    );
    assert_eq!(
        shrink_step(state, 'x', true),
        Shrink { start: (1, 2), end: (1, 1), running: (1, 2), seen: false }
    );
    assert_eq!(
        shrink_step(state, '\n', false),
        Shrink { start: (1, 1), end: (2, 1), running: (2, 1), seen: true }
    );
}
