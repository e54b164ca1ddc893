use dinamika::{
    common_prefix_chars, in_ranges, infinite, insert_at, is_highlighted, line_start_char,
    prefix_chars, resolve_ranges, rewrite_range, TextPos,
};

#[test]
fn line_start_char_indexes_lines() {
    let t = "abc\nDEF\nxyz";
    assert_eq!(line_start_char(t, 0), 0);
    assert_eq!(line_start_char(t, 1), 4);
    assert_eq!(line_start_char(t, 2), 8);
    assert_eq!(line_start_char(t, 3), t.chars().count());
    assert_eq!(line_start_char(t, 99), t.chars().count());
}

#[test]
fn rewrite_range_replaces_half_open() {
    let t = "abc\nDEF\nxyz";
    assert_eq!(rewrite_range(t, TextPos::Char(0), TextPos::Line(1), "X"), "XDEF\nxyz");
    assert_eq!(rewrite_range(t, TextPos::Line(1), TextPos::End, "Y"), "abc\nY");
    assert_eq!(rewrite_range(t, TextPos::Char(1), TextPos::Char(2), "_"), "a_c\nDEF\nxyz");
}

#[test]
fn rewrite_range_swaps_reversed_bounds() {
    let t = "abcdef";
    assert_eq!(rewrite_range(t, TextPos::Char(4), TextPos::Char(2), "_"), "ab_ef");
}

#[test]
fn rewrite_range_clamps_out_of_range() {
    let t = "abc";
    assert_eq!(rewrite_range(t, TextPos::Char(10), TextPos::Char(20), "Z"), "abcZ");
}

#[test]
fn insert_at_inserts_before_index() {
    assert_eq!(insert_at("héllo", 0, ">"), ">héllo");
    assert_eq!(insert_at("héllo", 2, "-"), "hé-llo");
    assert_eq!(insert_at("abc", 99, "!"), "abc!");
}

#[test]
fn common_prefix_counts_shared_chars() {
    assert_eq!(common_prefix_chars("Hello", "Hello world"), 5);
    assert_eq!(common_prefix_chars("foo", "bar"), 0);
    assert_eq!(common_prefix_chars("", "abc"), 0);
    assert_eq!(common_prefix_chars("abc", "abc"), 3);
}

#[test]
fn prefix_chars_takes_floor_visible() {
    // The visible count is floored by the caller: 0.0, 2.9, 4.0 and 99.0.
    assert_eq!(prefix_chars("abcd", 0.0f32 as usize), "");
    assert_eq!(prefix_chars("abcd", 2.9f32 as usize), "ab");
    assert_eq!(prefix_chars("abcd", 4.0f32 as usize), "abcd");
    assert_eq!(prefix_chars("abcd", 99.0f32 as usize), "abcd");
}

#[test]
fn resolve_ranges_orders_and_resolves_bounds() {
    let text = "foo\nbar\nbaz";
    assert_eq!(
        resolve_ranges(&[(TextPos::Char(0), TextPos::Char(3)), (TextPos::Line(1), TextPos::End)], text),
        vec![(0, 3), (4, 11)]
    );
    assert_eq!(resolve_ranges(&[(TextPos::Char(5), TextPos::Char(2))], text), vec![(2, 5)]);
}

#[test]
fn in_ranges_checks_half_open_membership() {
    let r = [(0, 3), (5, 7)];
    assert!(in_ranges(0, &r));
    assert!(in_ranges(2, &r));
    assert!(!in_ranges(3, &r));
    assert!(!in_ranges(4, &r));
    assert!(in_ranges(6, &r));
    assert!(!in_ranges(7, &r));
}

#[test]
fn alpha_for_dims_outside_ranges() {
    // Highlighted characters are drawn at full opacity, the others dimmed.
    assert!(is_highlighted(0, &[]));
    let r = [(2usize, 5usize)];
    assert!(is_highlighted(2, &r));
    assert!(is_highlighted(4, &r));
    assert!(!is_highlighted(5, &r));
    assert!(!is_highlighted(0, &r));
}

#[test]
fn text_positions_build_and_resolve() {
    assert_eq!(dinamika::text::line(2), TextPos::Line(2));
    assert_eq!(infinite(), TextPos::End);
    assert_eq!(TextPos::from(3usize), TextPos::Char(3));
    let t = "ab\ncd\n";
    assert_eq!(TextPos::Char(1).resolve(t), 1);
    assert_eq!(TextPos::Char(40).resolve(t), 6);
    assert_eq!(TextPos::Line(1).resolve(t), 3);
    assert_eq!(TextPos::Line(2).resolve(t), 6);
    assert_eq!(TextPos::End.resolve(t), 6);
}

#[test]
fn line_start_of_empty_text_is_zero() {
    assert_eq!(line_start_char("", 0), 0);
    assert_eq!(line_start_char("", 5), 0);
    assert_eq!(line_start_char("\n\n", 1), 1);
    assert_eq!(line_start_char("\n\n", 2), 2);
}

#[test]
fn rewrite_with_equal_bounds_inserts() {
    assert_eq!(rewrite_range("abc", TextPos::Char(1), TextPos::Char(1), "XY"), "aXYbc");
    assert_eq!(rewrite_range("abc", TextPos::Char(0), TextPos::End, ""), "");
}

#[test]
fn prefix_chars_counts_characters_not_bytes() {
    assert_eq!(prefix_chars("héllo", 2), "hé");
    assert_eq!(common_prefix_chars("héllo", "hélp"), 3);
}

#[test]
fn resolve_ranges_clamps_to_text() {
    assert_eq!(resolve_ranges(&[(TextPos::Char(9), TextPos::Line(7))], "abc"), vec![(3, 3)]);
    assert_eq!(resolve_ranges(&[], "abc"), Vec::<(usize, usize)>::new());
}
