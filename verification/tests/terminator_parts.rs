use mdstream::pending::balance::{balance_inline_code, balance_katex_block, balance_strikethrough};
use mdstream::pending::emphasis::{
    bold_italic_markers_balanced, count_single_asterisks, count_single_underscores,
    find_first_single_underscore_index, handle_incomplete_bold, handle_incomplete_bold_italic,
    handle_incomplete_double_underscore_italic, handle_incomplete_single_asterisk_italic,
    handle_incomplete_single_underscore_italic, handle_trailing_asterisks_for_underscore,
    insert_closing_underscore, should_skip_asterisk, should_skip_underscore,
};
use mdstream::pending::fences::{
    find_fence_spans, is_within_fence, line_start_indices, parse_fence_line, FenceChar,
    FenceSpan,
};
use mdstream::pending::links::{
    complete_incomplete_link_or_image, find_matching_close_bracket, find_matching_open_bracket,
};
use mdstream::pending::marks::{
    count_triple_asterisks, is_horizontal_rule_line, is_list_marker_at, is_space_or_tab,
    is_within_link_or_image_url, is_within_math_block, is_word_char, is_word_internal,
    whitespace_or_markers_only,
};
use mdstream::pending::window::{
    apply_setext_heading_protection, tail_window, trim_trailing_single_space,
};

#[test]
fn fence_span_contains_its_start_and_not_its_end() {
    let span = FenceSpan { start: 3, end: 7 };
    assert!(!span.contains(2));
    assert!(span.contains(3));
    assert!(span.contains(6));
    assert!(!span.contains(7));
}

#[test]
fn fence_lines_are_recognised() {
    assert_eq!(parse_fence_line("```"), Some((FenceChar::Backtick, 3)));
    assert_eq!(parse_fence_line("   ````rust"), Some((FenceChar::Backtick, 4)));
    assert_eq!(parse_fence_line("~~~~~"), Some((FenceChar::Tilde, 5)));
    assert_eq!(parse_fence_line("    ```"), None);
    assert_eq!(parse_fence_line("``"), None);
    assert_eq!(parse_fence_line("text"), None);
    assert_eq!(parse_fence_line(""), None);
    assert_eq!(parse_fence_line("   "), None);
}

#[test]
fn fence_spans_are_found() {
    let spans = find_fence_spans("a\n```\ncode\n```\nb\n~~~\nopen");
    assert_eq!(spans.spans.len(), 1);
    assert_eq!(spans.spans[0].start, 2);
    assert_eq!(spans.spans[0].end, 15);
    assert_eq!(spans.unclosed_from, Some(17));
    assert!(!is_within_fence(&spans, 1));
    assert!(is_within_fence(&spans, 2));
    assert!(is_within_fence(&spans, 14));
    assert!(!is_within_fence(&spans, 15));
    assert!(is_within_fence(&spans, 17));
    assert!(is_within_fence(&spans, 100));
}

#[test]
fn fence_closes_only_with_the_same_character_and_a_run_as_long() {
    let spans = find_fence_spans("````\n```\n~~~~\n````");
    assert_eq!(spans.spans.len(), 1);
    assert_eq!(spans.spans[0].start, 0);
    assert_eq!(spans.spans[0].end, 18);
    assert_eq!(spans.unclosed_from, None);
}

#[test]
fn text_without_fences_has_no_spans() {
    let spans = find_fence_spans("plain\ntext\n");
    assert!(spans.spans.is_empty());
    assert_eq!(spans.unclosed_from, None);
}

#[test]
fn trimming_takes_one_space_and_no_more() {
    assert_eq!(trim_trailing_single_space("a "), "a");
    assert_eq!(trim_trailing_single_space("a  "), "a  ");
    assert_eq!(trim_trailing_single_space(" "), "");
    assert_eq!(trim_trailing_single_space(""), "");
    assert_eq!(trim_trailing_single_space("a"), "a");
}

#[test]
fn tail_window_gives_the_tail_and_its_offset() {
    assert_eq!(tail_window("hello", 16), ("hello", 0));
    assert_eq!(tail_window("hello", 5), ("hello", 0));
    assert_eq!(tail_window("hello", 2), ("lo", 3));
    assert_eq!(tail_window("hello", 0), ("", 5));
    assert_eq!(tail_window("a\u{4e2d}b", 2), ("b", 4));
    assert_eq!(tail_window("a\u{4e2d}b", 4), ("\u{4e2d}b", 1));
}

#[test]
fn setext_protection_marks_the_four_ambiguous_lines() {
    assert_eq!(apply_setext_heading_protection("a\n-"), "a\n-\u{200B}");
    assert_eq!(apply_setext_heading_protection("a\n--"), "a\n--\u{200B}");
    assert_eq!(apply_setext_heading_protection("a\n="), "a\n=\u{200B}");
    assert_eq!(apply_setext_heading_protection("a\n=="), "a\n==\u{200B}");
    assert_eq!(apply_setext_heading_protection("a\n-- \t"), "a\n--\u{200B}");
    assert_eq!(apply_setext_heading_protection("a\n---"), "a\n---");
    assert_eq!(apply_setext_heading_protection("a\n-="), "a\n-=");
    assert_eq!(apply_setext_heading_protection("a\n - "), "a\n -");
    assert_eq!(apply_setext_heading_protection("-"), "-");
}

#[test]
fn brackets_are_matched_by_depth() {
    assert_eq!(find_matching_open_bracket("a [b [c] d] e", 10), Some(2));
    assert_eq!(find_matching_open_bracket("a [b [c] d] e", 7), Some(5));
    assert_eq!(find_matching_open_bracket("a b] c", 3), None);
    assert_eq!(find_matching_close_bracket("a [b [c] d] e", 2), Some(10));
    assert_eq!(find_matching_close_bracket("a [b [c] d] e", 5), Some(7));
    assert_eq!(find_matching_close_bracket("a [b [c] d", 2), None);
    assert_eq!(find_matching_open_bracket("[a", 2), Some(0));
    assert_eq!(find_matching_open_bracket("", 0), None);
    assert_eq!(find_matching_close_bracket("[a]", 2), None);
    assert_eq!(find_matching_close_bracket("[a]", 3), None);
    assert_eq!(find_matching_close_bracket("[a]", usize::MAX), None);
}

#[test]
fn link_repair_answers_none_where_nothing_is_open() {
    let text = "a [b](c) d";
    let spans = find_fence_spans(text);
    assert_eq!(complete_incomplete_link_or_image(text, &spans, "u:x"), None);
}

#[test]
fn link_repair_closes_the_last_open_bracket() {
    let text = "a [b [c";
    let spans = find_fence_spans(text);
    assert_eq!(
        complete_incomplete_link_or_image(text, &spans, "u:x"),
        Some("a [b [c](u:x)".to_string())
    );
}

#[test]
fn link_repair_skips_brackets_inside_fences() {
    let text = "```\n[a\n```\n";
    let spans = find_fence_spans(text);
    assert_eq!(complete_incomplete_link_or_image(text, &spans, "u:x"), None);
}

#[test]
fn groups_of_three_asterisks_are_counted_by_run() {
    assert_eq!(count_triple_asterisks(""), 0);
    assert_eq!(count_triple_asterisks("**"), 0);
    assert_eq!(count_triple_asterisks("***"), 1);
    assert_eq!(count_triple_asterisks("*** ******"), 3);
    assert_eq!(count_triple_asterisks("a ***** b ****"), 2);
}

#[test]
fn single_asterisks_are_counted() {
    let text = "*a* **b** ***c \\* 2*3";
    let spans = find_fence_spans(text);
    assert_eq!(count_single_asterisks(text, &spans), 3);
    assert!(!should_skip_asterisk(text, 0));
    assert!(should_skip_asterisk(text, 4));
    assert!(should_skip_asterisk(text, 5));
    assert!(!should_skip_asterisk(text, 10));
    assert!(should_skip_asterisk(text, 16));
    assert!(should_skip_asterisk(text, 19));
}

#[test]
fn single_underscores_are_counted() {
    let text = "_a_ __b__ c_d \\_ _e";
    let spans = find_fence_spans(text);
    assert_eq!(count_single_underscores(text, &spans), 3);
    assert!(!should_skip_underscore(text, 0));
    assert!(should_skip_underscore(text, 4));
    assert!(should_skip_underscore(text, 11));
    assert!(should_skip_underscore(text, 15));
    assert_eq!(find_first_single_underscore_index(text, &spans), Some(0));
    assert_eq!(find_first_single_underscore_index("a__b", &find_fence_spans("a__b")), None);
}

#[test]
fn emphasis_steps_work_one_by_one() {
    let none = find_fence_spans("");
    assert_eq!(handle_incomplete_bold("**b", &none), "**b**");
    assert_eq!(handle_incomplete_bold("**b*", &none), "**b*");
    assert_eq!(handle_incomplete_double_underscore_italic("__b", &none), "__b__");
    assert_eq!(handle_incomplete_single_asterisk_italic("*b", &none), "*b*");
    assert_eq!(handle_incomplete_single_asterisk_italic("* b", &none), "* b");
    assert_eq!(handle_incomplete_single_underscore_italic("_b", &none), "_b_");
    assert_eq!(handle_incomplete_single_underscore_italic("**x _b**", &none), "**x _b_**");
    assert_eq!(handle_incomplete_bold_italic("***b", &none), "***b***");
    assert_eq!(handle_incomplete_bold_italic(" **** ", &none), " **** ");
    assert!(bold_italic_markers_balanced("**a** *b*", &none));
    assert!(!bold_italic_markers_balanced("**a** *b", &none));
}

#[test]
fn closing_underscore_goes_before_the_newlines_at_the_end() {
    assert_eq!(insert_closing_underscore("_a"), "_a_");
    assert_eq!(insert_closing_underscore("_a\n\n"), "_a_\n\n");
    assert_eq!(insert_closing_underscore("\n"), "_\n");
    assert_eq!(insert_closing_underscore(""), "_");
}

#[test]
fn underscore_is_closed_inside_trailing_bold() {
    assert_eq!(
        handle_trailing_asterisks_for_underscore("**bold _und**"),
        Some("**bold _und_**".to_string())
    );
    assert_eq!(handle_trailing_asterisks_for_underscore("_und **bold**"), None);
    assert_eq!(handle_trailing_asterisks_for_underscore("**bold _und"), None);
    assert_eq!(handle_trailing_asterisks_for_underscore("**bold und**"), None);
}

#[test]
fn balancing_steps_work_one_by_one() {
    let none = find_fence_spans("");
    assert_eq!(balance_inline_code("a `b", &none), "a `b`");
    assert_eq!(balance_inline_code("a `b` \\`", &none), "a `b` \\`");
    assert_eq!(balance_strikethrough("~~~a", &none), "~~~a~~");
    assert_eq!(balance_strikethrough("~~a~~", &none), "~~a~~");
    assert_eq!(balance_katex_block("$$$ a", &none), "$$$ a$$");
    assert_eq!(balance_katex_block("$$a$$", &none), "$$a$$");
    let text = "```\n` ~~ $$\n```\n";
    let spans = find_fence_spans(text);
    assert_eq!(balance_inline_code(text, &spans), text);
    assert_eq!(balance_strikethrough(text, &spans), text);
    assert_eq!(balance_katex_block(text, &spans), text);
}

#[test]
fn math_is_tracked_from_the_start_of_the_text() {
    assert!(is_within_math_block("$a*b$", 2));
    assert!(!is_within_math_block("$a$ *b", 4));
    assert!(!is_within_math_block("\\$a*b", 3));
    assert!(is_within_math_block("$$\na*b", 4));
    assert!(!is_within_math_block("$$a$$ *b", 6));
    assert!(is_within_math_block("$$a $b$ c", 8));
    assert!(!is_within_math_block("", 0));
}

#[test]
fn link_address_is_recognised_on_its_line() {
    assert!(is_within_link_or_image_url("[a](b_c)", 5));
    assert!(!is_within_link_or_image_url("[a](b_c", 5));
    assert!(!is_within_link_or_image_url("(b_c)", 2));
    assert!(!is_within_link_or_image_url("[a](b\n_c)", 6));
    assert!(!is_within_link_or_image_url("[a](b) _c)", 7));
}

#[test]
fn bullets_are_recognised_at_their_position() {
    assert!(is_list_marker_at("* a", 0));
    assert!(is_list_marker_at("x\n  - a", 4));
    assert!(is_list_marker_at("+\ta", 0));
    assert!(!is_list_marker_at("*a", 0));
    assert!(!is_list_marker_at("a * b", 2));
    assert!(!is_list_marker_at("    * a", 4));
    assert!(!is_list_marker_at("*", 0));
}

#[test]
fn rule_lines_are_recognised() {
    assert!(is_horizontal_rule_line("***", 0, b'*'));
    assert!(is_horizontal_rule_line("a\n * * *\nb", 3, b'*'));
    assert!(!is_horizontal_rule_line("**", 0, b'*'));
    assert!(!is_horizontal_rule_line("*** a", 0, b'*'));
    assert!(is_horizontal_rule_line("___", 1, b'_'));
}

#[test]
fn character_classes_are_as_documented() {
    assert!(is_space_or_tab(b' '));
    assert!(is_space_or_tab(b'\t'));
    assert!(!is_space_or_tab(b'\n'));
    assert!(is_word_char('a'));
    assert!(is_word_char('Z'));
    assert!(is_word_char('7'));
    assert!(is_word_char('_'));
    assert!(is_word_char('\u{e9}'));
    assert!(is_word_char('\u{4e2d}'));
    assert!(!is_word_char('-'));
    assert!(!is_word_char(' '));
    assert!(whitespace_or_markers_only(" \t\n_~*`\u{2003}"));
    assert!(whitespace_or_markers_only(""));
    assert!(!whitespace_or_markers_only(" a "));
}

#[test]
fn word_internal_looks_at_the_characters_around_the_marker() {
    assert!(is_word_internal("a*b", 1));
    assert!(is_word_internal("\u{e9}_\u{e9}", 2));
    assert!(!is_word_internal("*b", 0));
    assert!(!is_word_internal("a*", 1));
    assert!(!is_word_internal("a* b", 1));
    assert!(!is_word_internal("\u{a9}*b", 2));
    assert!(!is_word_internal("-*b", 1));
}

#[test]
fn lines_start_at_zero_and_after_each_newline() {
    assert_eq!(line_start_indices(""), vec![0]);
    assert_eq!(line_start_indices("a"), vec![0]);
    assert_eq!(line_start_indices("a\nbc"), vec![0, 2]);
    assert_eq!(line_start_indices("a\nbc\n"), vec![0, 2, 5]);
    assert_eq!(line_start_indices("\n\n"), vec![0, 1, 2]);
    assert_eq!(line_start_indices("\u{e9}\r\nx"), vec![0, 4]);
}
