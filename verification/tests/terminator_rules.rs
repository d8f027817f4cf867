use mdstream::pending::{terminate_markdown, TerminatorOptions};

fn terminate(text: &str) -> String {
    terminate_markdown(text, &TerminatorOptions::default())
}

#[test]
fn empty_text_stays_empty() {
    assert_eq!(terminate(""), "");
}

#[test]
fn single_trailing_space_is_trimmed_and_hard_break_is_kept() {
    assert_eq!(terminate("Hello "), "Hello");
    assert_eq!(terminate("Hello  "), "Hello  ");
}

#[test]
fn default_options_have_the_documented_values() {
    let opts = TerminatorOptions::default();
    assert!(opts.setext_headings);
    assert!(opts.links);
    assert!(opts.images);
    assert!(opts.emphasis);
    assert!(opts.inline_code);
    assert!(opts.strikethrough);
    assert!(opts.katex_block);
    assert_eq!(opts.incomplete_link_url, "streamdown:incomplete-link");
    assert_eq!(opts.window_bytes, 16384);
}

#[test]
fn setext_protection_keeps_the_text_before_an_empty_line() {
    assert_eq!(terminate("\n-"), "\n-");
    assert_eq!(terminate("text\n\n-"), "text\n\n-");
    assert_eq!(terminate("text\n- "), "text\n-\u{200B}");
    assert_eq!(terminate("text\n-x"), "text\n-x");
}

#[test]
fn setext_protection_can_be_switched_off() {
    let mut opts = TerminatorOptions::default();
    opts.setext_headings = false;
    assert_eq!(terminate_markdown("Some text\n--", &opts), "Some text\n--");
}

#[test]
fn tail_inside_an_open_fence_is_left_alone() {
    let text = "```rust\nlet x = *y + [1";
    assert_eq!(terminate(text), text);
    let tilde = "~~~\n**bold";
    assert_eq!(terminate(tilde), tilde);
}

#[test]
fn closed_fence_is_inert_and_what_follows_is_closed() {
    let text = "```\n*x [y\n```\n**after";
    assert_eq!(terminate(text), "```\n*x [y\n```\n**after**");
}

#[test]
fn incomplete_image_is_dropped() {
    assert_eq!(terminate("See ![alt"), "See ");
    assert_eq!(terminate("See ![alt](http://x"), "See ");
}

#[test]
fn incomplete_link_takes_the_configured_address() {
    let mut opts = TerminatorOptions::default();
    opts.incomplete_link_url = "about:blank".to_string();
    assert_eq!(terminate_markdown("go [here", &opts), "go [here](about:blank)");
    assert_eq!(terminate_markdown("go [here](htt", &opts), "go [here](about:blank)");
}

#[test]
fn links_and_images_can_be_switched_off() {
    let mut opts = TerminatorOptions::default();
    opts.links = false;
    opts.images = false;
    assert_eq!(terminate_markdown("go [here", &opts), "go [here");
}

#[test]
fn link_insertion_ends_the_work() {
    assert_eq!(
        terminate("**bold [link"),
        "**bold [link](streamdown:incomplete-link)"
    );
}

#[test]
fn link_insertion_is_idempotent_after_one_pass() {
    let once = terminate("Text with [incomplete link");
    assert_eq!(once, "Text with [incomplete link](streamdown:incomplete-link)");
    assert_eq!(terminate(&once), once);
    let again = terminate("Visit [our site](https://exa");
    assert_eq!(terminate(&again), again);
}

#[test]
fn complete_link_is_left_alone() {
    let text = "a [b](http://c) d";
    assert_eq!(terminate(text), text);
}

#[test]
fn bold_is_closed() {
    assert_eq!(terminate("**bold"), "**bold**");
    assert_eq!(terminate("**bold** and **more"), "**bold** and **more**");
    assert_eq!(terminate("**bold**"), "**bold**");
}

#[test]
fn bold_without_content_is_left_open() {
    assert_eq!(terminate("**"), "**");
    assert_eq!(terminate("text **"), "text **");
}

#[test]
fn whitespace_after_a_marker_is_no_content() {
    assert_eq!(terminate("**\u{3000}"), "**\u{3000}");
    assert_eq!(terminate("**\u{00A0}\n"), "**\u{00A0}\n");
    assert_eq!(terminate("**\u{3000}x"), "**\u{3000}x**");
}

#[test]
fn double_underscore_is_closed() {
    assert_eq!(terminate("__bold"), "__bold__");
    assert_eq!(terminate("__bold__"), "__bold__");
}

#[test]
fn bold_italic_is_closed() {
    assert_eq!(terminate("***bold italic"), "***bold italic***");
    assert_eq!(terminate("***a*** b"), "***a*** b");
}

#[test]
fn rules_of_asterisks_are_left_alone() {
    assert_eq!(terminate("***"), "***");
    assert_eq!(terminate("****"), "****");
    assert_eq!(terminate("text\n\n* * *"), "text\n\n* * *");
}

#[test]
fn single_asterisk_italic_is_closed() {
    assert_eq!(terminate("an *italic"), "an *italic*");
    assert_eq!(terminate("an *italic* word"), "an *italic* word");
}

#[test]
fn escaped_and_word_internal_asterisks_do_not_count() {
    assert_eq!(terminate("a \\*b"), "a \\*b");
    assert_eq!(terminate("2*3 is six"), "2*3 is six");
}

#[test]
fn bullet_asterisk_does_not_count() {
    assert_eq!(terminate("* item"), "* item");
    assert_eq!(terminate("* item with *ital"), "* item with *ital*");
}

#[test]
fn asterisk_inside_math_does_not_count() {
    assert_eq!(terminate("$x*y$ and *it"), "$x*y$ and *it*");
    assert_eq!(terminate("$x*y$"), "$x*y$");
}

#[test]
fn letters_beyond_ascii_make_a_marker_word_internal() {
    assert_eq!(terminate("a*\u{e9} x"), "a*\u{e9} x");
    assert_eq!(terminate("a_\u{e9} x"), "a_\u{e9} x");
}

#[test]
fn single_underscore_italic_is_closed() {
    assert_eq!(terminate("_ital"), "_ital_");
    assert_eq!(terminate("_ital\n"), "_ital_\n");
    assert_eq!(terminate("_ital_"), "_ital_");
}

#[test]
fn word_internal_underscore_does_not_count() {
    assert_eq!(terminate("snake_case"), "snake_case");
}

#[test]
fn underscore_inside_a_link_address_does_not_count() {
    let text = "[x](http://a_b) c";
    assert_eq!(terminate(text), text);
}

#[test]
fn inline_code_is_closed() {
    assert_eq!(terminate("`code"), "`code`");
    assert_eq!(terminate("`code`"), "`code`");
    assert_eq!(terminate("\\`code"), "\\`code");
}

#[test]
fn strikethrough_is_closed() {
    assert_eq!(terminate("~~strike"), "~~strike~~");
    assert_eq!(terminate("~~strike~~"), "~~strike~~");
}

#[test]
fn block_math_is_closed() {
    assert_eq!(terminate("$$\nx + y"), "$$\nx + y$$");
    assert_eq!(terminate("$$\nx\n$$"), "$$\nx\n$$");
    assert_eq!(terminate("\\$$ x"), "\\$$ x");
}

#[test]
fn each_step_has_its_flag() {
    let mut opts = TerminatorOptions::default();
    opts.emphasis = false;
    assert_eq!(terminate_markdown("**bold `c", &opts), "**bold `c`");
    opts.inline_code = false;
    assert_eq!(terminate_markdown("**bold `c ~~s", &opts), "**bold `c ~~s~~");
    opts.strikethrough = false;
    assert_eq!(terminate_markdown("~~s $$x", &opts), "~~s $$x$$");
    opts.katex_block = false;
    assert_eq!(terminate_markdown("~~s $$x", &opts), "~~s $$x");
}

#[test]
fn balanced_text_is_unchanged() {
    let text = "# Title\n\n**bold** and *it* and `code` and ~~s~~ and [l](u) and $$m$$\n";
    assert_eq!(terminate(text), text);
}

#[test]
fn only_the_tail_window_is_looked_at() {
    let mut opts = TerminatorOptions::default();
    opts.window_bytes = 4;
    assert_eq!(terminate_markdown("**a **b", &opts), "**a **b**");
    opts.window_bytes = 16;
    assert_eq!(terminate_markdown("**a **b", &opts), "**a **b");
}

#[test]
fn the_window_starts_on_a_character_boundary() {
    let mut opts = TerminatorOptions::default();
    opts.window_bytes = 4;
    assert_eq!(terminate_markdown("a\u{e9}**b", &opts), "a\u{e9}**b**");
    opts.window_bytes = 1;
    assert_eq!(terminate_markdown("ab\u{4e2d}", &opts), "ab\u{4e2d}");
}

#[test]
fn closing_underscore_goes_before_the_last_newline_even_after_a_fence() {
    assert_eq!(terminate("_a\n```\nx\n```\n"), "_a\n```\nx\n```_\n");
}

#[test]
fn dropped_image_takes_what_follows_it_along() {
    assert_eq!(terminate("![a\n```\nx\n```\n"), "");
}

#[test]
fn nested_open_brackets_are_closed_one_pass_at_a_time() {
    let once = terminate("[a [b");
    assert_eq!(once, "[a [b](streamdown:incomplete-link)");
    let twice = terminate(&once);
    assert_eq!(
        twice,
        "[a [b](streamdown:incomplete-link)](streamdown:incomplete-link)"
    );
    assert_eq!(terminate(&twice), twice);
}

#[test]
fn neighbours_of_a_marker_are_whole_characters() {
    assert_eq!(terminate("\u{e9}*\u{e9} x"), "\u{e9}*\u{e9} x");
    assert_eq!(terminate("\u{4e2d}_\u{6587} x"), "\u{4e2d}_\u{6587} x");
    assert_eq!(terminate("\u{2014}*a"), "\u{2014}*a*");
    assert_eq!(terminate("a_\u{2014}b"), "a_\u{2014}b_");
}

#[test]
fn link_address_ends_with_its_line() {
    assert_eq!(terminate("[a](b\nc)"), "[a](streamdown:incomplete-link)");
    assert_eq!(terminate("[a](b) c\n(d"), "[a](b) c\n(d");
    assert_eq!(terminate("[a](b\nc"), "[a](streamdown:incomplete-link)");
}
