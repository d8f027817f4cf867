use mdstream::{
    Block, BlockId, BlockKind, BlockStatus, FenceBoundaryPlugin, FnPendingTransformer, MdStream,
    Options, PendingTransformInput, TagBoundaryPlugin, Update,
};

fn blocks_of(chunks: &[&str]) -> Vec<(BlockKind, String)> {
    let mut s = MdStream::new(Options::default());
    let mut out = Vec::new();
    for chunk in chunks {
        let u = s.append(chunk);
        out.extend(u.committed.into_iter().map(|b| (b.kind, b.raw)));
    }
    let u = s.finalize();
    out.extend(u.committed.into_iter().map(|b| (b.kind, b.raw)));
    out
}

fn block(kind: BlockKind, raw: &str) -> (BlockKind, String) {
    (kind, raw.to_string())
}

#[test]
fn empty_update_holds_nothing() {
    let u = Update::empty();
    assert!(u.committed.is_empty());
    assert!(u.pending.is_none());
    assert!(u.invalidated.is_empty());
}

#[test]
fn block_shows_its_display_text_where_it_has_one() {
    let mut b = Block {
        id: BlockId(7),
        status: BlockStatus::Pending,
        kind: BlockKind::Paragraph,
        raw: "**a".to_string(),
        display: Some("**a**".to_string()),
    };
    assert_eq!(b.display_or_raw(), "**a**");
    b.display = None;
    assert_eq!(b.display_or_raw(), "**a");
}

#[test]
fn paragraph_commits_with_its_blank_line() {
    let mut s = MdStream::new(Options::default());
    let u = s.append("A\n\nB");
    assert_eq!(u.committed.len(), 1);
    assert_eq!(u.committed[0].kind, BlockKind::Paragraph);
    assert_eq!(u.committed[0].status, BlockStatus::Committed);
    assert_eq!(u.committed[0].raw, "A\n\n");
    assert_eq!(u.committed[0].display, None);
    let p = u.pending.unwrap();
    assert_eq!(p.kind, BlockKind::Paragraph);
    assert_eq!(p.status, BlockStatus::Pending);
    assert_eq!(p.raw, "B");
    assert_eq!(p.display, Some("B".to_string()));
    assert!(u.invalidated.is_empty());
}

#[test]
fn each_kind_of_block_is_recognised() {
    assert_eq!(blocks_of(&["# Title\n"]), vec![block(BlockKind::Heading, "# Title\n")]);
    assert_eq!(blocks_of(&["###### T\n"]), vec![block(BlockKind::Heading, "###### T\n")]);
    assert_eq!(blocks_of(&["#\n"]), vec![block(BlockKind::Heading, "#\n")]);
    assert_eq!(blocks_of(&["####### T\n"]), vec![block(BlockKind::Paragraph, "####### T\n")]);
    assert_eq!(blocks_of(&["#T\n"]), vec![block(BlockKind::Paragraph, "#T\n")]);
    assert_eq!(blocks_of(&["---\n"]), vec![block(BlockKind::ThematicBreak, "---\n")]);
    assert_eq!(blocks_of(&["* * *\n"]), vec![block(BlockKind::ThematicBreak, "* * *\n")]);
    assert_eq!(blocks_of(&["___\n"]), vec![block(BlockKind::ThematicBreak, "___\n")]);
    assert_eq!(blocks_of(&["--\n"]), vec![block(BlockKind::Paragraph, "--\n")]);
    assert_eq!(blocks_of(&["```\nx\n```\n"]), vec![block(BlockKind::CodeFence, "```\nx\n```\n")]);
    assert_eq!(blocks_of(&["$$\nx\n$$\n"]), vec![block(BlockKind::MathBlock, "$$\nx\n$$\n")]);
    assert_eq!(blocks_of(&["<div>\nx\n"]), vec![block(BlockKind::HtmlBlock, "<div>\nx\n")]);
    assert_eq!(blocks_of(&["</DIV>\n"]), vec![block(BlockKind::HtmlBlock, "</DIV>\n")]);
    assert_eq!(blocks_of(&["<span>\n"]), vec![block(BlockKind::Paragraph, "<span>\n")]);
    assert_eq!(blocks_of(&["- a\n- b\n"]), vec![block(BlockKind::List, "- a\n- b\n")]);
    assert_eq!(blocks_of(&["1. a\n2) b\n"]), vec![block(BlockKind::List, "1. a\n2) b\n")]);
    assert_eq!(blocks_of(&["> a\n> b\n"]), vec![block(BlockKind::BlockQuote, "> a\n> b\n")]);
    assert_eq!(
        blocks_of(&["| a |\n|---|\n| 1 |\n"]),
        vec![block(BlockKind::Table, "| a |\n|---|\n| 1 |\n")]
    );
    assert_eq!(
        blocks_of(&["[^1]: note\n"]),
        vec![block(BlockKind::FootnoteDefinition, "[^1]: note\n")]
    );
    assert_eq!(blocks_of(&["text\n"]), vec![block(BlockKind::Paragraph, "text\n")]);
}

#[test]
fn unfinished_last_line_is_committed_at_the_end() {
    assert_eq!(
        blocks_of(&["A\n\nB"]),
        vec![block(BlockKind::Paragraph, "A\n\n"), block(BlockKind::Paragraph, "B")]
    );
    assert_eq!(blocks_of(&["# T"]), vec![block(BlockKind::Heading, "# T")]);
    assert_eq!(blocks_of(&["```\ncode"]), vec![block(BlockKind::CodeFence, "```\ncode")]);
    assert_eq!(blocks_of(&[""]), Vec::<(BlockKind, String)>::new());
    assert_eq!(blocks_of(&["\n \n\t\n"]), Vec::<(BlockKind, String)>::new());
}

#[test]
fn table_needs_its_delimiter_row() {
    assert_eq!(
        blocks_of(&["a | b\ntext\n\nnext\n"]),
        vec![
            block(BlockKind::Paragraph, "a | b\ntext\n\n"),
            block(BlockKind::Paragraph, "next\n")
        ]
    );
    assert_eq!(blocks_of(&["a | b\n"]), vec![block(BlockKind::Paragraph, "a | b\n")]);
    assert_eq!(
        blocks_of(&["a | b\n\n"]),
        vec![block(BlockKind::Paragraph, "a | b\n\n")]
    );
}

#[test]
fn table_ends_with_a_blank_line_or_before_a_line_without_a_cell() {
    assert_eq!(
        blocks_of(&["|a|\n|-|\n|1|\n\nafter\n"]),
        vec![
            block(BlockKind::Table, "|a|\n|-|\n|1|\n\n"),
            block(BlockKind::Paragraph, "after\n")
        ]
    );
    assert_eq!(
        blocks_of(&["|a|\n|-|\n|1|\n# T\n"]),
        vec![block(BlockKind::Table, "|a|\n|-|\n|1|\n"), block(BlockKind::Heading, "# T\n")]
    );
    assert_eq!(
        blocks_of(&["|a|\n|-|\nx \\| y\n"]),
        vec![block(BlockKind::Table, "|a|\n|-|\n"), block(BlockKind::Paragraph, "x \\| y\n")]
    );
}

#[test]
fn list_takes_in_the_blank_lines_between_its_items() {
    assert_eq!(
        blocks_of(&["- a\n\n- b\n"]),
        vec![block(BlockKind::List, "- a\n\n- b\n")]
    );
    assert_eq!(
        blocks_of(&["- a\n\n\npara\n"]),
        vec![block(BlockKind::List, "- a\n"), block(BlockKind::Paragraph, "para\n")]
    );
    assert_eq!(
        blocks_of(&["- a\npara\n"]),
        vec![block(BlockKind::List, "- a\n"), block(BlockKind::Paragraph, "para\n")]
    );
    assert_eq!(blocks_of(&["- a\n\n"]), vec![block(BlockKind::List, "- a\n")]);
}

#[test]
fn block_quote_takes_in_the_blank_lines_between_its_lines() {
    assert_eq!(
        blocks_of(&["> a\n\n> b\n\n# T\n"]),
        vec![
            block(BlockKind::BlockQuote, "> a\n\n> b\n"),
            block(BlockKind::Heading, "# T\n")
        ]
    );
}

#[test]
fn code_fence_closes_only_at_a_closing_fence_line() {
    assert_eq!(
        blocks_of(&["```\n``` x\n~~~\n  ```` \nafter\n"]),
        vec![
            block(BlockKind::CodeFence, "```\n``` x\n~~~\n  ```` \n"),
            block(BlockKind::Paragraph, "after\n")
        ]
    );
}

#[test]
fn math_block_closes_at_its_delimiter() {
    assert_eq!(
        blocks_of(&["$$\n\nx\n$$ \nafter\n"]),
        vec![
            block(BlockKind::MathBlock, "$$\n\nx\n$$ \n"),
            block(BlockKind::Paragraph, "after\n")
        ]
    );
    assert_eq!(blocks_of(&["$$ x $$\n"]), vec![block(BlockKind::Paragraph, "$$ x $$\n")]);
}

#[test]
fn carriage_returns_belong_to_the_line_end() {
    assert_eq!(
        blocks_of(&["A\r\n\r\n# T\r\nB\r\n"]),
        vec![
            block(BlockKind::Paragraph, "A\r\n\r\n"),
            block(BlockKind::Heading, "# T\r\n"),
            block(BlockKind::Paragraph, "B\r\n")
        ]
    );
    assert_eq!(
        blocks_of(&["A\r", "\n\r", "\n# T\r", "\nB\r", "\n"]),
        blocks_of(&["A\r\n\r\n# T\r\nB\r\n"])
    );
}

#[test]
fn chunking_does_not_change_the_blocks() {
    let text = "# T\n\npara one\nstill\n\n- a\n- b\n\n> q\n\n```\ncode\n\n```\n|a|b|\n|-|-|\n|1|2|\n\n$$\nm\n$$\n<div>\nh\n\nend";
    let whole = blocks_of(&[text]);
    let mut by_char: Vec<String> = Vec::new();
    for c in text.chars() {
        by_char.push(c.to_string());
    }
    let by_char_refs: Vec<&str> = by_char.iter().map(|s| s.as_str()).collect();
    assert_eq!(blocks_of(&by_char_refs), whole);
    let (left, right) = text.split_at(17);
    assert_eq!(blocks_of(&[left, right]), whole);
    assert_eq!(blocks_of(&[left, "", right, ""]), whole);
    assert_eq!(whole.len(), 9);
}

#[test]
fn committed_and_pending_text_make_up_the_input() {
    let mut s = MdStream::new(Options::default());
    let input = "A\nB\n\n- x\n- y\n```\nopen";
    let u = s.append(input);
    let mut joined = String::new();
    for b in &u.committed {
        joined.push_str(&b.raw);
    }
    joined.push_str(&u.pending.as_ref().unwrap().raw);
    assert_eq!(joined, input);
}

#[test]
fn blank_lines_between_blocks_are_left_out() {
    let mut s = MdStream::new(Options::default());
    let u = s.append("# T\n\nB");
    assert_eq!(u.committed.len(), 1);
    assert_eq!(u.committed[0].raw, "# T\n");
    assert_eq!(u.pending.as_ref().unwrap().raw, "B");
}

#[test]
fn identifiers_rise_and_outlive_reset_and_finalize() {
    let mut s = MdStream::new(Options::default());
    let u1 = s.append("# A\n# B\nC");
    assert_eq!(u1.committed[0].id, BlockId(1));
    assert_eq!(u1.committed[1].id, BlockId(2));
    assert_eq!(u1.pending.as_ref().unwrap().id, BlockId(3));
    let u2 = s.append("\n\n");
    assert_eq!(u2.committed[0].id, BlockId(3));
    assert!(u2.pending.is_none());
    s.append("D");
    let u3 = s.finalize();
    assert_eq!(u3.committed[0].id, BlockId(4));
    s.reset();
    let u4 = s.append("# E\n");
    assert_eq!(u4.committed[0].id, BlockId(5));
    assert!(BlockId(4) < BlockId(5));
}

#[test]
fn pending_block_has_the_kind_of_what_is_open() {
    let mut s = MdStream::new(Options::default());
    assert!(s.append("").pending.is_none());
    assert_eq!(s.append("#").pending.unwrap().kind, BlockKind::Heading);
    assert_eq!(s.append("x").pending.unwrap().kind, BlockKind::Paragraph);
    s.reset();
    assert_eq!(s.append("  ").pending.unwrap().kind, BlockKind::Unknown);
    s.reset();
    assert_eq!(s.append("```\nx").pending.unwrap().kind, BlockKind::CodeFence);
    s.reset();
    assert_eq!(s.append("| a |\n").pending.unwrap().kind, BlockKind::Table);
    s.reset();
    assert_eq!(s.append("- a\n\n").pending.unwrap().kind, BlockKind::List);
    s.reset();
    assert_eq!(s.append("$$\n").pending.unwrap().kind, BlockKind::MathBlock);
}

#[test]
fn pending_display_is_the_terminated_text() {
    let mut s = MdStream::new(Options::default());
    let u = s.append("Hello **wor");
    let p = u.pending.unwrap();
    assert_eq!(p.raw, "Hello **wor");
    assert_eq!(p.display, Some("Hello **wor**".to_string()));
    assert_eq!(p.display_or_raw(), "Hello **wor**");
}

#[test]
fn pending_display_follows_the_options() {
    let mut opts = Options::default();
    opts.terminator.emphasis = false;
    let mut s = MdStream::new(opts);
    let p = s.append("Hello **wor").pending.unwrap();
    assert_eq!(p.display, Some("Hello **wor".to_string()));
}

#[test]
fn pending_transformers_are_asked_in_their_order() {
    let mut s = MdStream::new(Options::default());
    s.push_pending_transformer(FnPendingTransformer::new(
        |input: PendingTransformInput<'_>| Some(format!("<{}>", input.display)),
    ));
    s.push_pending_transformer(FnPendingTransformer::new(
        |input: PendingTransformInput<'_>| {
            if input.kind == BlockKind::Heading {
                None
            } else {
                Some(format!("{}|{}", input.raw, input.display))
            }
        },
    ));
    let p = s.append("**a").pending.unwrap();
    assert_eq!(p.raw, "**a");
    assert_eq!(p.display, Some("**a|<**a**>".to_string()));
    s.reset();
    let h = s.append("# t").pending.unwrap();
    assert_eq!(h.display, Some("<# t>".to_string()));
}

#[test]
fn finalize_leaves_an_empty_stream() {
    let mut s = MdStream::new(Options::default());
    s.append("```\nopen");
    let u = s.finalize();
    assert_eq!(u.committed.len(), 1);
    assert!(u.pending.is_none());
    let again = s.finalize();
    assert!(again.committed.is_empty());
    let next = s.append("para\n\n");
    assert_eq!(next.committed.len(), 1);
    assert_eq!(next.committed[0].kind, BlockKind::Paragraph);
    assert_eq!(next.committed[0].raw, "para\n\n");
}

#[test]
fn reset_drops_the_open_block() {
    let mut s = MdStream::new(Options::default());
    s.append("```\nopen\n");
    s.reset();
    let u = s.append("# T\n");
    assert_eq!(u.committed.len(), 1);
    assert_eq!(u.committed[0].kind, BlockKind::Heading);
    assert!(u.pending.is_none());
}

#[test]
fn fence_directive_is_one_custom_block() {
    let mut s =
        MdStream::new(Options::default()).with_boundary_plugin(FenceBoundaryPlugin::triple_colon());
    let u = s.append(":::note\ntext\n\n# not a heading\n:::\nAfter\n");
    assert_eq!(u.committed.len(), 1);
    assert_eq!(u.committed[0].kind, BlockKind::CustomBoundary);
    assert_eq!(u.committed[0].raw, ":::note\ntext\n\n# not a heading\n:::\n");
    assert_eq!(u.pending.unwrap().raw, "After\n");
}

#[test]
fn plugins_are_asked_in_their_order_and_before_markdown() {
    let mut s = MdStream::new(Options::default());
    s.push_boundary_plugin(TagBoundaryPlugin::new("div"));
    s.push_boundary_plugin(FenceBoundaryPlugin::new('<', 1));
    let u = s.append("<div>\n\nx\n</div>\n<p>\n<\n");
    assert_eq!(u.committed.len(), 2);
    assert_eq!(u.committed[0].kind, BlockKind::CustomBoundary);
    assert_eq!(u.committed[0].raw, "<div>\n\nx\n</div>\n");
    assert_eq!(u.committed[1].kind, BlockKind::CustomBoundary);
    assert_eq!(u.committed[1].raw, "<p>\n<\n");
}

#[test]
fn pending_line_that_a_plugin_would_take_is_custom() {
    let mut s =
        MdStream::new(Options::default()).with_boundary_plugin(TagBoundaryPlugin::thinking());
    assert_eq!(s.append("<thinking>").pending.unwrap().kind, BlockKind::CustomBoundary);
    assert_eq!(s.append("\npart").pending.unwrap().kind, BlockKind::CustomBoundary);
    let u = s.finalize();
    assert_eq!(u.committed.len(), 1);
    assert_eq!(u.committed[0].kind, BlockKind::CustomBoundary);
    assert_eq!(u.committed[0].raw, "<thinking>\npart");
}
