use mdstream::adapters::pulldown::{
    extract_reference_definition_line, PulldownAdapter, PulldownAdapterOptions,
};
use mdstream::{Block, BlockId, BlockKind, BlockStatus, MdStream, Options, Update};
use pulldown_cmark::{Event, Parser, Tag};

fn committed(id: u64, raw: &str) -> Block {
    Block {
        id: BlockId(id),
        status: BlockStatus::Committed,
        kind: BlockKind::Paragraph,
        raw: raw.to_string(),
        display: None,
    }
}

fn update_of(blocks: Vec<Block>, invalidated: Vec<BlockId>) -> Update {
    Update { committed: blocks, pending: None, invalidated }
}

fn parse(text: &str, bits: u32) -> Vec<Event<'static>> {
    Parser::new_ext(text, pulldown_cmark::Options::from_bits_truncate(bits))
        .map(|e| e.into_static())
        .collect()
}

fn has_link(events: &[Event<'static>]) -> bool {
    events.iter().any(|e| matches!(e, Event::Start(Tag::Link { .. })))
}

#[test]
fn adapter_options_have_their_defaults() {
    let opts = PulldownAdapterOptions::default();
    assert_eq!(opts.pulldown, 0);
    assert!(opts.prefer_display_for_pending);
}

#[test]
fn committed_blocks_are_parsed_and_kept() {
    let mut a = PulldownAdapter::new(PulldownAdapterOptions::default());
    a.apply_update(&update_of(vec![committed(1, "# T\n"), committed(2, "some *text*\n")], vec![]));
    assert_eq!(a.committed_events(BlockId(1)).unwrap(), parse("# T\n", 0).as_slice());
    assert_eq!(a.committed_events(BlockId(2)).unwrap(), parse("some *text*\n", 0).as_slice());
    assert_eq!(a.committed_events(BlockId(2)).unwrap().len(), 6);
    assert!(a.committed_events(BlockId(3)).is_none());
}

#[test]
fn option_bits_reach_the_parser() {
    let mut plain = PulldownAdapter::default();
    plain.apply_update(&update_of(vec![committed(1, "~~s~~\n")], vec![]));
    let strike = pulldown_cmark::Options::ENABLE_STRIKETHROUGH.bits();
    let mut with =
        PulldownAdapter::new(PulldownAdapterOptions { pulldown: strike, prefer_display_for_pending: true });
    with.apply_update(&update_of(vec![committed(1, "~~s~~\n")], vec![]));
    assert_eq!(plain.committed_events(BlockId(1)).unwrap(), parse("~~s~~\n", 0).as_slice());
    assert_eq!(with.committed_events(BlockId(1)).unwrap(), parse("~~s~~\n", strike).as_slice());
    assert_ne!(
        plain.committed_events(BlockId(1)).unwrap(),
        with.committed_events(BlockId(1)).unwrap()
    );
}

#[test]
fn definitions_seen_so_far_are_parsed_with_each_block() {
    let mut a = PulldownAdapter::default();
    a.apply_update(&update_of(
        vec![committed(1, "[ref]: http://example.com\n"), committed(2, "see [ref]\n")],
        vec![],
    ));
    let events = a.committed_events(BlockId(2)).unwrap();
    assert!(has_link(events));
    assert_eq!(events, parse("[ref]: http://example.com\n\nsee [ref]\n", 0).as_slice());
}

#[test]
fn blocks_before_their_definition_are_parsed_again_on_request() {
    let mut a = PulldownAdapter::default();
    a.apply_update(&update_of(vec![committed(1, "see [ref]\n")], vec![]));
    assert!(!has_link(a.committed_events(BlockId(1)).unwrap()));
    a.apply_update(&update_of(vec![committed(2, "[REF]: http://example.com\n")], vec![]));
    assert!(!has_link(a.committed_events(BlockId(1)).unwrap()));
    a.apply_update(&update_of(vec![], vec![BlockId(1), BlockId(9)]));
    assert!(has_link(a.committed_events(BlockId(1)).unwrap()));
    assert!(a.committed_events(BlockId(9)).is_none());
}

#[test]
fn later_definition_takes_the_place_of_the_earlier() {
    let mut a = PulldownAdapter::default();
    a.apply_update(&update_of(
        vec![
            committed(1, "[a]: http://one\n[b]: http://two\n"),
            committed(2, "[A]: http://three\n"),
            committed(3, "[a] [b]\n"),
        ],
        vec![],
    ));
    assert_eq!(
        a.committed_events(BlockId(3)).unwrap(),
        parse("[A]: http://three\n[b]: http://two\n\n[a] [b]\n", 0).as_slice()
    );
}

#[test]
fn pending_block_is_parsed_from_its_display_text_by_default() {
    let pending = Block {
        id: BlockId(5),
        status: BlockStatus::Pending,
        kind: BlockKind::Paragraph,
        raw: "**bo".to_string(),
        display: Some("**bo**".to_string()),
    };
    let a = PulldownAdapter::default();
    assert_eq!(a.parse_pending(&pending), parse("**bo**", 0));
    let raw_only =
        PulldownAdapter::new(PulldownAdapterOptions { pulldown: 0, prefer_display_for_pending: false });
    assert_eq!(raw_only.parse_pending(&pending), parse("**bo", 0));
    let mut without = pending.clone();
    without.display = None;
    assert_eq!(a.parse_pending(&without), parse("**bo", 0));
}

#[test]
fn clear_forgets_blocks_and_definitions() {
    let mut a = PulldownAdapter::default();
    a.apply_update(&update_of(vec![committed(1, "[ref]: http://x\n")], vec![]));
    a.clear();
    assert!(a.committed_events(BlockId(1)).is_none());
    a.apply_update(&update_of(vec![committed(2, "see [ref]\n")], vec![]));
    assert!(!has_link(a.committed_events(BlockId(2)).unwrap()));
}

#[test]
fn reference_definitions_are_recognised() {
    let d = extract_reference_definition_line("  [Ref One]: http://x  \r").unwrap();
    assert_eq!(d.label, b"ref one".to_vec());
    assert_eq!(d.line, "[Ref One]: http://x");
    assert!(extract_reference_definition_line("[a]: b").is_some());
    assert!(extract_reference_definition_line("[a]:b").is_some());
    assert!(extract_reference_definition_line("[^a]: note").is_none());
    assert!(extract_reference_definition_line("[a]: ").is_none());
    assert!(extract_reference_definition_line("[a]:").is_none());
    assert!(extract_reference_definition_line("[]: b").is_none());
    assert!(extract_reference_definition_line("[a[b]: c").is_none());
    assert!(extract_reference_definition_line("[a] : b").is_none());
    assert!(extract_reference_definition_line("    [a]: b").is_none());
    assert!(extract_reference_definition_line("x [a]: b").is_none());
    assert!(extract_reference_definition_line("").is_none());
}

#[test]
fn adapter_follows_a_stream() {
    let mut s = MdStream::new(Options::default());
    let mut a = PulldownAdapter::default();
    let u1 = s.append("# Title\n\nSome **bo");
    a.apply_update(&u1);
    assert_eq!(u1.committed.len(), 1);
    assert_eq!(a.committed_events(u1.committed[0].id).unwrap(), parse("# Title\n", 0).as_slice());
    assert_eq!(a.parse_pending(u1.pending.as_ref().unwrap()), parse("Some **bo**", 0));
    let u2 = s.finalize();
    a.apply_update(&u2);
    assert_eq!(a.committed_events(u2.committed[0].id).unwrap(), parse("Some **bo", 0).as_slice());
}

#[test]
fn definitions_are_kept_in_the_order_of_their_labels() {
    let mut a = PulldownAdapter::default();
    a.apply_update(&update_of(
        vec![committed(1, "[b]: http://two\n[c]: http://x\n"), committed(2, "[a]: http://one\n")],
        vec![],
    ));
    a.apply_update(&update_of(vec![committed(3, "[C]: http://three\n\n[a] [b] [c]\n")], vec![]));
    assert_eq!(
        a.committed_events(BlockId(3)).unwrap(),
        parse(
            "[a]: http://one\n[b]: http://two\n[C]: http://three\n\n[C]: http://three\n\n[a] [b] [c]\n",
            0
        )
        .as_slice()
    );
}

#[test]
fn one_update_or_two_make_no_difference() {
    let blocks = vec![
        committed(1, "[x]: http://x\n"),
        committed(2, "see [x] and [y]\n"),
        committed(3, "[y]: http://y\n"),
        committed(4, "see [x] and [y]\n"),
    ];
    let mut whole = PulldownAdapter::default();
    whole.apply_update(&update_of(blocks.clone(), vec![]));
    let mut parts = PulldownAdapter::default();
    parts.apply_update(&update_of(blocks[..2].to_vec(), vec![]));
    parts.apply_update(&update_of(blocks[2..].to_vec(), vec![]));
    for id in 0..6 {
        assert_eq!(whole.committed_events(BlockId(id)), parts.committed_events(BlockId(id)));
        assert_eq!(whole.committed_events(BlockId(id)).is_some(), (1..=4).contains(&id));
    }
}
