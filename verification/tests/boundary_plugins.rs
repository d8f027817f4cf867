use mdstream::boundary::strip_up_to_three_leading_spaces;
use mdstream::{BoundaryPlugin, BoundaryUpdate, FenceBoundaryPlugin, TagBoundaryPlugin};

#[test]
fn leading_spaces_are_stripped_up_to_three() {
    assert_eq!(strip_up_to_three_leading_spaces("x"), "x");
    assert_eq!(strip_up_to_three_leading_spaces("  x"), "x");
    assert_eq!(strip_up_to_three_leading_spaces("   x"), "x");
    assert_eq!(strip_up_to_three_leading_spaces("    x"), " x");
    assert_eq!(strip_up_to_three_leading_spaces(""), "");
}

#[test]
fn fence_plugin_has_its_defaults() {
    let p = FenceBoundaryPlugin::default();
    assert_eq!(p.fence_char, ':');
    assert_eq!(p.min_len, 3);
    assert!(p.require_standalone_end);
    let q = FenceBoundaryPlugin::new('%', 2);
    assert_eq!(q.fence_char, '%');
    assert_eq!(q.min_len, 2);
    assert!(q.require_standalone_end);
}

#[test]
fn fence_plugin_opens_on_a_long_enough_run() {
    let p = FenceBoundaryPlugin::triple_colon();
    assert!(p.matches_start(":::warning"));
    assert!(p.matches_start("::::"));
    assert!(p.matches_start("   :::"));
    assert!(!p.matches_start("    :::"));
    assert!(!p.matches_start("::x"));
    assert!(!p.matches_start("x:::"));
    assert!(!p.matches_start(""));
}

#[test]
fn fence_plugin_closes_on_a_run_as_long_as_the_opening() {
    let mut p = FenceBoundaryPlugin::triple_colon();
    p.start("::::note");
    assert_eq!(p.update("::::note"), BoundaryUpdate::Continue);
    assert_eq!(p.update("content"), BoundaryUpdate::Continue);
    assert_eq!(p.update(":::"), BoundaryUpdate::Continue);
    assert_eq!(p.update(":::: x"), BoundaryUpdate::Continue);
    assert_eq!(p.update("  ::::: \t"), BoundaryUpdate::Close);
    assert_eq!(p.update("::::"), BoundaryUpdate::Continue);
}

#[test]
fn fence_plugin_does_not_close_on_its_opening_line() {
    let mut p = FenceBoundaryPlugin::triple_colon();
    p.start(":::");
    assert_eq!(p.update(":::"), BoundaryUpdate::Continue);
    assert_eq!(p.update(":::"), BoundaryUpdate::Close);
}

#[test]
fn fence_plugin_end_need_not_stand_alone_when_told_so() {
    let mut p = FenceBoundaryPlugin::triple_colon();
    p.require_standalone_end = false;
    p.start(":::");
    assert_eq!(p.update(":::"), BoundaryUpdate::Continue);
    assert_eq!(p.update("::: trailing"), BoundaryUpdate::Close);
}

#[test]
fn fence_plugin_reset_closes_the_block() {
    let mut p = FenceBoundaryPlugin::triple_colon();
    p.start(":::");
    assert_eq!(p.update(":::"), BoundaryUpdate::Continue);
    p.reset();
    assert_eq!(p.update(":::"), BoundaryUpdate::Continue);
}

#[test]
fn fence_plugin_with_a_character_beyond_ascii_opens_nothing() {
    let mut p = FenceBoundaryPlugin::new('\u{e9}', 1);
    assert!(!p.matches_start("\u{e9}\u{e9}"));
    p.start("\u{e9}\u{e9}");
    assert_eq!(p.update("\u{e9}\u{e9}"), BoundaryUpdate::Continue);
    assert_eq!(p.update("\u{e9}\u{e9}"), BoundaryUpdate::Continue);
}

#[test]
fn tag_plugin_has_its_defaults() {
    let p = TagBoundaryPlugin::new("tool_call");
    assert_eq!(p.tag, "tool_call");
    assert!(p.case_insensitive);
    assert!(p.allow_attributes);
    assert!(p.require_standalone_end);
    assert_eq!(TagBoundaryPlugin::thinking().tag, "thinking");
}

#[test]
fn tag_plugin_opens_on_its_tag() {
    let p = TagBoundaryPlugin::thinking();
    assert!(p.matches_start("<thinking>"));
    assert!(p.matches_start("<THINKING>"));
    assert!(p.matches_start("   <thinking>"));
    assert!(p.matches_start("<thinking>\n"));
    assert!(p.matches_start("<thinking class=\"x\">"));
    assert!(p.matches_start("<thinking>text"));
    assert!(p.matches_start("    <thinking>"));
    assert!(p.matches_start("    <thinking>\n"));
    assert!(p.matches_start("\t \u{a0}\u{3000}<thinking>"));
    assert!(!p.matches_start("<thinkingx>"));
    assert!(!p.matches_start("<think>"));
    assert!(!p.matches_start("</thinking>"));
    assert!(!p.matches_start("<thinking"));
    assert!(!p.matches_start("x <thinking>"));
    assert!(!p.matches_start("<>"));
    assert!(!p.matches_start(""));
}

#[test]
fn tag_plugin_can_refuse_attributes_and_mind_case() {
    let mut p = TagBoundaryPlugin::thinking();
    p.allow_attributes = false;
    assert!(p.matches_start("<thinking>"));
    assert!(p.matches_start("<thinking \u{3000}>"));
    assert!(!p.matches_start("<thinking class>"));
    p.case_insensitive = false;
    assert!(!p.matches_start("<Thinking>"));
    assert!(p.matches_start("<thinking>"));
}

#[test]
fn tag_plugin_closes_on_its_closing_tag() {
    let mut p = TagBoundaryPlugin::thinking();
    p.start("<thinking>");
    assert_eq!(p.update("<thinking>"), BoundaryUpdate::Continue);
    assert_eq!(p.update("text"), BoundaryUpdate::Continue);
    assert_eq!(p.update(""), BoundaryUpdate::Continue);
    assert_eq!(p.update("</thinking> and more"), BoundaryUpdate::Continue);
    assert_eq!(p.update("</think>"), BoundaryUpdate::Continue);
    assert_eq!(p.update("    </thinking>"), BoundaryUpdate::Continue);
    assert_eq!(p.update("  </THINKING \u{a0}> \n"), BoundaryUpdate::Close);
    assert_eq!(p.update("</thinking>"), BoundaryUpdate::Continue);
}

#[test]
fn tag_plugin_end_need_not_stand_alone_when_told_so() {
    let mut p = TagBoundaryPlugin::thinking();
    p.require_standalone_end = false;
    p.start("<thinking>");
    assert_eq!(p.update("</thinking"), BoundaryUpdate::Continue);
    assert_eq!(p.update("</thinking> and more"), BoundaryUpdate::Close);
}

#[test]
fn tag_plugin_reset_closes_the_block() {
    let mut p = TagBoundaryPlugin::thinking();
    p.start("<thinking>");
    p.reset();
    assert_eq!(p.update("</thinking>"), BoundaryUpdate::Continue);
}

#[test]
fn tag_names_are_made_of_the_documented_characters() {
    assert!(TagBoundaryPlugin::is_tag_name_char(b'a'));
    assert!(TagBoundaryPlugin::is_tag_name_char(b'Z'));
    assert!(TagBoundaryPlugin::is_tag_name_char(b'0'));
    assert!(TagBoundaryPlugin::is_tag_name_char(b'-'));
    assert!(TagBoundaryPlugin::is_tag_name_char(b'_'));
    assert!(TagBoundaryPlugin::is_tag_name_char(b':'));
    assert!(!TagBoundaryPlugin::is_tag_name_char(b' '));
    assert!(!TagBoundaryPlugin::is_tag_name_char(b'>'));
    let p = TagBoundaryPlugin::thinking();
    assert_eq!(p.norm_tag(b"ThInK-1"), b"think-1".to_vec());
}

#[test]
fn tag_plugin_closing_line_keeps_its_limit_of_three_spaces() {
    let mut p = TagBoundaryPlugin::thinking();
    p.start("      <thinking>");
    assert_eq!(p.update("      <thinking>"), BoundaryUpdate::Continue);
    assert_eq!(p.update("    </thinking>"), BoundaryUpdate::Continue);
    assert_eq!(p.update("\t</thinking>"), BoundaryUpdate::Continue);
    assert_eq!(p.update("   </thinking>"), BoundaryUpdate::Close);
}

#[test]
fn plugin_methods_keep_the_settings() {
    let mut p = TagBoundaryPlugin::new("Tool");
    p.case_insensitive = false;
    p.allow_attributes = false;
    p.require_standalone_end = false;
    p.start("<Tool>\n");
    assert_eq!(p.update("<Tool>\n"), BoundaryUpdate::Continue);
    assert_eq!(p.update("A\n"), BoundaryUpdate::Continue);
    p.reset();
    assert_eq!(p.tag, "Tool");
    assert!(!p.case_insensitive);
    assert!(!p.allow_attributes);
    assert!(!p.require_standalone_end);
    assert_eq!(p.update("</Tool>\n"), BoundaryUpdate::Continue);
    assert_eq!(p.update("\n"), BoundaryUpdate::Continue);

    let mut f = FenceBoundaryPlugin::new('%', 2);
    f.require_standalone_end = false;
    f.start("%%%");
    assert_eq!(f.update("%%%"), BoundaryUpdate::Continue);
    assert_eq!(f.update("%%% x"), BoundaryUpdate::Close);
    f.reset();
    assert_eq!(f.fence_char, '%');
    assert_eq!(f.min_len, 2);
    assert!(!f.require_standalone_end);
    assert_eq!(f.update("%%%"), BoundaryUpdate::Continue);
}

#[test]
fn plugin_line_tests_can_be_asked_directly() {
    let f = FenceBoundaryPlugin::triple_colon();
    assert_eq!(f.fence_len_at_start("  ::::x"), 4);
    assert_eq!(f.fence_len_at_start("x"), 0);
    assert!(f.is_end_line(":::: ", 3));
    assert!(!f.is_end_line("::", 3));
    assert!(!f.is_end_line("::: x", 3));
    let t = TagBoundaryPlugin::thinking();
    assert!(t.matches_opening(" \t<Thinking id=\"1\">"));
    assert!(!t.matches_opening("<thinking"));
    assert!(t.matches_closing("   </thinking>  "));
    assert!(!t.matches_closing("    </thinking>"));
    assert!(!t.matches_closing("</thinking> x"));
}
