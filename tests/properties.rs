use delta_html::block_format::{BlockKind, BlockState};
use delta_html::inline_format;
use delta_html::{parser, Attributes, DeltaOp, Insert};

fn text(s: &str, attributes: Option<Attributes>) -> DeltaOp {
    DeltaOp { insert: Insert::Text(String::from(s)), attributes }
}

fn list(kind: &str, indent: u64) -> Option<Attributes> {
    Some(Attributes { list: Some(String::from(kind)), indent, ..Attributes::new() })
}

fn count(haystack: &str, needle: &str) -> usize {
    haystack.matches(needle).count()
}

#[test]
fn empty_insert_gives_nothing() {
    assert_eq!(parser(vec![text("", None)]), String::new());
    assert_eq!(parser(vec![]), String::new());
}

#[test]
fn close_twice_is_empty() {
    let mut state = BlockState::new();
    let attr = Attributes { indent: 2, ..Attributes::new() };
    let opened = state.open_block(&attr, &String::from("bullet"), &String::from("x"));
    assert_eq!(opened, "<ul><li class=\"ql-indent-2\">x</li>");
    assert_eq!(state.check_and_close_current_block(), "</ul></ul></ul>");
    assert_eq!(state.check_and_close_current_block(), "");
}

#[test]
fn close_with_nothing_open_is_empty() {
    let mut state = BlockState::new();
    assert_eq!(state.check_and_close_current_block(), "");
}

#[test]
fn formatters_nest_by_key_order() {
    let attr = Attributes {
        underline: true,
        strike: true,
        italic: true,
        bold: true,
        link: Some(String::from("u")),
        ..Attributes::new()
    };
    let out = inline_format::format(String::from("t"), &Some(attr));
    assert_eq!(out, "<u><s><a href=\"u\" rel=\"noopener noreferrer\" target=\"_blank\" title=\"u\"><em><strong>t</strong></em></a></s></u>");
}

#[test]
fn format_without_attributes_is_unchanged() {
    assert_eq!(inline_format::format(String::from("plain"), &None), "plain");
    assert_eq!(inline_format::format(String::from("plain"), &Some(Attributes::new())), "plain");
}

#[test]
fn format_style_goes_on_outermost_only() {
    let attr = Attributes {
        bold: true,
        italic: true,
        color: Some(String::from("red")),
        background: Some(String::from("blue")),
        ..Attributes::new()
    };
    let out = inline_format::format(String::from("t"), &Some(attr));
    assert_eq!(out, "<em style=\"background-color: blue; color: red; \"><strong>t</strong></em>");
}

#[test]
fn indent_transitions_count_tags() {
    let out = parser(vec![
        text("a", None),
        text("\n", list("bullet", 0)),
        text("b", None),
        text("\n", list("bullet", 1)),
        text("c", None),
        text("\n", list("ordered", 0)),
        text("d", None),
        text("\n", list("ordered", 1)),
        text("e", None),
        text("\n", list("ordered", 2)),
        text("f", None),
        text("\n", list("ordered", 1)),
    ]);
    assert_eq!(count(&out, "<ul>"), 2);
    assert_eq!(count(&out, "</ul>"), 2);
    assert_eq!(count(&out, "<ol>"), 3);
    assert_eq!(count(&out, "</ol>"), 3);
}

#[test]
fn plain_list_item_has_no_class() {
    let mut state = BlockState::new();
    let out = state.open_block(&Attributes::new(), &String::from("ordered"), &String::from("x"));
    assert_eq!(out, "<ol><li>x</li>");
    assert!(!out.contains("class"));
}

#[test]
fn item_class_with_indent_and_align() {
    let mut state = BlockState::new();
    let attr = Attributes { indent: 12, align: Some(String::from("right")), ..Attributes::new() };
    let out = state.open_block(&attr, &String::from("bullet"), &String::from("x"));
    assert_eq!(out, "<ul><li class=\"ql-indent-12 ql-align-right\">x</li>");
    let attr = Attributes { align: Some(String::from("center")), ..Attributes::new() };
    let out = state.open_block(&attr, &String::from("bullet"), &String::from("y"));
    assert_eq!(out, "</ul></ul></ul></ul></ul></ul></ul></ul></ul></ul></ul></ul><li class=\"ql-align-center\">y</li>");
}

#[test]
fn unknown_block_type_emits_nothing() {
    let mut state = BlockState::new();
    let out = state.open_block(&Attributes::new(), &String::from("checked"), &String::from("x"));
    assert_eq!(out, "");
    assert_eq!(state.check_and_close_current_block(), "");
}

#[test]
fn kind_change_to_deeper_indent_closes_one() {
    let mut state = BlockState::new();
    state.open_block(&Attributes::new(), &String::from("bullet"), &String::from("a"));
    let attr = Attributes { indent: 3, ..Attributes::new() };
    let out = state.open_block(&attr, &String::from("ordered"), &String::from("b"));
    assert_eq!(out, "</ul><ol><li class=\"ql-indent-3\">b</li>");
}

#[test]
fn code_block_ignores_indent_and_align() {
    let mut state = BlockState::new();
    let attr = Attributes { indent: 2, align: Some(String::from("right")), ..Attributes::new() };
    let out = state.open_block(&attr, &String::from("code-block"), &String::from("x = 1;"));
    assert_eq!(out, "<pre class=\"ql-syntax\" spellcheck=\"false\">x = 1;\n");
    assert_eq!(state.check_and_close_current_block(), "</pre>");
}

#[test]
fn headers_close_open_lists() {
    let out = parser(vec![
        text("a", None),
        text("\n", list("bullet", 0)),
        text("Title", None),
        text("\n", Some(Attributes { header: Some(2), ..Attributes::new() })),
        text("\n", Some(Attributes { header: Some(10), ..Attributes::new() })),
    ]);
    assert_eq!(out, "<ul><li>a</li></ul><h2>Title</h2><h10><br></h10>");
}

#[test]
fn unrecognised_line_attributes_drop_the_line() {
    let out = parser(vec![
        text("lost", None),
        text("\n", Some(Attributes { bold: true, ..Attributes::new() })),
        text("kept\n", None),
    ]);
    assert_eq!(out, "<p>kept</p>");
}

#[test]
fn unknown_list_type_drops_the_line() {
    let out = parser(vec![text("x", None), text("\n", list("checked", 0))]);
    assert_eq!(out, "");
}

#[test]
fn empty_list_item_keeps_empty_content() {
    let out = parser(vec![text("\n", list("bullet", 0))]);
    assert_eq!(out, "<ul><li></li></ul>");
}

#[test]
fn attachment_kinds_by_extension() {
    let attach = |u: &str| DeltaOp { insert: Insert::Attach(String::from(u)), attributes: None };
    let out = parser(vec![
        attach("a.b.ogg"),
        attach("clip.webm"),
        attach("noext"),
        attach("x.mp4.png"),
        text("\n", None),
    ]);
    assert_eq!(out, "<p><video src=\"a.b.ogg\" alt=\"\" controls><video src=\"clip.webm\" alt=\"\" controls><img src=\"noext\" alt=\"\"><img src=\"x.mp4.png\" alt=\"\"></p>");
}

#[test]
fn other_embeds_are_ignored() {
    let out = parser(vec![
        DeltaOp { insert: Insert::Other, attributes: None },
        text("x\n", None),
    ]);
    assert_eq!(out, "<p>x</p>");
}

#[test]
fn block_kind_names() {
    assert_eq!(BlockKind::from_name(&String::from("ordered")), Some(BlockKind::Ordered));
    assert_eq!(BlockKind::from_name(&String::from("bullet")), Some(BlockKind::Bullet));
    assert_eq!(BlockKind::from_name(&String::from("code-block")), Some(BlockKind::CodeBlock));
    assert_eq!(BlockKind::from_name(&String::from("Ordered")), None);
    assert_eq!(BlockKind::CodeBlock.tag(), "pre");
}

#[test]
fn text_after_newline_in_one_op_is_composed() {
    let bold = Some(Attributes { bold: true, ..Attributes::new() });
    let out = parser(vec![text("a\nb", bold), text("\n", None)]);
    assert_eq!(out, "<p><strong>b</strong></p>");
}
