use delta_html::{parser, Attributes, DeltaOp, Insert, Mention};

fn text(s: &str, attributes: Option<Attributes>) -> DeltaOp {
    DeltaOp { insert: Insert::Text(String::from(s)), attributes }
}

fn embed(insert: Insert, attributes: Option<Attributes>) -> DeltaOp {
    DeltaOp { insert, attributes }
}

fn list(kind: &str, indent: u64) -> Option<Attributes> {
    Some(Attributes { list: Some(String::from(kind)), indent, ..Attributes::new() })
}

fn alt(s: &str) -> Option<Attributes> {
    Some(Attributes { alt: Some(String::from(s)), ..Attributes::new() })
}

#[test]
fn test_base() {
    let result = parser(vec![text("hello world\n", None)]);
    assert_eq!(result, String::from("<p>hello world</p>"));
}

#[test]
fn test_with_attr() {
    let result = parser(vec![
        text(
            "hello world",
            Some(Attributes {
                underline: true,
                strike: true,
                italic: true,
                bold: true,
                link: Some(String::from("https://www.test.com")),
                ..Attributes::new()
            }),
        ),
        text("\n", None),
    ]);
    assert_eq!(result, String::from("<p><u><s><a href=\"https://www.test.com\" rel=\"noopener noreferrer\" target=\"_blank\" title=\"https://www.test.com\"><em><strong>hello world</strong></em></a></s></u></p>"));
}

#[test]
fn test_with_more_attr() {
    let result = parser(vec![
        text(
            "hello world",
            Some(Attributes {
                size: Some(String::from("30px")),
                font: Some(String::from("Montserrat-Medium")),
                ..Attributes::new()
            }),
        ),
        text("\n", None),
    ]);
    assert_eq!(
        result,
        String::from("<p><span style=\"font-family: Montserrat-Medium; font-size: 30px; \">hello world</span></p>")
    );
}

#[test]
fn test_with_list_1() {
    let result = parser(vec![
        text("1", None),
        text("23", Some(Attributes { bold: true, ..Attributes::new() })),
        text("\n", list("ordered", 0)),
        text(
            "abc",
            Some(Attributes {
                italic: true,
                link: Some(String::from("abc")),
                strike: true,
                underline: true,
                ..Attributes::new()
            }),
        ),
        text("➗", Some(Attributes { link: Some(String::from("abc")), ..Attributes::new() })),
        text("\n", list("ordered", 0)),
    ]);
    assert_eq!(result, String::from("<ol><li>1<strong>23</strong></li><li><u><s><a href=\"abc\" rel=\"noopener noreferrer\" target=\"_blank\" title=\"abc\"><em>abc</em></a></s></u><a href=\"abc\" rel=\"noopener noreferrer\" target=\"_blank\" title=\"abc\">➗</a></li></ol>"));
}

#[test]
fn test_with_paste_1() {
    let center = || Some(Attributes { align: Some(String::from("center")), ..Attributes::new() });
    let result = parser(vec![
        text("Re So So Si Do Si La", None),
        text("\n", center()),
        text("So La Si Si Si Si La Si La So", None),
        text("\n", center()),
        text("\n", None),
    ]);
    assert_eq!(result, String::from("<p class=\"ql-align-center\">Re So So Si Do Si La</p><p class=\"ql-align-center\">So La Si Si Si Si La Si La So</p><p><br></p>"));
}

#[test]
fn test_with_paste_2() {
    let color = |c: &str| Some(Attributes { color: Some(String::from(c)), ..Attributes::new() });
    let result = parser(vec![
        text("Your import fails because the ", color("#242729")),
        text(
            "FromStr",
            Some(Attributes {
                code: true,
                background: Some(String::from("var(--black-075)")),
                color: Some(String::from("#242729")),
                ..Attributes::new()
            }),
        ),
        text(" trait is now ", color("#242729")),
        text(
            "std::str::FromStr",
            Some(Attributes {
                background: Some(String::from("var(--black-075)")),
                code: true,
                color: Some(String::from("var(--black-800)")),
                link: Some(String::from("https://doc.rust-lang.org/std/str/trait.FromStr.html")),
                ..Attributes::new()
            }),
        ),
        text("\n", None),
    ]);
    assert_eq!(result, String::from("<p><span style=\"color: #242729; \">Your import fails because the </span><code style=\"background-color: var(--black-075); color: #242729; \">FromStr</code><span style=\"color: #242729; \"> trait is now </span><a href=\"https://doc.rust-lang.org/std/str/trait.FromStr.html\" rel=\"noopener noreferrer\" target=\"_blank\" title=\"https://doc.rust-lang.org/std/str/trait.FromStr.html\" style=\"background-color: var(--black-075); color: var(--black-800); \"><code>std::str::FromStr</code></a></p>"));
}

#[test]
fn test_mention() {
    let result = parser(vec![
        embed(
            Insert::Mention(Mention {
                index: String::from("1"),
                id: String::from("96"),
                value: String::from("Alan"),
            }),
            None,
        ),
        text(" aaa\n", None),
    ]);
    assert_eq!(result, String::from("<p><span class=\"mention\" data-index=\"1\" data-denotation-char=\"@\" data-id=\"96\" data-value=\"Alan\">&#xFEFF;<span contenteditable=\"false\"><span class=\"ql-mention-denotation-char\">@</span>Alan</span>&#xFEFF;</span> aaa</p>"));
}

#[test]
fn test_image() {
    let result = parser(vec![
        text("asd\n", None),
        embed(Insert::Image(String::from("path/to/image")), alt("WeChat Image_20210616141455.png")),
        text("\n", list("ordered", 0)),
        text("sss\n", None),
    ]);
    assert_eq!(result, String::from("<p>asd</p><ol><li><img src=\"path/to/image\" alt=\"WeChat Image_20210616141455.png\"></li></ol><p>sss</p>"));
}

#[test]
fn test_attach() {
    let result = parser(vec![
        text("asd\n", None),
        embed(Insert::Attach(String::from("path/to/image.webp")), alt("WeChat Image_20210616141455.png")),
        embed(Insert::Attach(String::from("path/to/video.mp4")), alt("WeChat Image_20210616141455.mp4")),
        text("sss\n", None),
    ]);
    assert_eq!(result, String::from("<p>asd</p><p><img src=\"path/to/image.webp\" alt=\"WeChat Image_20210616141455.png\"><video src=\"path/to/video.mp4\" alt=\"WeChat Image_20210616141455.mp4\" controls>sss</p>"));
}

#[test]
fn test_last_line_without_wrap() {
    let result = parser(vec![
        text(" image.png", Some(Attributes { link: Some(String::from("path/to/image")), ..Attributes::new() })),
        text("", None),
    ]);
    assert_eq!(result, String::from("<p><a href=\"path/to/image\" rel=\"noopener noreferrer\" target=\"_blank\" title=\"path/to/image\"> image.png</a></p>"));
}

#[test]
fn test_code_block() {
    let code = || Some(Attributes { code_block: true, ..Attributes::new() });
    let result = parser(vec![
        text("package newproject;", None),
        text("\n", code()),
        text("import org.openqa.selenium.By;", None),
        text("\n", code()),
        text("aaa", Some(Attributes { bold: true, italic: true, ..Attributes::new() })),
        text("\n", list("ordered", 0)),
    ]);
    assert_eq!(result, String::from("<pre class=\"ql-syntax\" spellcheck=\"false\">package newproject;\nimport org.openqa.selenium.By;\n</pre><ol><li><em><strong>aaa</strong></em></li></ol>"));
}

#[test]
fn test_intent() {
    let result = parser(vec![
        text("aaa", None),
        text("\n", list("bullet", 0)),
        text("bbb", None),
        text("\n", list("bullet", 1)),
        text("ccc", None),
        text("\n", list("ordered", 0)),
        text("ddd", None),
        text("\n", list("ordered", 1)),
        text("eee", None),
        text("\n", list("ordered", 2)),
        text("fff", None),
        text("\n", list("ordered", 1)),
    ]);
    assert_eq!(
        result,
        String::from("<ul><li>aaa</li><ul><li class=\"ql-indent-1\">bbb</li></ul></ul><ol><li>ccc</li><ol><li class=\"ql-indent-1\">ddd</li><ol><li class=\"ql-indent-2\">eee</li></ol><li class=\"ql-indent-1\">fff</li></ol></ol>")
    );
}

#[test]
fn test_edge_case_1() {
    let result = parser(vec![
        text("\t", None),
        embed(Insert::Image(String::from("path/to/image")), alt("Rotating_earth_(large).gif")),
        text("\n\n", None),
    ]);
    assert_eq!(result, String::from("<p>\t<img src=\"path/to/image\" alt=\"Rotating_earth_(large).gif\"></p><p><br></p>"));
}
