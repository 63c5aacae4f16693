//! Inline markup: a text run wrapped in the tags its attributes call for.
use vstd::prelude::*;

use crate::attributes::Attributes;

verus! {

/// One inline formatter. Formatters are listed in the alphabetical order of
/// the attribute key that asks for them.
#[derive(Clone, Copy, Debug, PartialEq, Eq, Structural)]
pub enum FormatTag {
    Bold,
    Code,
    Italic,
    Link,
    Strike,
    Underline,
    Span,
}

impl FormatTag {
    /// The element's name.
    pub open spec fn tag_spec(self) -> Seq<char> {
        match self {
            FormatTag::Bold => "strong"@,
            FormatTag::Code => "code"@,
            FormatTag::Italic => "em"@,
            FormatTag::Link => "a"@,
            FormatTag::Strike => "s"@,
            FormatTag::Underline => "u"@,
            FormatTag::Span => "span"@,
        }
    }

    pub fn tag(&self) -> (r: &'static str)
        ensures
            r@ == self.tag_spec(),
    {
        match self {
            FormatTag::Bold => "strong",
            FormatTag::Code => "code",
            FormatTag::Italic => "em",
            FormatTag::Link => "a",
            FormatTag::Strike => "s",
            FormatTag::Underline => "u",
            FormatTag::Span => "span",
        }
    }

    /// Wraps `input` in this formatter's element, with `style_input` as its
    /// style where given; a link points at `href`.
    pub fn format(&self, input: String, style_input: &Option<String>, href: &String) -> (r: String)
        ensures
            r@ == format_text(*self, href@, input@, opt_seq(*style_input)),
    {
        let mut r = String::new();
        match self {
            FormatTag::Link => {
                r.append("<a href=\"");
                r.append(href.as_str());
                r.append("\" rel=\"noopener noreferrer\" target=\"_blank\" title=\"");
                r.append(href.as_str());
                r.append("\"");
            },
            _ => {
                r.append("<");
                r.append(self.tag());
            },
        }
        match style_input {
            Some(s) => {
                r.append(" style=\"");
                r.append(s.as_str());
                r.append("\"");
            },
            None => {},
        }
        r.append(">");
        r.append(input.as_str());
        r.append("</");
        r.append(self.tag());
        r.append(">");
        assert(r@ =~= format_text(*self, href@, input@, opt_seq(*style_input)));
        r
    }
}

pub open spec fn opt_seq(o: Option<String>) -> Option<Seq<char>> {
    match o {
        Some(s) => Some(s@),
        None => None,
    }
}

/// The style attribute of an element, if it has a style.
pub open spec fn style_attr(style: Option<Seq<char>>) -> Seq<char> {
    match style {
        Some(s) => " style=\""@ + s + "\""@,
        None => Seq::empty(),
    }
}

/// `input` wrapped in the element of `f`.
pub open spec fn format_text(f: FormatTag, href: Seq<char>, input: Seq<char>, style: Option<Seq<char>>) -> Seq<char> {
    match f {
        FormatTag::Link => "<a href=\""@ + href + "\" rel=\"noopener noreferrer\" target=\"_blank\" title=\""@
            + href + "\""@ + style_attr(style) + ">"@ + input + "</"@ + f.tag_spec() + ">"@,
        _ => "<"@ + f.tag_spec() + style_attr(style) + ">"@ + input + "</"@ + f.tag_spec() + ">"@,
    }
}

pub open spec fn flag(present: bool, f: FormatTag) -> Seq<FormatTag> {
    if present {
        seq![f]
    } else {
        Seq::empty()
    }
}

/// One declaration of the style string, where the attribute is present.
pub open spec fn style_part(prefix: Seq<char>, v: Option<String>) -> Seq<char> {
    match v {
        Some(s) => prefix + s@ + "; "@,
        None => Seq::empty(),
    }
}

/// The style string of an attribute set, in the alphabetical order of the keys.
pub open spec fn style_of(a: Attributes) -> Seq<char> {
    style_part("background-color: "@, a.background) + style_part("color: "@, a.color)
        + style_part("font-family: "@, a.font) + style_part("font-size: "@, a.size)
}

/// The formatters of an attribute set, innermost first; a bare style is
/// carried by a `span`.
pub open spec fn formatters_of(a: Attributes) -> Seq<FormatTag> {
    let fs = flag(a.bold, FormatTag::Bold) + flag(a.code, FormatTag::Code) + flag(
        a.italic,
        FormatTag::Italic,
    ) + flag(a.link is Some, FormatTag::Link) + flag(a.strike, FormatTag::Strike) + flag(
        a.underline,
        FormatTag::Underline,
    );
    if fs.len() == 0 && style_of(a).len() > 0 {
        seq![FormatTag::Span]
    } else {
        fs
    }
}

/// The target of a link, empty where the attribute held no string.
pub open spec fn link_href(a: Attributes) -> Seq<char> {
    match a.link {
        Some(h) => h@,
        None => Seq::empty(),
    }
}

/// `text` wrapped by each formatter of `fs` in turn, without style.
pub open spec fn wrap_plain(fs: Seq<FormatTag>, href: Seq<char>, text: Seq<char>) -> Seq<char>
    decreases fs.len(),
{
    if fs.len() == 0 {
        text
    } else {
        format_text(fs.last(), href, wrap_plain(fs.drop_last(), href, text), None)
    }
}

/// `text` wrapped by each formatter of `fs` in turn; the outermost carries
/// the style, if there is one.
pub open spec fn wrap_all(fs: Seq<FormatTag>, href: Seq<char>, text: Seq<char>, style: Seq<char>) -> Seq<char> {
    if fs.len() == 0 {
        text
    } else {
        format_text(
            fs.last(),
            href,
            wrap_plain(fs.drop_last(), href, text),
            if style.len() > 0 {
                Some(style)
            } else {
                None
            },
        )
    }
}

/// A text run composed with its attributes.
pub open spec fn compose(text: Seq<char>, attr: Option<Attributes>) -> Seq<char> {
    match attr {
        None => text,
        Some(a) => wrap_all(formatters_of(a), link_href(a), text, style_of(a)),
    }
}

/// Formatters nest in the alphabetical order of their keys: with bold,
/// italic, link, strike and underline and no style, the elements from
/// innermost to outermost are `strong`, `em`, `a`, `s`, `u`.
pub proof fn lemma_formatter_order(text: Seq<char>, a: Attributes)
    requires
        a.bold,
        a.italic,
        a.link is Some,
        a.strike,
        a.underline,
        !a.code,
        a.background is None,
        a.color is None,
        a.font is None,
        a.size is None,
    ensures
        compose(text, Some(a)) == ({
            let h = link_href(a);
            format_text(
                FormatTag::Underline,
                h,
                format_text(
                    FormatTag::Strike,
                    h,
                    format_text(
                        FormatTag::Link,
                        h,
                        format_text(FormatTag::Italic, h, format_text(FormatTag::Bold, h, text, None), None),
                        None,
                    ),
                    None,
                ),
                None,
            )
        }),
{
    let fs = formatters_of(a);
    assert(fs =~= seq![
        FormatTag::Bold,
        FormatTag::Italic,
        FormatTag::Link,
        FormatTag::Strike,
        FormatTag::Underline,
    ]);
    assert(style_of(a) =~= Seq::<char>::empty());
    assert(fs.drop_last().drop_last().drop_last().drop_last().drop_last() =~= Seq::<FormatTag>::empty());
    reveal_with_fuel(wrap_plain, 6);
}

fn push_style_part(style: &mut String, prefix: &str, v: &Option<String>)
    ensures
        final(style)@ == old(style)@ + style_part(prefix@, *v),
{
    match v {
        Some(s) => {
            style.append(prefix);
            style.append(s.as_str());
            style.append("; ");
            assert(final(style)@ =~= old(style)@ + style_part(prefix@, *v));
        },
        None => {
            assert(final(style)@ =~= old(style)@ + style_part(prefix@, *v));
        },
    }
}

fn push_flag(fs: &mut Vec<FormatTag>, present: bool, f: FormatTag)
    ensures
        final(fs)@ == old(fs)@ + flag(present, f),
{
    if present {
        fs.push(f);
    }
    assert(final(fs)@ =~= old(fs)@ + flag(present, f));
}

/// Composes `raw_input` with the inline attributes of `attr`.
pub fn format(raw_input: String, attr: &Option<Attributes>) -> (r: String)
    ensures
        r@ == compose(raw_input@, *attr),
{
    let a = match attr {
        Some(a) => a,
        None => {
            return raw_input;
        },
    };
    let mut style = String::new();
    push_style_part(&mut style, "background-color: ", &a.background);
    push_style_part(&mut style, "color: ", &a.color);
    push_style_part(&mut style, "font-family: ", &a.font);
    push_style_part(&mut style, "font-size: ", &a.size);
    assert(style@ =~= style_of(*a));

    let mut formatters: Vec<FormatTag> = Vec::new();
    push_flag(&mut formatters, a.bold, FormatTag::Bold);
    push_flag(&mut formatters, a.code, FormatTag::Code);
    push_flag(&mut formatters, a.italic, FormatTag::Italic);
    push_flag(&mut formatters, a.link.is_some(), FormatTag::Link);
    push_flag(&mut formatters, a.strike, FormatTag::Strike);
    push_flag(&mut formatters, a.underline, FormatTag::Underline);
    assert(formatters@ =~= flag(a.bold, FormatTag::Bold) + flag(a.code, FormatTag::Code) + flag(
        a.italic,
        FormatTag::Italic,
    ) + flag(a.link is Some, FormatTag::Link) + flag(a.strike, FormatTag::Strike) + flag(
        a.underline,
        FormatTag::Underline,
    ));
    if formatters.len() == 0 {
        if style.as_str().is_empty() {
            return raw_input;
        }
        formatters.push(FormatTag::Span);
    }
    assert(formatters@ =~= formatters_of(*a));
    let href = match &a.link {
        Some(h) => h.clone(),
        None => String::new(),
    };
    let with_style: Option<String> = if style.as_str().is_empty() {
        None
    } else {
        Some(style)
    };
    let ghost fs = formatters@;
    let n = formatters.len();
    let mut out = raw_input;
    let mut i: usize = 0;
    while i < n
        invariant
            n == fs.len(),
            formatters@ == fs,
            fs == formatters_of(*a),
            href@ == link_href(*a),
            opt_seq(with_style) == (if style_of(*a).len() > 0 {
                Some(style_of(*a))
            } else {
                None
            }),
            n > 0,
            i <= n,
            i < n ==> out@ == wrap_plain(fs.take(i as int), href@, raw_input@),
            i == n ==> out@ == wrap_all(fs, href@, raw_input@, style_of(*a)),
        decreases n - i,
    {
        assert(fs.take(i + 1).drop_last() =~= fs.take(i as int));
        if i == n - 1 {
            out = formatters[i].format(out, &with_style, &href);
            assert(fs.take(i as int) =~= fs.drop_last());
        } else {
            out = formatters[i].format(out, &None, &href);
        }
        i = i + 1;
    }
    out
}

} // verus!
