//! The operation stream and the driver that turns it into markup.
use vstd::prelude::*;

use crate::attributes::Attributes;
use crate::block_format::{
    balanced, close_all_pieces, lemma_close_all_empties, lemma_render_concat, lemma_render_push,
    lemma_stack_run_concat, lemma_transition_keeps_stack, line_align, line_indent, machine_stack,
    open_block_spec, regular_block_line, render, stack_run, BlockKind, BlockModel, BlockState,
    Piece,
};
use crate::inline_format::compose;
use crate::text::{decimal, push_decimal};

verus! {

/// A mention of another entity.
#[derive(Debug)]
pub struct Mention {
    pub index: String,
    pub id: String,
    pub value: String,
}

/// What an operation inserts.
#[derive(Debug)]
pub enum Insert {
    /// A text run.
    Text(String),
    /// An image, by URL.
    Image(String),
    /// An attachment, by URL; its file extension decides how it is shown.
    Attach(String),
    /// A mention.
    Mention(Mention),
    /// An embedded object of a kind this library does not render.
    Other,
}

/// One operation of a document.
#[derive(Debug)]
pub struct DeltaOp {
    pub insert: Insert,
    pub attributes: Option<Attributes>,
}

/// The driver's state between characters: markup emitted so far, the markup
/// of the line in progress, the block machine, and whether every list line so
/// far kept to the nesting the machine tracks.
pub struct Drive {
    pub out: Seq<Piece>,
    pub reader: Seq<char>,
    pub block: BlockModel,
    pub regular: bool,
}

pub open spec fn initial_drive() -> Drive {
    Drive { out: Seq::empty(), reader: Seq::empty(), block: None, regular: true }
}

/// The content of a paragraph or heading: the line, or a line break where it is empty.
pub open spec fn placeholder(reader: Seq<char>) -> Seq<char> {
    if reader.len() == 0 {
        "<br>"@
    } else {
        reader
    }
}

pub open spec fn header_markup(n: u64, content: Seq<char>) -> Seq<char> {
    "<h"@ + decimal(n as nat) + ">"@ + content + "</h"@ + decimal(n as nat) + ">"@
}

pub open spec fn align_markup(align: Seq<char>, content: Seq<char>) -> Seq<char> {
    "<p class=\"ql-align-"@ + align + "\">"@ + content + "</p>"@
}

pub open spec fn paragraph_markup(content: Seq<char>) -> Seq<char> {
    "<p>"@ + content + "</p>"@
}

/// What ending a line with markup `reader` and line attributes `attrs`
/// emits, and the block state after it.
pub open spec fn line_spec(block: BlockModel, reader: Seq<char>, attrs: Option<Attributes>) -> (
    Seq<Piece>,
    BlockModel,
) {
    let tmp = placeholder(reader);
    match attrs {
        None => (close_all_pieces(block).push(Piece::Text(paragraph_markup(tmp))), None),
        Some(a) => if a.list is Some {
            open_block_spec(block, a, a.list->0@, reader)
        } else if a.code_block {
            open_block_spec(block, a, "code-block"@, reader)
        } else if a.header is Some {
            (close_all_pieces(block).push(Piece::Text(header_markup(a.header->0, tmp))), None)
        } else if a.align is Some {
            (close_all_pieces(block).push(Piece::Text(align_markup(a.align->0@, tmp))), None)
        } else {
            (Seq::empty(), block)
        },
    }
}

pub open spec fn line_regular(block: BlockModel, attrs: Option<Attributes>) -> bool {
    match attrs {
        Some(a) => if a.list is Some {
            regular_block_line(block, a, a.list->0@)
        } else if a.code_block {
            regular_block_line(block, a, "code-block"@)
        } else {
            true
        },
        None => true,
    }
}

pub open spec fn end_line(d: Drive, attrs: Option<Attributes>) -> Drive {
    let (ps, st) = line_spec(d.block, d.reader, attrs);
    Drive {
        out: d.out + ps,
        reader: Seq::empty(),
        block: st,
        regular: d.regular && line_regular(d.block, attrs),
    }
}

/// One character of a text run: a line break ends the line, any other
/// character joins the run in progress.
pub open spec fn scan_char(d: Drive, run: Seq<char>, c: char, attrs: Option<Attributes>) -> (
    Drive,
    Seq<char>,
) {
    if c != '\n' {
        (d, run.push(c))
    } else {
        (end_line(Drive { reader: d.reader + run, ..d }, attrs), Seq::empty())
    }
}

/// The characters of a text run, in order; returns the state and the
/// unterminated run after them.
pub open spec fn scan_text(d: Drive, s: Seq<char>, attrs: Option<Attributes>) -> (Drive, Seq<char>)
    decreases s.len(),
{
    if s.len() == 0 {
        (d, Seq::empty())
    } else {
        let (d1, run) = scan_text(d, s.drop_last(), attrs);
        scan_char(d1, run, s.last(), attrs)
    }
}

pub open spec fn alt_of(attrs: Option<Attributes>) -> Seq<char> {
    match attrs {
        Some(a) => match a.alt {
            Some(s) => s@,
            None => Seq::empty(),
        },
        None => Seq::empty(),
    }
}

/// What follows the last `.` of a path, or the whole path where it has none.
pub open spec fn extension(s: Seq<char>) -> Seq<char>
    decreases s.len(),
{
    if s.len() == 0 {
        s
    } else if s.last() == '.' {
        Seq::empty()
    } else {
        extension(s.drop_last()).push(s.last())
    }
}

pub open spec fn is_video_extension(e: Seq<char>) -> bool {
    e == "mp4"@ || e == "webm"@ || e == "ogg"@
}

pub open spec fn image_markup(url: Seq<char>, alt: Seq<char>) -> Seq<char> {
    "<img src=\""@ + url + "\" alt=\""@ + alt + "\">"@
}

pub open spec fn video_markup(url: Seq<char>, alt: Seq<char>) -> Seq<char> {
    "<video src=\""@ + url + "\" alt=\""@ + alt + "\" controls>"@
}

pub open spec fn mention_markup(m: Mention) -> Seq<char> {
    "<span class=\"mention\" data-index=\""@ + m.index@ + "\" data-denotation-char=\"@\" data-id=\""@
        + m.id@ + "\" data-value=\""@ + m.value@
        + "\">&#xFEFF;<span contenteditable=\"false\"><span class=\"ql-mention-denotation-char\">@</span>"@
        + m.value@ + "</span>&#xFEFF;</span>"@
}

/// The markup of an embedded object.
pub open spec fn embed_markup(insert: Insert, attrs: Option<Attributes>) -> Seq<char> {
    match insert {
        Insert::Image(url) => image_markup(url@, alt_of(attrs)),
        Insert::Attach(url) => if is_video_extension(extension(url@)) {
            video_markup(url@, alt_of(attrs))
        } else {
            image_markup(url@, alt_of(attrs))
        },
        Insert::Mention(m) => mention_markup(m),
        _ => Seq::empty(),
    }
}

/// The state after one operation.
pub open spec fn op_step(d: Drive, op: DeltaOp) -> Drive {
    match op.insert {
        Insert::Text(s) => {
            let (d1, run) = scan_text(d, s@, op.attributes);
            if run.len() > 0 {
                Drive { reader: d1.reader + compose(run, op.attributes), ..d1 }
            } else {
                d1
            }
        },
        _ => Drive { reader: d.reader + embed_markup(op.insert, op.attributes), ..d },
    }
}

/// The state after a sequence of operations.
pub open spec fn run_ops(ops: Seq<DeltaOp>) -> Drive
    decreases ops.len(),
{
    if ops.len() == 0 {
        initial_drive()
    } else {
        op_step(run_ops(ops.drop_last()), ops.last())
    }
}

/// All the pieces of a conversion: what the operations emitted, the last
/// line where it was left open, and the close of any open container.
pub open spec fn finish(d: Drive) -> Seq<Piece> {
    d.out + (if d.reader.len() > 0 {
        seq![Piece::Text(paragraph_markup(d.reader))]
    } else {
        Seq::empty()
    }) + close_all_pieces(d.block)
}

/// The markup of a sequence of operations.
pub open spec fn html_of(ops: Seq<DeltaOp>) -> Seq<char> {
    render(finish(run_ops(ops)))
}

/// The driver's pieces keep the containers that the block machine holds open.
pub open spec fn drive_consistent(d: Drive) -> bool {
    d.regular ==> stack_run(d.out, Seq::empty()) == Some(machine_stack(d.block))
}

proof fn lemma_closing_line_keeps_stack(block: BlockModel, t: Seq<char>)
    ensures
        stack_run(close_all_pieces(block).push(Piece::Text(t)), machine_stack(block)) == Some(
            Seq::<BlockKind>::empty(),
        ),
{
    lemma_close_all_empties(block);
    assert(close_all_pieces(block).push(Piece::Text(t)) =~= close_all_pieces(block) + seq![
        Piece::Text(t),
    ]);
    lemma_stack_run_concat(close_all_pieces(block), seq![Piece::Text(t)], machine_stack(block));
    assert(seq![Piece::Text(t)].drop_first() =~= Seq::<Piece>::empty());
    assert(stack_run(Seq::<Piece>::empty(), Seq::<BlockKind>::empty()) == Some(
        Seq::<BlockKind>::empty(),
    ));
}

proof fn lemma_block_line_keeps_stack(block: BlockModel, a: Attributes, name: Seq<char>, reader: Seq<char>)
    requires
        regular_block_line(block, a, name),
    ensures
        stack_run(open_block_spec(block, a, name, reader).0, machine_stack(block)) == Some(
            machine_stack(open_block_spec(block, a, name, reader).1),
        ),
{
    match BlockKind::from_name_spec(name) {
        Some(k) => lemma_transition_keeps_stack(block, k, line_indent(k, a), line_align(a), reader),
        None => {},
    }
}

proof fn lemma_line_keeps_stack(block: BlockModel, reader: Seq<char>, attrs: Option<Attributes>)
    requires
        line_regular(block, attrs),
    ensures
        stack_run(line_spec(block, reader, attrs).0, machine_stack(block)) == Some(
            machine_stack(line_spec(block, reader, attrs).1),
        ),
{
    let tmp = placeholder(reader);
    match attrs {
        None => lemma_closing_line_keeps_stack(block, paragraph_markup(tmp)),
        Some(a) => if a.list is Some {
            lemma_block_line_keeps_stack(block, a, a.list->0@, reader);
        } else if a.code_block {
            lemma_block_line_keeps_stack(block, a, "code-block"@, reader);
        } else if a.header is Some {
            lemma_closing_line_keeps_stack(block, header_markup(a.header->0, tmp));
        } else if a.align is Some {
            lemma_closing_line_keeps_stack(block, align_markup(a.align->0@, tmp));
        } else {
        },
    }
}

proof fn lemma_scan_consistent(d: Drive, s: Seq<char>, attrs: Option<Attributes>)
    requires
        drive_consistent(d),
    ensures
        drive_consistent(scan_text(d, s, attrs).0),
    decreases s.len(),
{
    if s.len() > 0 {
        lemma_scan_consistent(d, s.drop_last(), attrs);
        let (d1, run) = scan_text(d, s.drop_last(), attrs);
        if s.last() == '\n' {
            let d2 = Drive { reader: d1.reader + run, ..d1 };
            let (ps, st) = line_spec(d2.block, d2.reader, attrs);
            if d2.regular && line_regular(d2.block, attrs) {
                lemma_line_keeps_stack(d2.block, d2.reader, attrs);
                lemma_stack_run_concat(d2.out, ps, Seq::empty());
            }
        }
    }
}

proof fn lemma_run_consistent(ops: Seq<DeltaOp>)
    ensures
        drive_consistent(run_ops(ops)),
    decreases ops.len(),
{
    if ops.len() == 0 {
        assert(stack_run(Seq::<Piece>::empty(), Seq::<BlockKind>::empty()) == Some(
            Seq::<BlockKind>::empty(),
        ));
    } else {
        lemma_run_consistent(ops.drop_last());
        let d = run_ops(ops.drop_last());
        let op = ops.last();
        if let Insert::Text(s) = op.insert {
            lemma_scan_consistent(d, s@, op.attributes);
        }
    }
}

/// Every container that the conversion opens is closed, innermost first, as
/// long as each list line either continues the open container, goes one
/// level deeper in it, or starts a new one at indent 0.
pub proof fn lemma_output_balanced(ops: Seq<DeltaOp>)
    requires
        run_ops(ops).regular,
    ensures
        balanced(finish(run_ops(ops))),
{
    let d = run_ops(ops);
    lemma_run_consistent(ops);
    let last: Seq<Piece> = if d.reader.len() > 0 {
        seq![Piece::Text(paragraph_markup(d.reader))]
    } else {
        Seq::empty()
    };
    lemma_stack_run_concat(d.out, last, Seq::empty());
    if d.reader.len() > 0 {
        assert(last.drop_first() =~= Seq::<Piece>::empty());
        assert(stack_run(Seq::<Piece>::empty(), machine_stack(d.block)) == Some(machine_stack(d.block)));
    } else {
        assert(stack_run(Seq::<Piece>::empty(), machine_stack(d.block)) == Some(machine_stack(d.block)));
    }
    lemma_stack_run_concat(d.out + last, close_all_pieces(d.block), Seq::empty());
    lemma_close_all_empties(d.block);
}

/// The markup that ends a line, given the line's markup and attributes.
fn line_markup(state: &mut BlockState, reader: &String, attrs: &Option<Attributes>) -> (r: String)
    ensures
        r@ == render(line_spec(old(state)@, reader@, *attrs).0),
        final(state)@ == line_spec(old(state)@, reader@, *attrs).1,
{
    let tmp = if reader.as_str().is_empty() {
        String::from_str("<br>")
    } else {
        reader.clone()
    };
    match attrs {
        None => {
            let mut r = state.check_and_close_current_block();
            let ghost closed = r@;
            r.append("<p>");
            r.append(tmp.as_str());
            r.append("</p>");
            proof {
                lemma_render_push(close_all_pieces(old(state)@), Piece::Text(paragraph_markup(tmp@)));
                assert(r@ =~= closed + paragraph_markup(tmp@));
            }
            r
        },
        Some(a) => {
            match &a.list {
                Some(list_type) => {
                    return state.open_block(a, list_type, reader);
                },
                None => {},
            }
            if a.code_block {
                return state.open_block(a, &String::from_str("code-block"), reader);
            }
            match a.header {
                Some(n) => {
                    let mut r = state.check_and_close_current_block();
                    let ghost closed = r@;
                    r.append("<h");
                    push_decimal(&mut r, n);
                    r.append(">");
                    r.append(tmp.as_str());
                    r.append("</h");
                    push_decimal(&mut r, n);
                    r.append(">");
                    proof {
                        lemma_render_push(
                            close_all_pieces(old(state)@),
                            Piece::Text(header_markup(n, tmp@)),
                        );
                        assert(r@ =~= closed + header_markup(n, tmp@));
                    }
                    return r;
                },
                None => {},
            }
            match &a.align {
                Some(al) => {
                    let mut r = state.check_and_close_current_block();
                    let ghost closed = r@;
                    r.append("<p class=\"ql-align-");
                    r.append(al.as_str());
                    r.append("\">");
                    r.append(tmp.as_str());
                    r.append("</p>");
                    proof {
                        lemma_render_push(
                            close_all_pieces(old(state)@),
                            Piece::Text(align_markup(al@, tmp@)),
                        );
                        assert(r@ =~= closed + align_markup(al@, tmp@));
                    }
                    r
                },
                None => String::new(),
            }
        },
    }
}

/// The extension of a path: what follows its last `.`.
fn extension_of(s: &String) -> (r: String)
    ensures
        r@ == extension(s@),
{
    let mut ext = String::new();
    for c in it: s.as_str().chars()
        invariant
            it.seq() == s@,
            ext@ == extension(it.seq().take(it.index() as int)),
    {
        let ghost i = it.index();
        assert(s@.take(i + 1).drop_last() =~= s@.take(i));
        if c == '.' {
            ext = String::new();
        } else {
            ext.push(c);
        }
    }
    assert(s@.take(s@.len() as int) =~= s@);
    ext
}

fn is_video(ext: &String) -> (r: bool)
    ensures
        r == is_video_extension(ext@),
{
    crate::text::same_text(ext, "mp4") || crate::text::same_text(ext, "webm")
        || crate::text::same_text(ext, "ogg")
}

fn push_image(out: &mut String, url: &String, alt: &String)
    ensures
        final(out)@ == old(out)@ + image_markup(url@, alt@),
{
    out.append("<img src=\"");
    out.append(url.as_str());
    out.append("\" alt=\"");
    out.append(alt.as_str());
    out.append("\">");
    assert(final(out)@ =~= old(out)@ + image_markup(url@, alt@));
}

/// Appends the markup of an embedded object to `reader`.
fn push_embed(reader: &mut String, insert: &Insert, attrs: &Option<Attributes>)
    ensures
        final(reader)@ == old(reader)@ + embed_markup(*insert, *attrs),
{
    let alt = match attrs {
        Some(a) => match &a.alt {
            Some(s) => s.clone(),
            None => String::new(),
        },
        None => String::new(),
    };
    match insert {
        Insert::Image(url) => push_image(reader, url, &alt),
        Insert::Attach(url) => {
            let ext = extension_of(url);
            if is_video(&ext) {
                reader.append("<video src=\"");
                reader.append(url.as_str());
                reader.append("\" alt=\"");
                reader.append(alt.as_str());
                reader.append("\" controls>");
                assert(final(reader)@ =~= old(reader)@ + embed_markup(*insert, *attrs));
            } else {
                push_image(reader, url, &alt);
            }
        },
        Insert::Mention(m) => {
            reader.append("<span class=\"mention\" data-index=\"");
            reader.append(m.index.as_str());
            reader.append("\" data-denotation-char=\"@\" data-id=\"");
            reader.append(m.id.as_str());
            reader.append("\" data-value=\"");
            reader.append(m.value.as_str());
            reader.append(
                "\">&#xFEFF;<span contenteditable=\"false\"><span class=\"ql-mention-denotation-char\">@</span>",
            );
            reader.append(m.value.as_str());
            reader.append("</span>&#xFEFF;</span>");
            assert(final(reader)@ =~= old(reader)@ + embed_markup(*insert, *attrs));
        },
        Insert::Text(_) | Insert::Other => {
            assert(final(reader)@ =~= old(reader)@ + embed_markup(*insert, *attrs));
        },
    }
}

/// Converts a sequence of operations into markup.
pub fn parser(delta_ops: Vec<DeltaOp>) -> (r: String)
    ensures
        r@ == html_of(delta_ops@),
{
    let mut html = String::new();
    let mut reader = String::new();
    let mut block_state = BlockState::new();
    let ghost mut out: Seq<Piece> = Seq::empty();
    let ghost mut regular = true;
    let n = delta_ops.len();
    let mut i: usize = 0;
    while i < n
        invariant
            n == delta_ops@.len(),
            i <= n,
            html@ == render(out),
            (Drive { out, reader: reader@, block: block_state@, regular }) == run_ops(
                delta_ops@.take(i as int),
            ),
        decreases n - i,
    {
        let op = &delta_ops[i];
        let ghost d0 = Drive { out, reader: reader@, block: block_state@, regular };
        assert(delta_ops@.take(i + 1).drop_last() =~= delta_ops@.take(i as int));
        match &op.insert {
            Insert::Text(str_insert) => {
                let mut inner_reader = String::new();
                for c in it: str_insert.as_str().chars()
                    invariant
                        it.seq() == str_insert@,
                        html@ == render(out),
                        ((Drive { out, reader: reader@, block: block_state@, regular }),
                        inner_reader@) == scan_text(
                            d0,
                            it.seq().take(it.index() as int),
                            op.attributes,
                        ),
                {
                    let ghost k = it.index();
                    assert(str_insert@.take(k + 1).drop_last() =~= str_insert@.take(k));
                    if c != '\n' {
                        inner_reader.push(c);
                    } else {
                        reader.append(inner_reader.as_str());
                        inner_reader = String::new();
                        let ghost block0 = block_state@;
                        let pending = line_markup(&mut block_state, &reader, &op.attributes);
                        proof {
                            lemma_render_concat(out, line_spec(block0, reader@, op.attributes).0);
                            regular = regular && line_regular(block0, op.attributes);
                            out = out + line_spec(block0, reader@, op.attributes).0;
                        }
                        html.append(pending.as_str());
                        reader = String::new();
                    }
                }
                assert(str_insert@.take(str_insert@.len() as int) =~= str_insert@);
                if !inner_reader.as_str().is_empty() {
                    let composed = crate::inline_format::format(inner_reader, &op.attributes);
                    reader.append(composed.as_str());
                }
            },
            _ => {
                push_embed(&mut reader, &op.insert, &op.attributes);
            },
        }
        i = i + 1;
    }
    assert(delta_ops@.take(n as int) =~= delta_ops@);
    let ghost d = run_ops(delta_ops@);
    let ghost last: Seq<Piece> = if d.reader.len() > 0 {
        seq![Piece::Text(paragraph_markup(d.reader))]
    } else {
        Seq::empty()
    };
    if !reader.as_str().is_empty() {
        html.append("<p>");
        html.append(reader.as_str());
        html.append("</p>");
    }
    proof {
        lemma_render_concat(out, last);
        if d.reader.len() > 0 {
            lemma_render_push(Seq::empty(), Piece::Text(paragraph_markup(d.reader)));
            assert(Seq::<Piece>::empty().push(Piece::Text(paragraph_markup(d.reader))) =~= last);
        }
        assert(html@ =~= render(out + last));
        lemma_render_concat(out + last, close_all_pieces(d.block));
    }
    let closing = block_state.check_and_close_current_block();
    html.append(closing.as_str());
    html
}

} // verus!
