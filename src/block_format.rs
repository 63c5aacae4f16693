//! Block containers (ordered and bullet lists, code blocks) and the state
//! machine that opens and closes them line by line.
use vstd::prelude::*;

use crate::attributes::Attributes;
use crate::text::{decimal, push_decimal, same_text};

verus! {

/// The kind of container a line belongs to.
#[derive(Clone, Copy, Debug, PartialEq, Eq, Structural)]
pub enum BlockKind {
    Ordered,
    Bullet,
    CodeBlock,
}

impl BlockKind {
    /// The container element's name.
    pub open spec fn tag_spec(self) -> Seq<char> {
        match self {
            BlockKind::Ordered => "ol"@,
            BlockKind::Bullet => "ul"@,
            BlockKind::CodeBlock => "pre"@,
        }
    }

    pub fn tag(&self) -> (r: &'static str)
        ensures
            r@ == self.tag_spec(),
    {
        match self {
            BlockKind::Ordered => "ol",
            BlockKind::Bullet => "ul",
            BlockKind::CodeBlock => "pre",
        }
    }

    /// The kind that a block type name denotes, if any.
    pub open spec fn from_name_spec(name: Seq<char>) -> Option<BlockKind> {
        if name == "ordered"@ {
            Some(BlockKind::Ordered)
        } else if name == "bullet"@ {
            Some(BlockKind::Bullet)
        } else if name == "code-block"@ {
            Some(BlockKind::CodeBlock)
        } else {
            None
        }
    }

    pub fn from_name(name: &String) -> (r: Option<BlockKind>)
        ensures
            r == Self::from_name_spec(name@),
    {
        if same_text(name, "ordered") {
            Some(BlockKind::Ordered)
        } else if same_text(name, "bullet") {
            Some(BlockKind::Bullet)
        } else if same_text(name, "code-block") {
            Some(BlockKind::CodeBlock)
        } else {
            None
        }
    }
}

/// The opening tag of a container.
pub open spec fn open_tag_text(k: BlockKind) -> Seq<char> {
    match k {
        BlockKind::CodeBlock => "<pre class=\"ql-syntax\" spellcheck=\"false\">"@,
        _ => "<"@ + k.tag_spec() + ">"@,
    }
}

/// The closing tag of a container.
pub open spec fn close_tag_text(k: BlockKind) -> Seq<char> {
    "</"@ + k.tag_spec() + ">"@
}

/// The class list of a list item: the indent part, then the align part, each
/// only where it differs from the default.
pub open spec fn class_list(indent: nat, align: Seq<char>) -> Seq<char> {
    let ind = if indent > 0 {
        "ql-indent-"@ + decimal(indent)
    } else {
        Seq::empty()
    };
    if align.len() == 0 {
        ind
    } else if indent > 0 {
        ind + " "@ + "ql-align-"@ + align
    } else {
        "ql-align-"@ + align
    }
}

/// One line rendered as an item of a container of kind `k`.
pub open spec fn item_text(k: BlockKind, indent: nat, align: Seq<char>, content: Seq<char>) -> Seq<
    char,
> {
    match k {
        BlockKind::CodeBlock => content + "\n"@,
        _ => if indent == 0 && align.len() == 0 {
            "<li>"@ + content + "</li>"@
        } else {
            "<li class=\""@ + class_list(indent, align) + "\">"@ + content + "</li>"@
        },
    }
}

/// A piece of output: a container tag, or markup in which no container tag is
/// opened or closed by this library.
pub enum Piece {
    Open(BlockKind),
    Close(BlockKind),
    Text(Seq<char>),
}

pub open spec fn piece_text(p: Piece) -> Seq<char> {
    match p {
        Piece::Open(k) => open_tag_text(k),
        Piece::Close(k) => close_tag_text(k),
        Piece::Text(t) => t,
    }
}

/// The characters of a sequence of pieces.
pub open spec fn render(ps: Seq<Piece>) -> Seq<char>
    decreases ps.len(),
{
    if ps.len() == 0 {
        Seq::empty()
    } else {
        render(ps.drop_last()) + piece_text(ps.last())
    }
}

/// `n` closing tags of kind `k`.
pub open spec fn closes(k: BlockKind, n: nat) -> Seq<Piece> {
    Seq::new(n, |_i: int| Piece::Close(k))
}

/// The state of the block machine: the open container's kind and indent, if any.
pub type BlockModel = Option<(BlockKind, u64)>;

/// Closing every container that the machine holds open.
pub open spec fn close_all_pieces(st: BlockModel) -> Seq<Piece> {
    match st {
        None => Seq::empty(),
        Some((k, i)) => closes(k, i as nat + 1),
    }
}

/// What closing the current block emits, and the state after it.
pub open spec fn close_spec(st: BlockModel) -> (Seq<Piece>, BlockModel) {
    (close_all_pieces(st), None)
}

/// What a line of kind `k` at indent `t` emits from state `st`, and the state after it.
///
/// With no container open, one is opened. A line of the open kind and indent
/// is an item of it. A line of another kind closes the open container and
/// those nested down to its own indent, then opens its own; where it asks for
/// a deeper indent than the open one, only the innermost container is closed.
/// A deeper line of the same kind opens one nested container; a shallower one
/// closes one container per level it rises.
pub open spec fn transition(
    st: BlockModel,
    k: BlockKind,
    t: u64,
    align: Seq<char>,
    content: Seq<char>,
) -> (Seq<Piece>, BlockModel) {
    let item = Piece::Text(item_text(k, t as nat, align, content));
    match st {
        None => (seq![Piece::Open(k), item], Some((k, t))),
        Some((ck, ci)) => if ck == k && t == ci {
            (seq![item], st)
        } else if ck != k {
            let n: nat = if t <= ci {
                (ci - t + 1) as nat
            } else {
                1
            };
            (closes(ck, n) + seq![Piece::Open(k), item], Some((k, t)))
        } else if t > ci {
            (seq![Piece::Open(k), item], Some((k, t)))
        } else {
            (closes(k, (ci - t) as nat).push(item), Some((k, t)))
        },
    }
}

/// The indent a line of kind `k` is placed at: code blocks ignore indentation.
pub open spec fn line_indent(k: BlockKind, attr: Attributes) -> u64 {
    if k == BlockKind::CodeBlock {
        0
    } else {
        attr.indent
    }
}

/// The alignment named by the attributes, empty where none is.
pub open spec fn line_align(attr: Attributes) -> Seq<char> {
    match attr.align {
        Some(a) => a@,
        None => Seq::empty(),
    }
}

/// What `open_block` emits and the state after it.
pub open spec fn open_block_spec(
    st: BlockModel,
    attr: Attributes,
    name: Seq<char>,
    content: Seq<char>,
) -> (Seq<Piece>, BlockModel) {
    match BlockKind::from_name_spec(name) {
        None => (Seq::empty(), st),
        Some(k) => transition(st, k, line_indent(k, attr), line_align(attr), content),
    }
}

/// Rendering one more piece appends its characters.
pub proof fn lemma_render_push(ps: Seq<Piece>, p: Piece)
    ensures
        render(ps.push(p)) == render(ps) + piece_text(p),
{
    assert(ps.push(p).drop_last() =~= ps);
}

/// Rendering distributes over concatenation.
pub proof fn lemma_render_concat(a: Seq<Piece>, b: Seq<Piece>)
    ensures
        render(a + b) == render(a) + render(b),
    decreases b.len(),
{
    if b.len() == 0 {
        assert(a + b =~= a);
        assert(render(a) + render(b) =~= render(a));
    } else {
        lemma_render_concat(a, b.drop_last());
        assert((a + b).drop_last() =~= a + b.drop_last());
        assert(render(a + b) =~= render(a) + render(b));
    }
}

/// Whether a list line at indent `t` keeps to the nesting that the machine
/// tracks: a new container starts at indent 0, and a nested one goes one
/// level deeper than the line before it.
pub open spec fn regular_line(st: BlockModel, k: BlockKind, t: u64) -> bool {
    match st {
        None => t == 0,
        Some((ck, ci)) => if ck == k {
            t <= ci + 1
        } else {
            t == 0
        },
    }
}

pub open spec fn regular_block_line(st: BlockModel, a: Attributes, name: Seq<char>) -> bool {
    match BlockKind::from_name_spec(name) {
        None => true,
        Some(k) => regular_line(st, k, line_indent(k, a)),
    }
}

/// The containers left open after a sequence of pieces, starting from those
/// of `stack` (innermost last); `None` where a closing tag does not match the
/// innermost open container.
pub open spec fn stack_run(ps: Seq<Piece>, stack: Seq<BlockKind>) -> Option<Seq<BlockKind>>
    decreases ps.len(),
{
    if ps.len() == 0 {
        Some(stack)
    } else {
        match ps[0] {
            Piece::Open(k) => stack_run(ps.drop_first(), stack.push(k)),
            Piece::Close(k) => if stack.len() > 0 && stack.last() == k {
                stack_run(ps.drop_first(), stack.drop_last())
            } else {
                None
            },
            Piece::Text(_) => stack_run(ps.drop_first(), stack),
        }
    }
}

/// Every container opened is closed, innermost first.
pub open spec fn balanced(ps: Seq<Piece>) -> bool {
    stack_run(ps, Seq::empty()) == Some(Seq::<BlockKind>::empty())
}

/// The containers the machine holds open: one per indent level up to its own.
pub open spec fn machine_stack(st: BlockModel) -> Seq<BlockKind> {
    match st {
        None => Seq::empty(),
        Some((k, i)) => Seq::new(i as nat + 1, |_j: int| k),
    }
}

/// Running two sequences of pieces runs the second from where the first left off.
pub proof fn lemma_stack_run_concat(a: Seq<Piece>, b: Seq<Piece>, s: Seq<BlockKind>)
    ensures
        stack_run(a + b, s) == match stack_run(a, s) {
            Some(s2) => stack_run(b, s2),
            None => None,
        },
    decreases a.len(),
{
    if a.len() == 0 {
        assert(a + b =~= b);
    } else {
        assert((a + b)[0] == a[0]);
        assert((a + b).drop_first() =~= a.drop_first() + b);
        match a[0] {
            Piece::Open(k) => lemma_stack_run_concat(a.drop_first(), b, s.push(k)),
            Piece::Close(k) => if s.len() > 0 && s.last() == k {
                lemma_stack_run_concat(a.drop_first(), b, s.drop_last());
            },
            Piece::Text(_) => lemma_stack_run_concat(a.drop_first(), b, s),
        }
    }
}

proof fn lemma_closes_pop(k: BlockKind, n: nat, s: Seq<BlockKind>)
    ensures
        stack_run(closes(k, n), s + Seq::new(n, |_j: int| k)) == Some(s),
    decreases n,
{
    if n == 0 {
        assert(s + Seq::new(n, |_j: int| k) =~= s);
    } else {
        let full = s + Seq::new(n, |_j: int| k);
        assert(full.drop_last() =~= s + Seq::new((n - 1) as nat, |_j: int| k));
        assert(closes(k, n).drop_first() =~= closes(k, (n - 1) as nat));
        lemma_closes_pop(k, (n - 1) as nat, s);
    }
}

proof fn lemma_text_keeps(t: Seq<char>, s: Seq<BlockKind>)
    ensures
        stack_run(seq![Piece::Text(t)], s) == Some(s),
{
    assert(seq![Piece::Text(t)].drop_first() =~= Seq::<Piece>::empty());
    assert(stack_run(Seq::<Piece>::empty(), s) == Some(s));
}

proof fn lemma_open_pushes(k: BlockKind, t: Seq<char>, s: Seq<BlockKind>)
    ensures
        stack_run(seq![Piece::Open(k), Piece::Text(t)], s) == Some(s.push(k)),
{
    assert(seq![Piece::Open(k), Piece::Text(t)].drop_first() =~= seq![Piece::Text(t)]);
    lemma_text_keeps(t, s.push(k));
}

/// Closing every open container leaves none open.
pub proof fn lemma_close_all_empties(st: BlockModel)
    ensures
        stack_run(close_all_pieces(st), machine_stack(st)) == Some(Seq::<BlockKind>::empty()),
{
    if let Some((k, i)) = st {
        lemma_closes_pop(k, i as nat + 1, Seq::empty());
        assert(Seq::<BlockKind>::empty() + Seq::new(i as nat + 1, |_j: int| k) =~= machine_stack(st));
    }
}

/// A regular line moves the open containers from those of the old state to
/// those of the new one, closing each in the right order.
pub proof fn lemma_transition_keeps_stack(
    st: BlockModel,
    k: BlockKind,
    t: u64,
    align: Seq<char>,
    content: Seq<char>,
)
    requires
        regular_line(st, k, t),
    ensures
        stack_run(transition(st, k, t, align, content).0, machine_stack(st)) == Some(
            machine_stack(transition(st, k, t, align, content).1),
        ),
{
    let it = item_text(k, t as nat, align, content);
    match st {
        None => {
            lemma_open_pushes(k, it, Seq::empty());
            assert(Seq::<BlockKind>::empty().push(k) =~= machine_stack(Some((k, t))));
        },
        Some((ck, ci)) => {
            if ck == k && t == ci {
                lemma_text_keeps(it, machine_stack(st));
            } else if ck != k {
                let n = (ci - t + 1) as nat;
                lemma_closes_pop(ck, n, Seq::empty());
                assert(Seq::<BlockKind>::empty() + Seq::new(n, |_j: int| ck) =~= machine_stack(st));
                lemma_stack_run_concat(closes(ck, n), seq![Piece::Open(k), Piece::Text(it)], machine_stack(st));
                lemma_open_pushes(k, it, Seq::empty());
                assert(Seq::<BlockKind>::empty().push(k) =~= machine_stack(Some((k, t))));
            } else if t > ci {
                lemma_open_pushes(k, it, machine_stack(st));
                assert(machine_stack(st).push(k) =~= machine_stack(Some((k, t))));
            } else {
                let n = (ci - t) as nat;
                let rest = machine_stack(Some((k, t)));
                lemma_closes_pop(k, n, rest);
                assert(rest + Seq::new(n, |_j: int| k) =~= machine_stack(st));
                assert(closes(k, n).push(Piece::Text(it)) =~= closes(k, n) + seq![Piece::Text(it)]);
                lemma_stack_run_concat(closes(k, n), seq![Piece::Text(it)], machine_stack(st));
                lemma_text_keeps(it, rest);
            }
        },
    }
}

/// Closing the current block a second time emits nothing.
pub proof fn lemma_close_twice_emits_nothing(st: BlockModel)
    ensures
        close_spec(close_spec(st).1).1 is None,
        render(close_spec(close_spec(st).1).0) == Seq::<char>::empty(),
{
}

/// A list item at indent 0 without alignment carries no class attribute.
pub proof fn lemma_plain_item_has_no_class(k: BlockKind, content: Seq<char>)
    requires
        k != BlockKind::CodeBlock,
    ensures
        item_text(k, 0, Seq::empty(), content) == "<li>"@ + content + "</li>"@,
{
}

/// A container as the machine tracks it.
#[derive(Clone, Copy, Debug)]
pub struct BlockTag {
    pub block_type: BlockKind,
}

impl BlockTag {
    pub fn add_block(&self) -> (r: String)
        ensures
            r@ == open_tag_text(self.block_type),
    {
        match self.block_type {
            BlockKind::CodeBlock => String::from_str("<pre class=\"ql-syntax\" spellcheck=\"false\">"),
            _ => {
                let mut r = String::from_str("<");
                r.append(self.block_type.tag());
                r.append(">");
                r
            },
        }
    }

    pub fn close_block(&self) -> (r: String)
        ensures
            r@ == close_tag_text(self.block_type),
    {
        let mut r = String::from_str("</");
        r.append(self.block_type.tag());
        r.append(">");
        r
    }

    pub fn add_item(&self, content: &String, indent: u64, align: &String) -> (r: String)
        ensures
            r@ == item_text(self.block_type, indent as nat, align@, content@),
    {
        match self.block_type {
            BlockKind::CodeBlock => {
                let mut r = content.clone();
                r.append("\n");
                r
            },
            _ => {
                if indent == 0 && align.as_str().is_empty() {
                    let mut r = String::from_str("<li>");
                    r.append(content.as_str());
                    r.append("</li>");
                    r
                } else {
                    let mut classes = String::new();
                    if indent > 0 {
                        classes.append("ql-indent-");
                        push_decimal(&mut classes, indent);
                    }
                    if !align.as_str().is_empty() {
                        if indent > 0 {
                            classes.append(" ");
                        }
                        classes.append("ql-align-");
                        classes.append(align.as_str());
                    }
                    assert(classes@ =~= class_list(indent as nat, align@));
                    let mut r = String::from_str("<li class=\"");
                    r.append(classes.as_str());
                    r.append("\">");
                    r.append(content.as_str());
                    r.append("</li>");
                    r
                }
            },
        }
    }
}

/// Appends `n` closing tags of `tag`'s kind to `out`.
fn push_closes(out: &mut String, tag: &BlockTag, n: u64)
    ensures
        final(out)@ == old(out)@ + render(closes(tag.block_type, n as nat)),
{
    let end_block = tag.close_block();
    let mut j: u64 = 0;
    while j < n
        invariant
            j <= n,
            end_block@ == close_tag_text(tag.block_type),
            out@ == old(out)@ + render(closes(tag.block_type, j as nat)),
        decreases n - j,
    {
        proof {
            assert(closes(tag.block_type, j as nat + 1) =~= closes(tag.block_type, j as nat).push(
                Piece::Close(tag.block_type),
            ));
            lemma_render_push(closes(tag.block_type, j as nat), Piece::Close(tag.block_type));
        }
        out.append(end_block.as_str());
        j = j + 1;
        assert(out@ =~= old(out)@ + render(closes(tag.block_type, j as nat)));
    }
    assert(closes(tag.block_type, 0) =~= Seq::<Piece>::empty());
}

/// Appends `n + 1` closing tags of `tag`'s kind to `out`.
fn push_closes_and_one(out: &mut String, tag: &BlockTag, n: u64)
    ensures
        final(out)@ == old(out)@ + render(closes(tag.block_type, n as nat + 1)),
{
    push_closes(out, tag, n);
    out.append(tag.close_block().as_str());
    proof {
        assert(closes(tag.block_type, n as nat + 1) =~= closes(tag.block_type, n as nat).push(
            Piece::Close(tag.block_type),
        ));
        lemma_render_push(closes(tag.block_type, n as nat), Piece::Close(tag.block_type));
        assert(final(out)@ =~= old(out)@ + render(closes(tag.block_type, n as nat + 1)));
    }
}

/// The block machine of one conversion.
pub struct BlockState {
    current_block: Option<BlockTag>,
    indent: u64,
}

impl View for BlockState {
    type V = BlockModel;

    closed spec fn view(&self) -> BlockModel {
        match self.current_block {
            Some(b) => Some((b.block_type, self.indent)),
            None => None,
        }
    }
}

impl BlockState {
    pub fn new() -> (r: BlockState)
        ensures
            r@ is None,
    {
        BlockState { current_block: None, indent: 0 }
    }

    /// Resolves a line of the block type named `block_type`, whose inline
    /// markup is `content`, and returns the markup to append.
    pub fn open_block(&mut self, attr: &Attributes, block_type: &String, content: &String) -> (r:
        String)
        ensures
            r@ == render(open_block_spec(old(self)@, *attr, block_type@, content@).0),
            final(self)@ == open_block_spec(old(self)@, *attr, block_type@, content@).1,
    {
        let target = match BlockKind::from_name(block_type) {
            Some(k) => BlockTag { block_type: k },
            None => {
                proof {
                    assert(render(Seq::<Piece>::empty()) == Seq::<char>::empty());
                }
                return String::new();
            },
        };
        let k = target.block_type;
        let indent: u64 = if k == BlockKind::CodeBlock {
            0
        } else {
            attr.indent
        };
        let align = match &attr.align {
            Some(a) => a.clone(),
            None => String::new(),
        };
        let ghost item = Piece::Text(item_text(k, indent as nat, align@, content@));
        let ghost ps = transition(old(self)@, k, indent, align@, content@).0;
        let mut pending = String::new();
        match self.current_block {
            Some(current) => {
                if current.block_type == k && indent == self.indent {
                    pending = target.add_item(content, indent, &align);
                    proof {
                        assert(render(seq![item]) == render(Seq::<Piece>::empty()) + piece_text(item)) by {
                            lemma_render_push(Seq::<Piece>::empty(), item);
                            assert(Seq::<Piece>::empty().push(item) =~= seq![item]);
                        }
                        assert(pending@ =~= render(ps));
                    }
                } else if current.block_type != k {
                    let n: u64 = if indent <= self.indent {
                        self.indent - indent
                    } else {
                        0
                    };
                    push_closes_and_one(&mut pending, &current, n);
                    pending.append(target.add_block().as_str());
                    pending.append(target.add_item(content, indent, &align).as_str());
                    proof {
                        let cs = closes(current.block_type, n as nat + 1);
                        lemma_render_push(cs, Piece::Open(k));
                        lemma_render_push(cs.push(Piece::Open(k)), item);
                        assert(cs.push(Piece::Open(k)).push(item) =~= cs + seq![Piece::Open(k), item]);
                        assert(pending@ =~= render(ps));
                    }
                    self.current_block = Some(target);
                    self.indent = indent;
                } else if indent > self.indent {
                    pending.append(target.add_block().as_str());
                    pending.append(target.add_item(content, indent, &align).as_str());
                    proof {
                        let e = Seq::<Piece>::empty();
                        lemma_render_push(e, Piece::Open(k));
                        lemma_render_push(e.push(Piece::Open(k)), item);
                        assert(e.push(Piece::Open(k)).push(item) =~= seq![Piece::Open(k), item]);
                        assert(pending@ =~= render(ps));
                    }
                    self.current_block = Some(target);
                    self.indent = indent;
                } else {
                    push_closes(&mut pending, &current, self.indent - indent);
                    pending.append(target.add_item(content, indent, &align).as_str());
                    proof {
                        lemma_render_push(closes(k, (self.indent - indent) as nat), item);
                        assert(pending@ =~= render(ps));
                    }
                    self.current_block = Some(target);
                    self.indent = indent;
                }
            },
            None => {
                pending.append(target.add_block().as_str());
                pending.append(target.add_item(content, indent, &align).as_str());
                proof {
                    let e = Seq::<Piece>::empty();
                    lemma_render_push(e, Piece::Open(k));
                    lemma_render_push(e.push(Piece::Open(k)), item);
                    assert(e.push(Piece::Open(k)).push(item) =~= seq![Piece::Open(k), item]);
                    assert(pending@ =~= render(ps));
                }
                self.current_block = Some(target);
                self.indent = indent;
            },
        }
        pending
    }

    /// Closes every container still open, and returns the markup to append.
    pub fn check_and_close_current_block(&mut self) -> (r: String)
        ensures
            r@ == render(close_spec(old(self)@).0),
            final(self)@ == close_spec(old(self)@).1,
    {
        let mut pending = String::new();
        match self.current_block {
            Some(current) => {
                push_closes_and_one(&mut pending, &current, self.indent);
                self.current_block = None;
            },
            None => {
            },
        }
        pending
    }
}

} // verus!
