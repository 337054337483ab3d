//! The parser: a single left-to-right scan that turns raw text into an
//! ordered sequence of document nodes.

use vstd::prelude::*;

verus! {

broadcast use vstd::seq::group_seq_axioms, vstd::std_specs::vec::group_vec_axioms;

/// A document node. Style markers (`Bold`, `Italic`, `Underline`,
/// `StrikeThrough`) are zero-width toggles: each occurrence flips the style
/// state at that point; pairing is resolved later by the formatter.
pub enum Object {
    LineBreak,
    Bold,
    Italic,
    Underline,
    StrikeThrough,
    /// A literal run of characters.
    Text(String),
    /// A heading: level and child nodes.
    Head(u8, Vec<Object>),
    /// A link: child nodes of the link text, and the target.
    Link(Vec<Object>, String),
    /// An image: the source URL and an optional alternative text.
    Image(String, Option<String>),
}

/// The mathematical model of an [`Object`]: the same tree over `Seq<char>`.
pub enum Node {
    LineBreak,
    Bold,
    Italic,
    Underline,
    StrikeThrough,
    Text(Seq<char>),
    Head(u8, Seq<Node>),
    Link(Seq<Node>, Seq<char>),
    Image(Seq<char>, Option<Seq<char>>),
}

impl Object {
    /// The model of this node: every string replaced by its character sequence.
    pub open spec fn node(self) -> Node
        decreases self,
        via Self::node_decreases
    {
        match self {
            Object::LineBreak => Node::LineBreak,
            Object::Bold => Node::Bold,
            Object::Italic => Node::Italic,
            Object::Underline => Node::Underline,
            Object::StrikeThrough => Node::StrikeThrough,
            Object::Text(s) => Node::Text(s@),
            Object::Head(level, children) => Node::Head(level, nodes_of(children@)),
            Object::Link(children, href) => Node::Link(nodes_of(children@), href@),
            Object::Image(url, alt) => Node::Image(
                url@,
                match alt {
                    Some(a) => Some(a@),
                    None => None,
                },
            ),
        }
    }

    #[via_fn]
    proof fn node_decreases(self) {
        match self {
            Object::Head(level, children) => {
                vstd::std_specs::vec::axiom_vec_decreases_to_view(children);
                assert(decreases_to!(self => children));
            },
            Object::Link(children, href) => {
                vstd::std_specs::vec::axiom_vec_decreases_to_view(children);
                assert(decreases_to!(self => children));
            },
            _ => {},
        }
    }
}

/// The models of a sequence of nodes, in order.
pub open spec fn nodes_of(s: Seq<Object>) -> Seq<Node>
    decreases s,
    via nodes_of_decreases
{
    if s.len() == 0 {
        Seq::empty()
    } else {
        seq![s[0].node()] + nodes_of(s.drop_first())
    }
}

#[via_fn]
proof fn nodes_of_decreases(s: Seq<Object>) {
    if s.len() > 0 {
        vstd::seq::axiom_seq_index_decreases(s, 0);
        vstd::seq::axiom_seq_subrange_decreases(s, 1, s.len() as int);
        assert(s.drop_first() == s.subrange(1, s.len() as int));
    }
}

pub broadcast proof fn lemma_nodes_of_len(s: Seq<Object>)
    ensures
        #[trigger] nodes_of(s).len() == s.len(),
    decreases s.len(),
{
    if s.len() > 0 {
        lemma_nodes_of_len(s.drop_first());
    }
}

pub broadcast proof fn lemma_nodes_of_index(s: Seq<Object>, i: int)
    requires
        0 <= i < s.len(),
    ensures
        nodes_of(s).len() == s.len(),
        #[trigger] nodes_of(s)[i] == s[i].node(),
    decreases s.len(),
{
    lemma_nodes_of_len(s);
    if i > 0 {
        lemma_nodes_of_index(s.drop_first(), i - 1);
    }
}

pub broadcast proof fn lemma_nodes_of_push(s: Seq<Object>, o: Object)
    ensures
        #[trigger] nodes_of(s.push(o)) == nodes_of(s).push(o.node()),
    decreases s.len(),
{
    if s.len() == 0 {
        assert(s.push(o).drop_first() =~= Seq::<Object>::empty());
        assert(nodes_of(Seq::<Object>::empty()) == Seq::<Node>::empty());
        assert(s.push(o)[0] == o);
        assert(nodes_of(s.push(o)) == seq![o.node()] + Seq::<Node>::empty());
        assert(nodes_of(s.push(o)) =~= nodes_of(s).push(o.node()));
    } else {
        lemma_nodes_of_push(s.drop_first(), o);
        lemma_nodes_of_len(s);
        lemma_nodes_of_len(s.drop_first());
        assert(s.push(o).drop_first() =~= s.drop_first().push(o));
        assert(s.push(o)[0] == s[0]);
        assert(s.push(o).len() > 0);
        assert(nodes_of(s.push(o)) == seq![s[0].node()] + nodes_of(s.drop_first()).push(o.node()));
        assert(nodes_of(s) == seq![s[0].node()] + nodes_of(s.drop_first()));
        assert(nodes_of(s.push(o)) =~= nodes_of(s).push(o.node()));
    }
}

pub broadcast proof fn lemma_nodes_of_concat(a: Seq<Object>, b: Seq<Object>)
    ensures
        #[trigger] nodes_of(a + b) == nodes_of(a) + nodes_of(b),
    decreases a.len(),
{
    if a.len() == 0 {
        assert(a + b =~= b);
        assert(nodes_of(a) + nodes_of(b) =~= nodes_of(b));
    } else {
        lemma_nodes_of_concat(a.drop_first(), b);
        assert((a + b).drop_first() =~= a.drop_first() + b);
        assert((a + b)[0] == a[0]);
        assert(nodes_of(a + b) =~= nodes_of(a) + nodes_of(b));
    }
}

/// The style state carried through a whole parse: which toggles are open.
/// One instance lives for the entire document, so a toggle left open on one
/// line is still open when the next line is scanned.
#[derive(Clone, Copy, PartialEq, Eq, Structural, Debug)]
pub struct ObjectStyle {
    pub bold: bool,
    pub underline: bool,
    pub italic: bool,
    pub strike_through: bool,
    pub head: bool,
}

/// The style with every toggle closed.
pub open spec fn initial_style() -> ObjectStyle {
    ObjectStyle { bold: false, underline: false, italic: false, strike_through: false, head: false }
}

impl Default for ObjectStyle {
    /// The style with every toggle closed.
    fn default() -> (r: Self)
        ensures
            r == initial_style(),
    {
        ObjectStyle { bold: false, underline: false, italic: false, strike_through: false, head: false }
    }
}

/// The whole state of the inline scan: nodes already emitted, the pending
/// text buffer, the secondary buffer holding link text or image alternative
/// text, the previous character, the capture flags, and the style state.
#[verifier::ext_equal]
pub struct ScanState {
    pub nodes: Seq<Node>,
    pub buf: Seq<char>,
    pub second: Seq<char>,
    pub last: char,
    pub in_link: bool,
    pub link_text: bool,
    pub image: bool,
    pub image_alt: bool,
    pub style: ObjectStyle,
}

/// The scan state at the start of a line: nothing buffered, the previous
/// character taken to be a space, and the given style carried over.
pub open spec fn scan_init(style: ObjectStyle) -> ScanState {
    ScanState {
        nodes: Seq::empty(),
        buf: Seq::empty(),
        second: Seq::empty(),
        last: ' ',
        in_link: false,
        link_text: false,
        image: false,
        image_alt: false,
        style,
    }
}

/// `s` without its last character; the empty sequence stays empty.
pub open spec fn pop_seq(s: Seq<char>) -> Seq<char> {
    if s.len() > 0 {
        s.drop_last()
    } else {
        s
    }
}

/// Whether `s` is exactly the one character `c`.
pub open spec fn is_single(s: Seq<char>, c: char) -> bool {
    s.len() == 1 && s[0] == c
}

/// The nodes of a finished scan: any pending text buffer is flushed as a
/// final text node.
pub open spec fn flushed(st: ScanState) -> Seq<Node> {
    if st.buf.len() > 0 {
        st.nodes.push(Node::Text(st.buf))
    } else {
        st.nodes
    }
}

/// One doubled-delimiter toggle step: flush the buffer, minus its trailing
/// stray delimiter character, as a text node, then emit the toggle node.
/// The buffer is left empty either way: one that held only the lone stray
/// delimiter is dropped without a text node.
pub open spec fn toggle_step(st: ScanState, c: char, marker: Node, style: ObjectStyle) -> ScanState {
    let flush = st.buf.len() > 0 && !is_single(st.buf, c);
    ScanState {
        nodes: (if flush {
            st.nodes.push(Node::Text(st.buf.drop_last()))
        } else {
            st.nodes
        }).push(marker),
        buf: Seq::empty(),
        last: c,
        style,
        ..st
    }
}

/// One doubled-delimiter toggle, on the buffers: flush the buffer minus its
/// trailing stray delimiter unless it is empty or holds only the delimiter,
/// leave the buffer empty, and emit the marker node.
fn toggle_exec(objects: &mut Vec<Object>, buf: &mut Vec<char>, d: char, marker: Object)
    ensures
        nodes_of(final(objects)@) == (if old(buf)@.len() > 0 && !is_single(old(buf)@, d) {
            nodes_of(old(objects)@).push(Node::Text(old(buf)@.drop_last()))
        } else {
            nodes_of(old(objects)@)
        }).push(marker.node()),
        final(buf)@ == Seq::<char>::empty(),
{
    if buf.len() > 0 && !(buf.len() == 1 && buf[0] == d) {
        buf.pop();
        proof {
            assert(buf@ =~= old(buf)@.drop_last());
        }
        push_node(objects, Object::Text(crate::text::chars_string(buf)));
    }
    buf.clear();
    push_node(objects, marker);
}

/// One step of the inline scan: the effect of the character `c` on the
/// scan state `st`. `next_is_star` says whether the character after `c` is
/// another `*` (the italic lookahead), and `sub` is the state of re-scanning
/// the captured link text, used only when `c` closes a link.
///
/// Each arm mirrors one delimiter rule: doubled `*`, `_` and `~` toggles,
/// the lone-`*` italic toggle, link and image capture through the secondary
/// buffer, and the fallback that turns unbalanced markup back into literal
/// text.
pub open spec fn scan_step_s(st: ScanState, c: char, next_is_star: bool, sub: ScanState) -> ScanState {
    if c == '*' && st.last == '*' && !st.style.bold {
        toggle_step(st, c, Node::Bold, ObjectStyle { bold: true, ..st.style })
    } else if c == '*' && st.last == '*' && st.style.bold {
        let flush = st.buf.len() > 0 && !is_single(st.buf, '*');
        let b1 = if st.buf.len() > 0 && st.buf[0] == '*' {
            st.buf.drop_first()
        } else {
            st.buf
        };
        let b2 = if b1.len() > 0 && b1.last() == '*' {
            b1.drop_last()
        } else {
            b1
        };
        ScanState {
            nodes: (if flush {
                st.nodes.push(Node::Text(b2))
            } else {
                st.nodes
            }).push(Node::Bold),
            buf: Seq::empty(),
            last: c,
            style: ObjectStyle { bold: false, ..st.style },
            ..st
        }
    } else if c == '*' && !st.style.italic {
        if next_is_star {
            ScanState { buf: st.buf.push(c), last: c, ..st }
        } else {
            ScanState {
                nodes: (if st.buf.len() > 0 {
                    st.nodes.push(Node::Text(st.buf))
                } else {
                    st.nodes
                }).push(Node::Italic),
                buf: Seq::empty(),
                last: c,
                style: ObjectStyle { italic: true, ..st.style },
                ..st
            }
        }
    } else if c == '*' && st.style.italic && st.last != '*' {
        ScanState {
            nodes: (if st.buf.len() > 0 {
                st.nodes.push(Node::Text(st.buf))
            } else {
                st.nodes
            }).push(Node::Italic),
            buf: Seq::empty(),
            last: c,
            style: ObjectStyle { italic: false, ..st.style },
            ..st
        }
    } else if c == '_' && st.last == '_' && !st.style.underline {
        toggle_step(st, c, Node::Underline, ObjectStyle { underline: true, ..st.style })
    } else if c == '_' && st.last == '_' && st.style.underline {
        toggle_step(st, c, Node::Underline, ObjectStyle { underline: false, ..st.style })
    } else if c == '~' && st.last == '~' && !st.style.strike_through {
        toggle_step(st, c, Node::StrikeThrough, ObjectStyle { strike_through: true, ..st.style })
    } else if c == '~' && st.last == '~' && st.style.strike_through {
        toggle_step(st, c, Node::StrikeThrough, ObjectStyle { strike_through: false, ..st.style })
    } else if c == '[' {
        if !st.in_link && !st.image && st.last != '!' {
            ScanState {
                nodes: if st.buf.len() > 0 {
                    st.nodes.push(Node::Text(st.buf))
                } else {
                    st.nodes
                },
                buf: Seq::empty(),
                in_link: true,
                link_text: true,
                last: c,
                ..st
            }
        } else if !st.link_text && !st.image && st.last == '!' {
            let b1 = pop_seq(st.buf);
            ScanState {
                nodes: if b1.len() > 0 {
                    st.nodes.push(Node::Text(b1))
                } else {
                    st.nodes
                },
                buf: Seq::empty(),
                image: true,
                image_alt: true,
                last: c,
                ..st
            }
        } else {
            ScanState {
                nodes: st.nodes.push(Node::Text(seq!['['] + st.second + seq![']'])),
                second: Seq::empty(),
                in_link: false,
                link_text: false,
                last: c,
                ..st
            }
        }
    } else if c == '(' && (st.in_link || st.image) && st.last == ']' {
        ScanState {
            second: pop_seq(st.second),
            buf: Seq::empty(),
            link_text: false,
            image_alt: false,
            last: c,
            ..st
        }
    } else if c == ')' && st.in_link {
        ScanState {
            nodes: st.nodes.push(Node::Link(flushed(sub), st.buf)),
            buf: Seq::empty(),
            second: Seq::empty(),
            in_link: false,
            last: c,
            style: sub.style,
            ..st
        }
    } else if c == ')' && st.image {
        if st.second.len() > 0 {
            ScanState {
                nodes: st.nodes.push(Node::Image(st.buf, Some(st.second))),
                buf: Seq::empty(),
                second: Seq::empty(),
                image: false,
                last: c,
                ..st
            }
        } else {
            ScanState { last: c, ..st }
        }
    } else {
        if st.in_link && st.link_text {
            ScanState { second: st.second.push(c), last: c, ..st }
        } else if st.image && st.image_alt {
            ScanState { second: st.second.push(c), last: c, ..st }
        } else {
            ScanState { buf: st.buf.push(c), last: c, ..st }
        }
    }
}

/// The inline scan itself, one character at a time over `rest`. The link
/// step re-scans the captured text with a fresh state but the same style, so
/// styles nest inside link text and stay open across the capture.
pub open spec fn scan(st: ScanState, rest: Seq<char>) -> ScanState
    decreases st.second.len() + rest.len(), rest.len(),
{
    if rest.len() == 0 {
        st
    } else {
        let sub = scan(scan_init(st.style), st.second);
        scan(scan_step_s(st, rest[0], rest.len() >= 2 && rest[1] == '*', sub), rest.drop_first())
    }
}

/// One unfolding of [`scan`]: stepping the state by the first character and
/// going on with the rest.
proof fn lemma_scan_one(st: ScanState, rest: Seq<char>, post: ScanState)
    requires
        rest.len() > 0,
        post == scan_step_s(st, rest[0], rest.len() >= 2 && rest[1] == '*', scan(scan_init(st.style), st.second)),
    ensures
        scan(st, rest) == scan(post, rest.drop_first()),
{
}

/// How many `#` characters stand at the start of `s`.
pub open spec fn hash_count(s: Seq<char>) -> int
    decreases s.len(),
{
    if s.len() > 0 && s[0] == '#' {
        1 + hash_count(s.drop_first())
    } else {
        0
    }
}

pub proof fn lemma_hash_count_bounds(s: Seq<char>)
    ensures
        0 <= hash_count(s) <= s.len(),
    decreases s.len(),
{
    if s.len() > 0 && s[0] == '#' {
        lemma_hash_count_bounds(s.drop_first());
    }
}

pub proof fn lemma_hash_count_prefix(s: Seq<char>, i: int)
    requires
        0 <= i <= s.len(),
        forall|j: int| 0 <= j < i ==> s[j] == '#',
        i == s.len() || s[i] != '#',
    ensures
        hash_count(s) == i,
    decreases i,
{
    if i > 0 {
        assert(s.drop_first().len() == s.len() - 1);
        assert(forall|j: int| 0 <= j < i - 1 ==> s.drop_first()[j] == '#');
        assert(i - 1 == s.drop_first().len() || s.drop_first()[i - 1] != '#');
        lemma_hash_count_prefix(s.drop_first(), i - 1);
    }
}

/// The heading level of a line: its leading `#` count, capped at the largest
/// level that fits in a byte.
pub open spec fn head_level(line: Seq<char>) -> u8 {
    if hash_count(line) > 255 {
        255u8
    } else {
        hash_count(line) as u8
    }
}

/// The text of a heading line: the line without its leading `#` run and
/// without the whitespace that follows it.
pub open spec fn head_content(line: Seq<char>) -> Seq<char> {
    crate::text::trim_start(line.skip(hash_count(line)))
}

/// One line of the document: a heading when its trimmed form starts with
/// `#`, a line break when it is blank, and otherwise its inline nodes.
/// Yields the nodes of the line and the style state it leaves behind.
pub open spec fn parse_line(style: ObjectStyle, line: Seq<char>) -> (Seq<Node>, ObjectStyle) {
    let t = crate::text::trim(line);
    if t.len() > 0 && t[0] == '#' {
        let sub = scan(scan_init(style), head_content(line));
        (seq![Node::Head(head_level(line), flushed(sub))], sub.style)
    } else if t.len() == 0 {
        (seq![Node::LineBreak], style)
    } else {
        let sub = scan(scan_init(style), t);
        (flushed(sub), sub.style)
    }
}

/// The lines in order, threading the style state from each into the next.
pub open spec fn parse_lines(style: ObjectStyle, lines: Seq<Seq<char>>) -> (Seq<Node>, ObjectStyle)
    decreases lines.len(),
{
    if lines.len() == 0 {
        (Seq::<Node>::empty(), style)
    } else {
        let first = parse_line(style, lines[0]);
        let rest = parse_lines(first.1, lines.drop_first());
        (first.0 + rest.0, rest.1)
    }
}

/// The position of the first line feed in `s`, or `s.len()` if there is none.
pub open spec fn first_nl(s: Seq<char>) -> int
    decreases s.len(),
{
    if s.len() == 0 {
        0
    } else if s[0] == '\n' {
        0
    } else {
        1 + first_nl(s.drop_first())
    }
}

pub proof fn lemma_first_nl_bounds(s: Seq<char>)
    ensures
        0 <= first_nl(s) <= s.len(),
        first_nl(s) < s.len() ==> s[first_nl(s)] == '\n',
        forall|j: int| 0 <= j < first_nl(s) ==> s[j] != '\n',
    decreases s.len(),
{
    if s.len() > 0 && s[0] != '\n' {
        lemma_first_nl_bounds(s.drop_first());
        assert forall|j: int| 0 <= j < first_nl(s) implies s[j] != '\n' by {
            if j > 0 {
                assert(s.drop_first()[j - 1] != '\n');
            }
        }
    }
}

pub proof fn lemma_first_nl_at(s: Seq<char>, i: int)
    requires
        0 <= i <= s.len(),
        forall|j: int| 0 <= j < i ==> s[j] != '\n',
        i == s.len() || s[i] == '\n',
    ensures
        first_nl(s) == i,
    decreases i,
{
    if i > 0 {
        assert(forall|j: int| 0 <= j < i - 1 ==> s.drop_first()[j] != '\n');
        assert(i - 1 == s.drop_first().len() || s.drop_first()[i - 1] == '\n');
        lemma_first_nl_at(s.drop_first(), i - 1);
    }
}

/// The lines of the source, split on every line feed. A trailing line feed
/// yields a final empty line, and an empty source is one empty line.
pub open spec fn split_lines(s: Seq<char>) -> Seq<Seq<char>>
    decreases s.len(),
    via split_lines_decreases
{
    let i = first_nl(s);
    if i >= s.len() {
        seq![s]
    } else {
        seq![s.take(i)] + split_lines(s.skip(i + 1))
    }
}

#[via_fn]
proof fn split_lines_decreases(s: Seq<char>) {
    lemma_first_nl_bounds(s);
}

/// The model of a whole parse: every line in order, the style state threaded
/// through from the first line to the last, starting with every toggle
/// closed.
pub open spec fn spec_parse(source: Seq<char>) -> Seq<Node> {
    parse_lines(initial_style(), split_lines(source)).0
}

/// Appends one node, keeping track of the model of the vector.
fn push_node(objects: &mut Vec<Object>, o: Object)
    ensures
        final(objects)@ == old(objects)@.push(o),
        nodes_of(final(objects)@) == nodes_of(old(objects)@).push(o.node()),
{
    proof {
        lemma_nodes_of_push(objects@, o);
    }
    objects.push(o);
}

/// One step of the inline scan: the effect of the character `c` on the
/// whole scan state, exactly as one unfolding of [`scan`] describes it.
#[verifier::rlimit(100)]
fn scan_step(
    objects: &mut Vec<Object>,
    buf: &mut Vec<char>,
    second: &mut Vec<char>,
    last: &mut char,
    in_link: &mut bool,
    link_text: &mut bool,
    is_image: &mut bool,
    image_alt: &mut bool,
    style: &mut ObjectStyle,
    c: char,
    next_is_star: bool,
    Ghost(rest): Ghost<Seq<char>>,
)
    requires
        rest.len() > 0,
        rest[0] == c,
        next_is_star == (rest.len() >= 2 && rest[1] == '*'),
    ensures
        final(second)@.len() <= old(second)@.len() + 1,
        scan(
            (ScanState {
                nodes: nodes_of(final(objects)@),
                buf: final(buf)@,
                second: final(second)@,
                last: *final(last),
                in_link: *final(in_link),
                link_text: *final(link_text),
                image: *final(is_image),
                image_alt: *final(image_alt),
                style: *final(style),
            }),
            rest.drop_first(),
        ) == scan(
            (ScanState {
                nodes: nodes_of(old(objects)@),
                buf: old(buf)@,
                second: old(second)@,
                last: *old(last),
                in_link: *old(in_link),
                link_text: *old(link_text),
                image: *old(is_image),
                image_alt: *old(image_alt),
                style: *old(style),
            }),
            rest,
        ),
    decreases old(second)@.len() + 1, 0int,
{
    broadcast use lemma_nodes_of_len, lemma_nodes_of_index, lemma_nodes_of_push, lemma_nodes_of_concat;

    let ghost pre = ScanState {
        nodes: nodes_of(objects@),
        buf: buf@,
        second: second@,
        last: *last,
        in_link: *in_link,
        link_text: *link_text,
        image: *is_image,
        image_alt: *image_alt,
        style: *style,
    };
        if c == '*' && *last == '*' && !style.bold {
            toggle_exec(objects, buf, '*', Object::Bold);
            style.bold = true;
        } else if c == '*' && *last == '*' && style.bold {
            if buf.len() > 0 && !(buf.len() == 1 && buf[0] == '*') {
                if buf[0] == '*' {
                    buf.remove(0);
                    proof {
                        assert(buf@ =~= pre.buf.drop_first());
                    }
                }
                let ghost b1v = buf@;
                if buf.len() > 0 && buf[buf.len() - 1] == '*' {
                    buf.pop();
                    proof {
                        assert(buf@ =~= b1v.drop_last());
                    }
                }
                push_node(objects, Object::Text(crate::text::chars_string(&buf)));
            }
            buf.clear();
            push_node(objects, Object::Bold);
            style.bold = false;
        } else if c == '*' && !style.italic {
            if next_is_star {
                buf.push(c);
            } else {
                if buf.len() > 0 {
                    push_node(objects, Object::Text(crate::text::chars_string(&buf)));
                }
                buf.clear();
                push_node(objects, Object::Italic);
                style.italic = true;
            }
        } else if c == '*' && style.italic && *last != '*' {
            if buf.len() > 0 {
                push_node(objects, Object::Text(crate::text::chars_string(&buf)));
            }
            buf.clear();
            push_node(objects, Object::Italic);
            style.italic = false;
        } else if c == '_' && *last == '_' && !style.underline {
            toggle_exec(objects, buf, '_', Object::Underline);
            style.underline = true;
        } else if c == '_' && *last == '_' && style.underline {
            toggle_exec(objects, buf, '_', Object::Underline);
            style.underline = false;
        } else if c == '~' && *last == '~' && !style.strike_through {
            toggle_exec(objects, buf, '~', Object::StrikeThrough);
            style.strike_through = true;
        } else if c == '~' && *last == '~' && style.strike_through {
            toggle_exec(objects, buf, '~', Object::StrikeThrough);
            style.strike_through = false;
        } else if c == '[' {
            if !*in_link && !*is_image && *last != '!' {
                if buf.len() > 0 {
                    push_node(objects, Object::Text(crate::text::chars_string(&buf)));
                }
                buf.clear();
                *in_link = true;
                *link_text = true;
            } else if !*link_text && !*is_image && *last == '!' {
                buf.pop();
                proof {
                    assert(buf@ =~= pop_seq(pre.buf));
                }
                if buf.len() > 0 {
                    push_node(objects, Object::Text(crate::text::chars_string(&buf)));
                }
                buf.clear();
                *is_image = true;
                *image_alt = true;
            } else {
                let mut lit: Vec<char> = Vec::new();
                lit.push('[');
                lit.extend_from_slice(second.as_slice());
                lit.push(']');
                proof {
                    assert(lit@ =~= seq!['['] + pre.second + seq![']']);
                }
                push_node(objects, Object::Text(crate::text::chars_string(&lit)));
                *in_link = false;
                *link_text = false;
                second.clear();
            }
        } else if c == '(' && (*in_link || *is_image) && *last == ']' {
            second.pop();
            proof {
                assert(second@ =~= pop_seq(pre.second));
            }
            *link_text = false;
            *image_alt = false;
            buf.clear();
        } else if c == ')' && *in_link {
            let children = scan_text(style, second);
            push_node(objects, Object::Link(children, crate::text::chars_string(&buf)));
            *in_link = false;
            second.clear();
            buf.clear();
        } else if c == ')' && *is_image {
            if second.len() > 0 {
                let url = crate::text::chars_string(&buf);
                let alt = crate::text::chars_string(&second);
                push_node(objects, Object::Image(url, Some(alt)));
                *is_image = false;
                second.clear();
                buf.clear();
            }
        } else {
            if *in_link && *link_text {
                second.push(c);
            } else if *is_image && *image_alt {
                second.push(c);
            } else {
                buf.push(c);
            }
        }
    *last = c;
        proof {
            let post = ScanState {
                nodes: nodes_of(objects@),
                buf: buf@,
                second: second@,
                last: *last,
                in_link: *in_link,
                link_text: *link_text,
                image: *is_image,
                image_alt: *image_alt,
                style: *style,
            };
            let pc = rest[0];
            let next_star = rest.len() >= 2 && rest[1] == '*';
            let sub = scan(scan_init(pre.style), pre.second);
            assert(post =~= scan_step_s(pre, pc, next_star, sub));
            lemma_scan_one(pre, rest, post);
        }
}

/// The inline scan over a vector of characters; see [`scan`] for what each
/// delimiter does.
fn scan_text(style: &mut ObjectStyle, chars: &Vec<char>) -> (r: Vec<Object>)
    ensures
        nodes_of(r@) == flushed(scan(scan_init(*old(style)), chars@)),
        *final(style) == scan(scan_init(*old(style)), chars@).style,
    decreases chars@.len(), 1int,
{
    broadcast use lemma_nodes_of_len, lemma_nodes_of_index, lemma_nodes_of_push, lemma_nodes_of_concat;

    let n = chars.len();
    let mut objects: Vec<Object> = Vec::new();
    let mut buf: Vec<char> = Vec::new();
    let mut second: Vec<char> = Vec::new();
    let mut last: char = ' ';
    let mut in_link: bool = false;
    let mut link_text: bool = false;
    let mut is_image: bool = false;
    let mut image_alt: bool = false;
    let mut i: usize = 0;
    proof {
        assert(nodes_of(Seq::<Object>::empty()) == Seq::<Node>::empty());
        assert(chars@.skip(0) =~= chars@);
        assert((ScanState {
            nodes: nodes_of(objects@),
            buf: buf@,
            second: second@,
            last: last,
            in_link: in_link,
            link_text: link_text,
            image: is_image,
            image_alt: image_alt,
            style: *style,
        }) =~= scan_init(*old(style)));
    }
    while i < n
        invariant
            i <= n,
            n == chars@.len(),
            second@.len() <= i as int,
            scan(
                (ScanState {
                    nodes: nodes_of(objects@),
                    buf: buf@,
                    second: second@,
                    last: last,
                    in_link: in_link,
                    link_text: link_text,
                    image: is_image,
                    image_alt: image_alt,
                    style: *style,
                }),
                chars@.skip(i as int),
            ) == scan(scan_init(*old(style)), chars@),
        decreases n - i,
    {
        let ghost rest = chars@.skip(i as int);
        proof {
            assert(rest.len() == n - i);
            assert(rest[0] == chars@[i as int]);
            assert(rest.drop_first() =~= chars@.skip(i + 1));
        }
        let c = chars[i];
        let next_is_star = i + 1 < n && chars[i + 1] == '*';
        proof {
            assert(next_is_star == (rest.len() >= 2 && rest[1] == '*'));
        }
        scan_step(
            &mut objects,
            &mut buf,
            &mut second,
            &mut last,
            &mut in_link,
            &mut link_text,
            &mut is_image,
            &mut image_alt,
            style,
            c,
            next_is_star,
            Ghost(rest),
        );
        i = i + 1;
    }
    proof {
        assert(chars@.skip(n as int) =~= Seq::<char>::empty());
    }
    if buf.len() > 0 {
        push_node(&mut objects, Object::Text(crate::text::chars_string(&buf)));
    }
    objects
}

/// One line's inline markup, scanned with the given style state. The style
/// is shared across lines: a toggle left open here is still open when the
/// next line is scanned.
pub fn parse_text(style: &mut ObjectStyle, line: &str) -> (r: Vec<Object>)
    ensures
        nodes_of(r@) == flushed(scan(scan_init(*old(style)), line@)),
        *final(style) == scan(scan_init(*old(style)), line@).style,
{
    let chars = crate::text::str_chars(line);
    scan_text(style, &chars)
}

/// The whole document: lines split on line feeds, each line classified by
/// its trimmed form as a heading, a blank line, or paragraph text.
pub fn parse(source: String) -> (r: Vec<Object>)
    ensures
        nodes_of(r@) == spec_parse(source@),
{
    broadcast use lemma_nodes_of_len, lemma_nodes_of_push, lemma_nodes_of_concat;

    let chars = crate::text::str_chars(source.as_str());
    let n = chars.len();
    let mut objects: Vec<Object> = Vec::new();
    let mut style = ObjectStyle::default();
    let mut pos: usize = 0;
    let mut more = true;
    proof {
        assert(chars@.skip(0) =~= chars@);
        assert(nodes_of(Seq::<Object>::empty()) == Seq::<Node>::empty());
        assert(Seq::<Node>::empty() + spec_parse(chars@) =~= spec_parse(chars@));
    }
    while more
        invariant
            pos <= n,
            n == chars@.len(),
            chars@ == source@,
            more ==> nodes_of(objects@) + parse_lines(style, split_lines(chars@.skip(pos as int))).0
                =~= spec_parse(chars@),
            !more ==> nodes_of(objects@) =~= spec_parse(chars@),
        decreases n - pos + (if more { 1int } else { 0int }),
    {
        let ghost rem = chars@.skip(pos as int);
        let ghost style0 = style;
        let ghost objects0 = objects@;
        let mut j = pos;
        while j < n && chars[j] != '\n'
            invariant
                pos <= j <= n,
                n == chars@.len(),
                forall|k: int| pos <= k < j ==> chars@[k] != '\n',
            decreases n - j,
        {
            j = j + 1;
        }
        proof {
            assert(forall|k: int| 0 <= k < j - pos ==> rem[k] != '\n');
            lemma_first_nl_at(rem, j - pos);
        }
        let line = crate::text::subrange_chars(&chars, pos, j);
        proof {
            assert(line@ =~= rem.take(j - pos));
        }
        let ghost pl = parse_line(style0, line@);
        let trimmed = crate::text::trim_chars(&line);
        if trimmed.len() > 0 && trimmed[0] == '#' {
            let mut cnt: usize = 0;
            while cnt < line.len() && line[cnt] == '#'
                invariant
                    0 <= cnt <= line@.len(),
                    forall|k: int| 0 <= k < cnt ==> line@[k] == '#',
                decreases line@.len() - cnt,
            {
                cnt = cnt + 1;
            }
            proof {
                lemma_hash_count_prefix(line@, cnt as int);
            }
            let level: u8 = if cnt > 255 {
                255
            } else {
                cnt as u8
            };
            let tail = crate::text::subrange_chars(&line, cnt, line.len());
            proof {
                assert(tail@ =~= line@.skip(cnt as int));
            }
            let content = crate::text::trim_start_chars(&tail);
            let children = scan_text(&mut style, &content);
            push_node(&mut objects, Object::Head(level, children));
            proof {
                assert(content@ == head_content(line@));
                assert(level == head_level(line@));
                assert(pl.0 =~= seq![
                    Node::Head(
                        head_level(line@),
                        flushed(scan(scan_init(style0), head_content(line@))),
                    ),
                ]);
                assert(nodes_of(objects@) =~= nodes_of(objects0) + pl.0);
                assert(style == pl.1);
            }
        } else if trimmed.len() == 0 {
            push_node(&mut objects, Object::LineBreak);
            proof {
                assert(nodes_of(objects@) =~= nodes_of(objects0) + pl.0);
                assert(style == pl.1);
            }
        } else {
            let mut res = scan_text(&mut style, &trimmed);
            let ghost resv = res@;
            objects.append(&mut res);
            proof {
                lemma_nodes_of_concat(objects0, resv);
                assert(nodes_of(objects@) =~= nodes_of(objects0) + pl.0);
                assert(style == pl.1);
            }
        }
        proof {
            let lines_rem = split_lines(rem);
            if j < n {
                assert(lines_rem == seq![rem.take(j - pos)] + split_lines(rem.skip(j - pos + 1)));
                assert(lines_rem[0] == line@);
                assert(lines_rem.drop_first() =~= split_lines(rem.skip(j - pos + 1)));
                assert(rem.skip(j - pos + 1) =~= chars@.skip(j + 1));
            } else {
                assert(rem.take(j - pos) =~= rem);
                assert(lines_rem == seq![rem]);
                assert(lines_rem[0] == line@);
                assert(lines_rem.drop_first() =~= Seq::<Seq<char>>::empty());
            }
            assert(parse_lines(style0, lines_rem).0
                == pl.0 + parse_lines(pl.1, lines_rem.drop_first()).0);
            assert(parse_lines(style0, lines_rem).1
                == parse_lines(pl.1, lines_rem.drop_first()).1);
        }
        if j < n {
            pos = j + 1;
            proof {
                assert(nodes_of(objects@) + parse_lines(style, split_lines(chars@.skip(pos as int))).0
                    =~= (nodes_of(objects0) + pl.0) + parse_lines(pl.1, split_lines(chars@.skip(pos as int))).0);
                assert((nodes_of(objects0) + pl.0) + parse_lines(pl.1, split_lines(chars@.skip(pos as int))).0
                    =~= nodes_of(objects0) + (pl.0 + parse_lines(pl.1, split_lines(chars@.skip(pos as int))).0));
                assert(nodes_of(objects0) + parse_lines(style0, split_lines(rem)).0
                    =~= spec_parse(chars@));
            }
        } else {
            more = false;
            proof {
                assert(parse_lines(pl.1, Seq::<Seq<char>>::empty()).0 == Seq::<Node>::empty());
                assert(pl.0 + Seq::<Node>::empty() =~= pl.0);
                assert(nodes_of(objects@) =~= nodes_of(objects0) + parse_lines(style0, split_lines(rem)).0);
            }
        }
    }
    objects
}

} // verus!
