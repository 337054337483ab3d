//! The formatter: walks the parsed node sequence and emits an HTML
//! fragment, tracking whether a heading or a paragraph is open.

use vstd::prelude::*;
use vstd::string::*;
use crate::parser::{Node, Object, nodes_of, lemma_nodes_of_len, lemma_nodes_of_index};

verus! {

broadcast use vstd::seq::group_seq_axioms, vstd::std_specs::vec::group_vec_axioms;

/// The rendering state: whether the cursor stands inside a heading, whether
/// a block was just closed, and whether a paragraph is open.
#[derive(Clone, Copy, PartialEq, Eq, Structural, Debug)]
pub struct FormattingInformations {
    pub is_head: bool,
    pub is_paragraph: bool,
    pub in_paragraph: bool,
}

/// The state at the start of a render: nothing open.
pub open spec fn initial_infos() -> FormattingInformations {
    FormattingInformations { is_head: false, is_paragraph: false, in_paragraph: false }
}

impl Default for FormattingInformations {
    /// The state at the start of a render: nothing open.
    fn default() -> (r: Self)
        ensures
            r == initial_infos(),
    {
        FormattingInformations { is_head: false, is_paragraph: false, in_paragraph: false }
    }
}

/// What one render pass yields: the emitted text, the state it leaves
/// behind, and how many paragraphs it opened minus how many it closed.
#[verifier::ext_equal]
pub struct RenderOut {
    pub text: Seq<char>,
    pub state: FormattingInformations,
    pub pdelta: int,
}

pub open spec fn p_open() -> Seq<char> {
    seq!['<', 'p', '>']
}

pub open spec fn p_close() -> Seq<char> {
    seq!['<', '/', 'p', '>']
}

pub open spec fn br_tag() -> Seq<char> {
    seq!['<', 'b', 'r', '>']
}

pub open spec fn anchor_pre() -> Seq<char> {
    seq!['<', 'a', ' ', 'h', 'r', 'e', 'f', '=', '"']
}

pub open spec fn anchor_mid() -> Seq<char> {
    seq!['"', ' ', 't', 'a', 'r', 'g', 'e', 't', '=', '"', '_', 'b', 'l', 'a', 'n', 'k', '"', '>']
}

pub open spec fn anchor_close() -> Seq<char> {
    seq!['<', '/', 'a', '>']
}

pub open spec fn img_pre() -> Seq<char> {
    seq!['<', 'i', 'm', 'g', ' ', 's', 'r', 'c', '=', '"']
}

pub open spec fn img_mid() -> Seq<char> {
    seq!['"', ' ', 'a', 'l', 't', '=', '"']
}

pub open spec fn img_post() -> Seq<char> {
    seq!['"', '>']
}

/// The decimal digit `d` as a character.
pub open spec fn digit_char(d: u8) -> char
    recommends
        d < 10,
{
    ((48 + d) as u8) as char
}

/// The decimal digits of a heading level.
pub open spec fn level_str(n: u8) -> Seq<char> {
    if n < 10 {
        seq![digit_char(n)]
    } else if n < 100 {
        seq![digit_char(n / 10), digit_char(n % 10)]
    } else {
        seq![digit_char(n / 100), digit_char((n / 10) % 10), digit_char(n % 10)]
    }
}

pub open spec fn head_open(level: u8) -> Seq<char> {
    seq!['<', 'h'] + level_str(level) + seq!['>']
}

pub open spec fn head_close(level: u8) -> Seq<char> {
    seq!['<', '/', 'h'] + level_str(level) + seq!['>']
}

/// Whether a node is a style toggle marker.
pub open spec fn is_toggle(n: Node) -> bool {
    n == Node::Bold || n == Node::Italic || n == Node::Underline || n == Node::StrikeThrough
}

pub open spec fn toggle_open(n: Node) -> Seq<char> {
    if n == Node::Bold {
        seq!['<', 's', 't', 'r', 'o', 'n', 'g', '>']
    } else if n == Node::Italic {
        seq!['<', 'i', '>']
    } else if n == Node::Underline {
        seq!['<', 'u', '>']
    } else {
        seq!['<', 's', '>']
    }
}

pub open spec fn toggle_close(n: Node) -> Seq<char> {
    if n == Node::Bold {
        seq!['<', '/', 's', 't', 'r', 'o', 'n', 'g', '>']
    } else if n == Node::Italic {
        seq!['<', '/', 'i', '>']
    } else if n == Node::Underline {
        seq!['<', '/', 'u', '>']
    } else {
        seq!['<', '/', 's', '>']
    }
}

/// The position of the next toggle of the same kind as `kind` in
/// `nodes[from..end]`, or `end` if there is none.
pub open spec fn find_toggle(nodes: Seq<Node>, from: int, end: int, kind: Node) -> int
    decreases end - from,
{
    if from < 0 || from >= end {
        end
    } else if nodes[from] == kind {
        from
    } else {
        find_toggle(nodes, from + 1, end, kind)
    }
}

pub proof fn lemma_find_toggle_bounds(nodes: Seq<Node>, from: int, end: int, kind: Node)
    requires
        from <= end,
    ensures
        from <= find_toggle(nodes, from, end, kind) <= end,
    decreases end - from,
{
    if 0 <= from < end && nodes[from] != kind {
        lemma_find_toggle_bounds(nodes, from + 1, end, kind);
    }
}

pub proof fn lemma_find_toggle_at(nodes: Seq<Node>, from: int, end: int, kind: Node, j: int)
    requires
        0 <= from <= j <= end,
        forall|k: int| from <= k < j ==> nodes[k] != kind,
        j == end || nodes[j] == kind,
    ensures
        find_toggle(nodes, from, end, kind) == j,
    decreases j - from,
{
    if from < j {
        lemma_find_toggle_at(nodes, from + 1, end, kind, j);
    }
}

/// The render of `nodes[i..end]` starting in state `st`.
///
/// Text opens a paragraph unless one is open or a heading is being
/// rendered; headings and images close an open paragraph first; a line
/// break stands inside the paragraph; a toggle looks ahead for the next
/// toggle of its kind, renders the run between them wrapped in the matching
/// element, and leaves an unterminated run unwrapped.
pub open spec fn render(nodes: Seq<Node>, i: int, end: int, st: FormattingInformations) -> RenderOut
    decreases nodes, end - i,
    via render_decreases
{
    if i < 0 || i >= end || end > nodes.len() {
        RenderOut { text: Seq::empty(), state: st, pdelta: 0 }
    } else {
        match nodes[i] {
            Node::Text(t) => {
                if st.is_head || st.in_paragraph {
                    let tail = render(nodes, i + 1, end, st);
                    RenderOut { text: t + tail.text, state: tail.state, pdelta: tail.pdelta }
                } else {
                    let st2 = FormattingInformations {
                        is_head: false,
                        is_paragraph: true,
                        in_paragraph: true,
                    };
                    let tail = render(nodes, i + 1, end, st2);
                    RenderOut {
                        text: p_open() + t + tail.text,
                        state: tail.state,
                        pdelta: 1 + tail.pdelta,
                    }
                }
            },
            Node::Link(children, href) => {
                let inner = render(children, 0, children.len() as int, st);
                let tail = render(nodes, i + 1, end, inner.state);
                RenderOut {
                    text: anchor_pre() + href + anchor_mid() + inner.text + anchor_close()
                        + tail.text,
                    state: tail.state,
                    pdelta: inner.pdelta + tail.pdelta,
                }
            },
            Node::Image(url, alt) => {
                let closing = if st.in_paragraph {
                    p_close()
                } else {
                    Seq::<char>::empty()
                };
                let d0: int = if st.in_paragraph {
                    -1
                } else {
                    0
                };
                let alt_text = match alt {
                    Some(a) => a,
                    None => Seq::<char>::empty(),
                };
                let st2 = FormattingInformations { in_paragraph: false, ..st };
                let tail = render(nodes, i + 1, end, st2);
                RenderOut {
                    text: closing + img_pre() + url + img_mid() + alt_text + img_post()
                        + tail.text,
                    state: tail.state,
                    pdelta: d0 + tail.pdelta,
                }
            },
            Node::Head(level, children) => {
                let closing = if st.in_paragraph {
                    p_close()
                } else {
                    Seq::<char>::empty()
                };
                let d0: int = if st.in_paragraph {
                    -1
                } else {
                    0
                };
                let st2 = FormattingInformations {
                    is_head: true,
                    is_paragraph: false,
                    in_paragraph: false,
                };
                let inner = render(children, 0, children.len() as int, st2);
                let st3 = FormattingInformations {
                    is_head: false,
                    is_paragraph: true,
                    ..inner.state
                };
                let tail = render(nodes, i + 1, end, st3);
                RenderOut {
                    text: closing + head_open(level) + inner.text + head_close(level) + tail.text,
                    state: tail.state,
                    pdelta: d0 + inner.pdelta + tail.pdelta,
                }
            },
            Node::LineBreak => {
                let tail = render(nodes, i + 1, end, st);
                RenderOut { text: br_tag() + tail.text, state: tail.state, pdelta: tail.pdelta }
            },
            _ => {
                let opening = if !st.in_paragraph {
                    p_open()
                } else {
                    Seq::<char>::empty()
                };
                let d0: int = if !st.in_paragraph {
                    1
                } else {
                    0
                };
                let st2 = FormattingInformations { in_paragraph: true, ..st };
                let j = find_toggle(nodes, i + 1, end, nodes[i]);
                if j < end {
                    let inner = render(nodes, i + 1, j, st2);
                    let tail = render(nodes, j + 1, end, inner.state);
                    RenderOut {
                        text: opening + toggle_open(nodes[i]) + inner.text
                            + toggle_close(nodes[i]) + tail.text,
                        state: tail.state,
                        pdelta: d0 + inner.pdelta + tail.pdelta,
                    }
                } else {
                    let inner = render(nodes, i + 1, end, st2);
                    RenderOut {
                        text: opening + inner.text,
                        state: inner.state,
                        pdelta: d0 + inner.pdelta,
                    }
                }
            },
        }
    }
}

#[via_fn]
proof fn render_decreases(nodes: Seq<Node>, i: int, end: int, st: FormattingInformations) {
    if 0 <= i < end && end <= nodes.len() {
        vstd::seq::axiom_seq_index_decreases(nodes, i);
        match nodes[i] {
            Node::Link(children, href) => {
                assert(decreases_to!(nodes => nodes[i]));
                assert(decreases_to!(nodes[i] => children));
            },
            Node::Head(level, children) => {
                assert(decreases_to!(nodes => nodes[i]));
                assert(decreases_to!(nodes[i] => children));
            },
            _ => {
                lemma_find_toggle_bounds(nodes, i + 1, end, nodes[i]);
            },
        }
    }
}

/// The model of a whole format pass: render everything from a clean state,
/// then close the paragraph that is still open, if there is one.
pub open spec fn spec_format(nodes: Seq<Node>) -> Seq<char> {
    let r = render(nodes, 0, nodes.len() as int, initial_infos());
    if r.state.in_paragraph {
        r.text + p_close()
    } else {
        r.text
    }
}

/// Appends the characters of `s`.
fn push_str_chars(out: &mut Vec<char>, s: &str)
    ensures
        final(out)@ == old(out)@ + s@,
{
    let mut v = crate::text::str_chars(s);
    out.append(&mut v);
}

/// Appends the decimal digits of a heading level.
fn push_level(out: &mut Vec<char>, level: u8)
    ensures
        final(out)@ == old(out)@ + level_str(level),
{
    let ghost out0 = out@;
    if level < 10 {
        out.push((48u8 + level) as char);
        proof {
            assert(out@ =~= out0 + level_str(level));
        }
    } else if level < 100 {
        out.push((48u8 + level / 10) as char);
        out.push((48u8 + level % 10) as char);
        proof {
            assert(out@ =~= out0 + level_str(level));
        }
    } else {
        out.push((48u8 + level / 100) as char);
        out.push((48u8 + (level / 10) % 10) as char);
        out.push((48u8 + level % 10) as char);
        proof {
            assert(out@ =~= out0 + level_str(level));
        }
    }
}

/// Whether `a` is a toggle of the same kind as the toggle `b`.
fn same_toggle(a: &Object, b: &Object) -> (r: bool)
    ensures
        r == (is_toggle(b.node()) && a.node() == b.node()),
{
    match (a, b) {
        (Object::Bold, Object::Bold) => true,
        (Object::Italic, Object::Italic) => true,
        (Object::Underline, Object::Underline) => true,
        (Object::StrikeThrough, Object::StrikeThrough) => true,
        _ => false,
    }
}

/// Renders a link node: the link text rendered recursively, wrapped in an
/// anchor that opens in a new tab.
#[verifier::rlimit(100)]
fn render_link(
    objects: &Vec<Object>,
    i: usize,
    end: usize,
    t: &Vec<Object>,
    l: &String,
    infos: &mut FormattingInformations,
    out: &mut Vec<char>,
) -> (next: usize)
    requires
        i < end <= objects@.len(),
        objects@[i as int] == Object::Link(*t, *l),
    ensures
        i < next <= end,
        old(out)@ + render(nodes_of(objects@), i as int, end as int, *old(infos)).text
            == final(out)@ + render(nodes_of(objects@), next as int, end as int, *final(infos)).text,
        render(nodes_of(objects@), i as int, end as int, *old(infos)).state
            == render(nodes_of(objects@), next as int, end as int, *final(infos)).state,
    decreases objects, end - i, 1int,
{
    broadcast use lemma_nodes_of_len, lemma_nodes_of_index;

    let ghost ns = nodes_of(objects@);
    let ghost st0 = *infos;
    let ghost out0 = out@;
    proof {
        assert(ns[i as int] == objects@[i as int].node());
    }
        push_str_chars(out, "<a href=\"");
        push_str_chars(out, l.as_str());
        push_str_chars(out, "\" target=\"_blank\">");
        proof {
            vstd::std_specs::vec::axiom_vec_index_decreases(*objects, i as int);
            assert(decreases_to!(*objects => objects@[i as int]));
        }
        render_at(t, 0, t.len(), infos, out);
        push_str_chars(out, "</a>");
        proof {
            reveal_strlit("<a href=\"");
            reveal_strlit("\" target=\"_blank\">");
            reveal_strlit("</a>");
            assert("<a href=\""@ =~= anchor_pre());
            assert("\" target=\"_blank\">"@ =~= anchor_mid());
            assert("</a>"@ =~= anchor_close());
            assert(out0 + render(ns, i as int, end as int, st0).text =~= out@ + render(
                ns,
                i + 1,
                end as int,
                *infos,
            ).text);
        }
            i + 1
}

/// Renders a heading node: closes an open paragraph, renders the heading
/// text in heading state, and wraps it at the given level.
#[verifier::rlimit(100)]
fn render_head(
    objects: &Vec<Object>,
    i: usize,
    end: usize,
    level: u8,
    children: &Vec<Object>,
    infos: &mut FormattingInformations,
    out: &mut Vec<char>,
) -> (next: usize)
    requires
        i < end <= objects@.len(),
        objects@[i as int] == Object::Head(level, *children),
    ensures
        i < next <= end,
        old(out)@ + render(nodes_of(objects@), i as int, end as int, *old(infos)).text
            == final(out)@ + render(nodes_of(objects@), next as int, end as int, *final(infos)).text,
        render(nodes_of(objects@), i as int, end as int, *old(infos)).state
            == render(nodes_of(objects@), next as int, end as int, *final(infos)).state,
    decreases objects, end - i, 1int,
{
    broadcast use lemma_nodes_of_len, lemma_nodes_of_index;

    let ghost ns = nodes_of(objects@);
    let ghost st0 = *infos;
    let ghost out0 = out@;
    proof {
        assert(ns[i as int] == objects@[i as int].node());
    }
        if infos.in_paragraph {
            push_str_chars(out, "</p>");
            infos.in_paragraph = false;
        }
        infos.is_head = true;
        infos.is_paragraph = false;
        push_str_chars(out, "<h");
        push_level(out, level);
        push_str_chars(out, ">");
        proof {
            vstd::std_specs::vec::axiom_vec_index_decreases(*objects, i as int);
            assert(decreases_to!(*objects => objects@[i as int]));
        }
        render_at(children, 0, children.len(), infos, out);
        push_str_chars(out, "</h");
        push_level(out, level);
        push_str_chars(out, ">");
        infos.is_head = false;
        infos.is_paragraph = true;
        proof {
            reveal_strlit("</p>");
            reveal_strlit("<h");
            reveal_strlit("</h");
            reveal_strlit(">");
            assert("</p>"@ =~= p_close());
            assert("<h"@ =~= seq!['<', 'h']);
            assert("</h"@ =~= seq!['<', '/', 'h']);
            assert(">"@ =~= seq!['>']);
            assert(out0 + render(ns, i as int, end as int, st0).text =~= out@ + render(
                ns,
                i + 1,
                end as int,
                *infos,
            ).text);
        }
            i + 1
}

/// Renders a toggle marker: opens a paragraph if none is open, scans
/// forward for the next toggle of the same kind, renders the run between
/// them wrapped in the matching inline element, and leaves the run of an
/// unterminated toggle unwrapped.
#[verifier::rlimit(100)]
fn render_toggle(
    objects: &Vec<Object>,
    i: usize,
    end: usize,
    infos: &mut FormattingInformations,
    out: &mut Vec<char>,
) -> (next: usize)
    requires
        i < end <= objects@.len(),
        is_toggle(objects@[i as int].node()),
    ensures
        i < next <= end,
        old(out)@ + render(nodes_of(objects@), i as int, end as int, *old(infos)).text
            == final(out)@ + render(nodes_of(objects@), next as int, end as int, *final(infos)).text,
        render(nodes_of(objects@), i as int, end as int, *old(infos)).state
            == render(nodes_of(objects@), next as int, end as int, *final(infos)).state,
    decreases objects, end - i, 1int,
{
    broadcast use lemma_nodes_of_len, lemma_nodes_of_index;

    let ghost ns = nodes_of(objects@);
    let ghost st0 = *infos;
    let ghost out0 = out@;
    proof {
        assert(ns[i as int] == objects@[i as int].node());
    }
    let o = &objects[i];
        if !infos.in_paragraph {
            push_str_chars(out, "<p>");
            infos.in_paragraph = true;
        }
        let mut j = i + 1;
        while j < end && !same_toggle(&objects[j], o)
            invariant
                i < end <= objects@.len(),
                i + 1 <= j <= end,
                ns == nodes_of(objects@),
                is_toggle(ns[i as int]),
                o.node() == ns[i as int],
                forall|k: int| i + 1 <= k < j ==> ns[k] != ns[i as int],
            decreases end - j,
        {
            proof {
                lemma_nodes_of_index(objects@, j as int);
                assert(ns[j as int] == objects@[j as int].node());
            }
            j = j + 1;
        }
        proof {
            if j < end {
                lemma_nodes_of_index(objects@, j as int);
                assert(ns[j as int] == objects@[j as int].node());
            }
            lemma_find_toggle_at(ns, i + 1, end as int, ns[i as int], j as int);
        }
        if j < end {
            match o {
                Object::Bold => push_str_chars(out, "<strong>"),
                Object::Italic => push_str_chars(out, "<i>"),
                Object::Underline => push_str_chars(out, "<u>"),
                _ => push_str_chars(out, "<s>"),
            }
            render_at(objects, i + 1, j, infos, out);
            match o {
                Object::Bold => push_str_chars(out, "</strong>"),
                Object::Italic => push_str_chars(out, "</i>"),
                Object::Underline => push_str_chars(out, "</u>"),
                _ => push_str_chars(out, "</s>"),
            }
            proof {
                reveal_strlit("<p>");
                reveal_strlit("<strong>");
                reveal_strlit("</strong>");
                reveal_strlit("<i>");
                reveal_strlit("</i>");
                reveal_strlit("<u>");
                reveal_strlit("</u>");
                reveal_strlit("<s>");
                reveal_strlit("</s>");
                assert("<p>"@ =~= p_open());
                assert("<strong>"@ =~= toggle_open(Node::Bold));
                assert("</strong>"@ =~= toggle_close(Node::Bold));
                assert("<i>"@ =~= toggle_open(Node::Italic));
                assert("</i>"@ =~= toggle_close(Node::Italic));
                assert("<u>"@ =~= toggle_open(Node::Underline));
                assert("</u>"@ =~= toggle_close(Node::Underline));
                assert("<s>"@ =~= toggle_open(Node::StrikeThrough));
                assert("</s>"@ =~= toggle_close(Node::StrikeThrough));
                assert(out0 + render(ns, i as int, end as int, st0).text =~= out@ + render(
                    ns,
                    j + 1,
                    end as int,
                    *infos,
                ).text);
            }
            j + 1
        } else {
            render_at(objects, i + 1, end, infos, out);
            proof {
                reveal_strlit("<p>");
                assert("<p>"@ =~= p_open());
                assert(out0 + render(ns, i as int, end as int, st0).text =~= out@ + render(
                    ns,
                    end as int,
                    end as int,
                    *infos,
                ).text);
            }
            end
        }
}

/// Renders the one node at `i` (consuming, for a toggle, its whole run) and
/// says where to go on.
#[verifier::rlimit(100)]
fn render_one(
    objects: &Vec<Object>,
    i: usize,
    end: usize,
    infos: &mut FormattingInformations,
    out: &mut Vec<char>,
) -> (next: usize)
    requires
        i < end <= objects@.len(),
    ensures
        i < next <= end,
        old(out)@ + render(nodes_of(objects@), i as int, end as int, *old(infos)).text
            == final(out)@ + render(nodes_of(objects@), next as int, end as int, *final(infos)).text,
        render(nodes_of(objects@), i as int, end as int, *old(infos)).state
            == render(nodes_of(objects@), next as int, end as int, *final(infos)).state,
    decreases objects, end - i, 2int,
{
    broadcast use lemma_nodes_of_len, lemma_nodes_of_index;

    let ghost ns = nodes_of(objects@);
    let ghost st0 = *infos;
    let ghost out0 = out@;
    proof {
        assert(ns[i as int] == objects@[i as int].node());
    }
    let o = &objects[i];
    match o {
        Object::Text(t) => {
            if infos.is_head || infos.in_paragraph {
                push_str_chars(out, t.as_str());
            } else {
                push_str_chars(out, "<p>");
                push_str_chars(out, t.as_str());
                infos.is_paragraph = true;
                infos.in_paragraph = true;
                infos.is_head = false;
                proof {
                    reveal_strlit("<p>");
                    assert("<p>"@ =~= p_open());
                }
            }
            proof {
                assert(out0 + render(ns, i as int, end as int, st0).text =~= out@ + render(
                    ns,
                    i + 1,
                    end as int,
                    *infos,
                ).text);
            }
            i + 1
        },
        Object::Link(t, l) => {
            render_link(objects, i, end, t, l, infos, out)
        },
        Object::Image(url, alt) => {
            if infos.in_paragraph {
                push_str_chars(out, "</p>");
                infos.in_paragraph = false;
            }
            push_str_chars(out, "<img src=\"");
            push_str_chars(out, url.as_str());
            push_str_chars(out, "\" alt=\"");
            match alt {
                Some(a) => {
                    push_str_chars(out, a.as_str());
                },
                None => {},
            }
            push_str_chars(out, "\">");
            proof {
                reveal_strlit("</p>");
                reveal_strlit("<img src=\"");
                reveal_strlit("\" alt=\"");
                reveal_strlit("\">");
                assert("</p>"@ =~= p_close());
                assert("<img src=\""@ =~= img_pre());
                assert("\" alt=\""@ =~= img_mid());
                assert("\">"@ =~= img_post());
                assert(out0 + render(ns, i as int, end as int, st0).text =~= out@ + render(
                    ns,
                    i + 1,
                    end as int,
                    *infos,
                ).text);
            }
            i + 1
        },
        Object::Head(level, children) => {
            render_head(objects, i, end, *level, children, infos, out)
        },
        Object::LineBreak => {
            push_str_chars(out, "<br>");
            proof {
                reveal_strlit("<br>");
                assert("<br>"@ =~= br_tag());
                assert(out0 + render(ns, i as int, end as int, st0).text =~= out@ + render(
                    ns,
                    i + 1,
                    end as int,
                    *infos,
                ).text);
            }
            i + 1
        },
        _ => {
            render_toggle(objects, i, end, infos, out)
        },
    }
}

/// Renders the nodes of `objects[i..end]` in order, appending to `out`.
fn render_at(
    objects: &Vec<Object>,
    i: usize,
    end: usize,
    infos: &mut FormattingInformations,
    out: &mut Vec<char>,
)
    requires
        i <= end <= objects@.len(),
    ensures
        final(out)@ == old(out)@ + render(nodes_of(objects@), i as int, end as int, *old(infos)).text,
        *final(infos) == render(nodes_of(objects@), i as int, end as int, *old(infos)).state,
    decreases objects, end - i, 3int,
{
    let ghost ns = nodes_of(objects@);
    let ghost st0 = *infos;
    let ghost out0 = out@;
    let mut cur = i;
    while cur < end
        invariant
            i <= cur <= end <= objects@.len(),
            ns == nodes_of(objects@),
            out0 + render(ns, i as int, end as int, st0).text == out@ + render(
                ns,
                cur as int,
                end as int,
                *infos,
            ).text,
            render(ns, i as int, end as int, st0).state == render(
                ns,
                cur as int,
                end as int,
                *infos,
            ).state,
        decreases end - cur,
    {
        let next = render_one(objects, cur, end, infos, out);
        cur = next;
    }
    proof {
        assert(render(ns, end as int, end as int, *infos).text == Seq::<char>::empty());
        assert(out0 + render(ns, i as int, end as int, st0).text =~= out@);
    }
}

/// Renders a node sequence with the given state. The state is shared with
/// the caller: what the nodes leave open is visible afterwards.
pub fn format_internal(objects: Vec<Object>, infos: &mut FormattingInformations) -> (r: String)
    ensures
        r@ == render(nodes_of(objects@), 0, objects@.len() as int, *old(infos)).text,
        *final(infos) == render(nodes_of(objects@), 0, objects@.len() as int, *old(infos)).state,
{
    let mut out: Vec<char> = Vec::new();
    let end = objects.len();
    render_at(&objects, 0, end, infos, &mut out);
    crate::text::chars_string(&out)
}

/// Renders a whole document: everything from a clean state, and the final
/// closing paragraph tag where one is still open.
pub fn format(objects: Vec<Object>) -> (r: String)
    ensures
        r@ == spec_format(nodes_of(objects@)),
{
    proof {
        lemma_nodes_of_len(objects@);
    }
    let mut infos = FormattingInformations::default();
    let mut r = format_internal(objects, &mut infos);
    if infos.in_paragraph {
        r.append("</p>");
        proof {
            reveal_strlit("</p>");
            assert("</p>"@ =~= p_close());
        }
    }
    r
}

/// The renderer never opens a paragraph without closing it: over any
/// render, the number of paragraph-opening tags emitted minus the number of
/// paragraph-closing tags emitted equals the change of the `in_paragraph`
/// flag.
pub proof fn lemma_render_paragraph_delta(
    nodes: Seq<Node>,
    i: int,
    end: int,
    st: FormattingInformations,
)
    ensures
        render(nodes, i, end, st).pdelta == (if render(nodes, i, end, st).state.in_paragraph {
            1int
        } else {
            0int
        }) - (if st.in_paragraph {
            1int
        } else {
            0int
        }),
    decreases nodes, end - i,
{
    if 0 <= i < end && end <= nodes.len() {
        vstd::seq::axiom_seq_index_decreases(nodes, i);
        match nodes[i] {
            Node::Text(t) => {
                if st.is_head || st.in_paragraph {
                    lemma_render_paragraph_delta(nodes, i + 1, end, st);
                } else {
                    let st2 = FormattingInformations {
                        is_head: false,
                        is_paragraph: true,
                        in_paragraph: true,
                    };
                    lemma_render_paragraph_delta(nodes, i + 1, end, st2);
                }
            },
            Node::Link(children, href) => {
                assert(decreases_to!(nodes => nodes[i]));
                assert(decreases_to!(nodes[i] => children));
                lemma_render_paragraph_delta(children, 0, children.len() as int, st);
                let inner = render(children, 0, children.len() as int, st);
                lemma_render_paragraph_delta(nodes, i + 1, end, inner.state);
            },
            Node::Image(url, alt) => {
                let st2 = FormattingInformations { in_paragraph: false, ..st };
                lemma_render_paragraph_delta(nodes, i + 1, end, st2);
            },
            Node::Head(level, children) => {
                assert(decreases_to!(nodes => nodes[i]));
                assert(decreases_to!(nodes[i] => children));
                let st2 = FormattingInformations {
                    is_head: true,
                    is_paragraph: false,
                    in_paragraph: false,
                };
                lemma_render_paragraph_delta(children, 0, children.len() as int, st2);
                let inner = render(children, 0, children.len() as int, st2);
                let st3 = FormattingInformations {
                    is_head: false,
                    is_paragraph: true,
                    ..inner.state
                };
                lemma_render_paragraph_delta(nodes, i + 1, end, st3);
            },
            Node::LineBreak => {
                lemma_render_paragraph_delta(nodes, i + 1, end, st);
            },
            _ => {
                lemma_find_toggle_bounds(nodes, i + 1, end, nodes[i]);
                let st2 = FormattingInformations { in_paragraph: true, ..st };
                let j = find_toggle(nodes, i + 1, end, nodes[i]);
                if j < end {
                    lemma_render_paragraph_delta(nodes, i + 1, j, st2);
                    let inner = render(nodes, i + 1, j, st2);
                    lemma_render_paragraph_delta(nodes, j + 1, end, inner.state);
                } else {
                    lemma_render_paragraph_delta(nodes, i + 1, end, st2);
                }
            },
        }
    }
}

/// A whole format pass emits as many paragraph-closing tags as
/// paragraph-opening ones: the render from a clean state leaves at most one
/// paragraph open, and `spec_format` closes exactly that one at the end.
pub proof fn lemma_format_paragraphs_balanced(nodes: Seq<Node>)
    ensures
        render(nodes, 0, nodes.len() as int, initial_infos()).pdelta == (if render(
            nodes,
            0,
            nodes.len() as int,
            initial_infos(),
        ).state.in_paragraph {
            1int
        } else {
            0int
        }),
{
    lemma_render_paragraph_delta(nodes, 0, nodes.len() as int, initial_infos());
}

} // verus!
