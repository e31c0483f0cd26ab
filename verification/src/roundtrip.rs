use vstd::prelude::*;

use crate::chars::is_ws;
use crate::node::ChunkModel;
use crate::node::NodeKind;
use crate::node::NodeModel;
use crate::node::author_text;
use crate::node::chunk_suggestion;
use crate::node::chunks_suggestion;
use crate::node::closer_of;
use crate::node::node_suggestion;
use crate::node::opener_of;
use crate::node::root_model;
use crate::node::texts_only;
use crate::parser::ParseErrorModel;
use crate::parser::author_end;
use crate::parser::closer_kind_at;
use crate::parser::empty_node_model;
use crate::parser::handle_scan;
use crate::parser::lemma_no_author_at_tag;
use crate::parser::lemma_scan_from_exact;
use crate::parser::marker_at;
use crate::parser::opener_kind_at;
use crate::parser::parse_loop;
use crate::parser::parse_spec;
use crate::parser::push_chunk_top;
use crate::parser::push_text;
use crate::parser::scan_from;
use crate::parser::set_top_author;
use crate::parser::space_run;
use crate::parser::tag_at;
use crate::parser::with_chunk;
use crate::parser::ws_run;

verus! {

/// A character that scanning passes over without seeing anything: not part
/// of any tag, not an `@`, and not a newline (so the cosmetic newline strip
/// never fires).
pub open spec fn plain_char(c: char) -> bool {
    c != '+' && c != '-' && c != '%' && c != '[' && c != ']' && c != '@' && c != '\n'
}

/// Text made of plain characters only.
pub open spec fn plain_text(t: Seq<char>) -> bool {
    forall|j: int| 0 <= j < t.len() ==> plain_char(#[trigger] t[j])
}

/// A character an author handle may hold without confusing the scan: not
/// whitespace and not a tag character.
pub open spec fn handle_char(c: char) -> bool {
    !is_ws(c) && c != '+' && c != '-' && c != '%' && c != '[' && c != ']'
}

/// An author annotation exactly as the parser captures it from canonical
/// input: one space, `@`, a nonempty run of handle characters, one space.
pub open spec fn canonical_author(a: Option<Seq<char>>) -> bool {
    match a {
        None => true,
        Some(t) => t.len() >= 4 && t[0] == ' ' && t[1] == '@' && t.last() == ' ' && (forall|j: int|
            2 <= j < t.len() - 1 ==> handle_char(#[trigger] t[j])),
    }
}

/// Whether the last chunk, if it is text, does not end with a space (a
/// trailing space would be absorbed into a following author annotation when
/// the rendering is parsed again).
pub open spec fn last_not_space(cs: Seq<ChunkModel>) -> bool {
    cs.len() > 0 ==> match cs.last() {
        ChunkModel::Text(t) => t.len() > 0 && t.last() != ' ',
        ChunkModel::Node(_) => true,
    }
}

/// A chunk in the parser's image over plain text: nonempty plain text, or a
/// canonical non-root node.
pub open spec fn canonical_chunk(c: ChunkModel) -> bool
    decreases c, 0int,
{
    match c {
        ChunkModel::Text(t) => t.len() > 0 && plain_text(t),
        ChunkModel::Node(n) => n.kind != NodeKind::Root && canonical_node(n),
    }
}

/// A node in the parser's image over plain text: canonical chunks with no
/// two texts adjacent (the parser always separates text chunks by a tag), a
/// canonical author annotation, text-only contents for comments, and no
/// trailing space before an author annotation.
pub open spec fn canonical_node(n: NodeModel) -> bool
    decreases n, 1int,
{
    (forall|j: int| 0 <= j < n.contents.len() ==> canonical_chunk(#[trigger] n.contents[j]))
        && (forall|j: int|
        0 <= j < n.contents.len() - 1 ==> !((#[trigger] n.contents[j]) is Text && n.contents[j
            + 1] is Text)) && canonical_author(n.author) && (n.kind == NodeKind::Comment
        ==> texts_only(n.contents)) && (n.author is Some ==> last_not_space(n.contents))
}

/// A whole document tree in the parser's image over plain text: a root with
/// no author and at least one chunk (an empty document does not parse), all
/// of it canonical.
pub open spec fn canonical_tree(n: NodeModel) -> bool {
    n.kind == NodeKind::Root && n.author is None && n.contents.len() > 0 && canonical_node(n)
}

/// The tag strings, character by character.
proof fn lemma_tag_chars()
    ensures
        opener_of(NodeKind::Insertion) =~= seq!['+', '+', '['],
        opener_of(NodeKind::Deletion) =~= seq!['-', '-', '['],
        opener_of(NodeKind::Comment) =~= seq!['%', '%', '['],
        closer_of(NodeKind::Insertion) =~= seq![']', '+', '+'],
        closer_of(NodeKind::Deletion) =~= seq![']', '-', '-'],
        closer_of(NodeKind::Comment) =~= seq![']', '%', '%'],
        opener_of(NodeKind::Root) =~= Seq::<char>::empty(),
        closer_of(NodeKind::Root) =~= Seq::<char>::empty(),
{
    reveal_strlit("++[");
    reveal_strlit("--[");
    reveal_strlit("%%[");
    reveal_strlit("]++");
    reveal_strlit("]--");
    reveal_strlit("]%%");
    reveal_strlit("");
}

proof fn lemma_space_run_chars(s: Seq<char>, j: int)
    requires
        0 <= j <= s.len(),
    ensures
        0 <= space_run(s, j),
        j + space_run(s, j) <= s.len(),
        forall|m: int| j <= m < j + space_run(s, j) ==> s[m] == ' ',
        j + space_run(s, j) == s.len() || s[j + space_run(s, j)] != ' ',
    decreases s.len() - j,
{
    if j < s.len() && s[j] == ' ' {
        lemma_space_run_chars(s, j + 1);
    }
}

/// No marker is seen anywhere strictly inside a plain-text region `[a, b)`,
/// provided the character at `b` (if any) is not an `@`, and, if it is a
/// space, the text does not end with a space.
proof fn lemma_no_marker_in_text(s: Seq<char>, a: int, b: int)
    requires
        0 <= a <= b <= s.len(),
        forall|j: int| a <= j < b ==> plain_char(#[trigger] s[j]),
        b < s.len() ==> s[b] != '@',
        b < s.len() && s[b] == ' ' && a < b ==> s[b - 1] != ' ',
    ensures
        forall|j: int| a <= j < b ==> !marker_at(s, j),
{
    assert forall|j: int| a <= j < b implies !marker_at(s, j) by {
        assert(!tag_at(s, j));
        lemma_space_run_chars(s, j);
        let j2 = j + space_run(s, j);
        if j2 > b {
            assert(s[b - 1] == ' ');
            assert(s[b] == ' ');
            assert(false);
        }
        if j2 < b {
            assert(plain_char(s[j2]));
        }
        assert(j2 >= s.len() || s[j2] != '@');
        assert(author_end(s, j) is None);
    }
}

/// Scanning a canonical author annotation at `p` (one space, `@`, handle
/// characters, one space) recognizes it and stops right at the tag that
/// follows it.
proof fn lemma_handle_scan_plain(s: Seq<char>, k: int, e: int)
    requires
        0 <= k <= e < s.len(),
        forall|j: int| k <= j < e ==> handle_char(#[trigger] s[j]),
        s[e] == ' ',
        e + 1 == s.len() || tag_at(s, e + 1),
        e + 1 < s.len() ==> !is_ws(s[e + 1]),
    ensures
        handle_scan(s, k) == Some(e + 1),
    decreases e - k,
{
    if k == e {
        assert(ws_run(s, e) == 1 + ws_run(s, e + 1));
        assert(ws_run(s, e + 1) == 0);
    } else {
        assert(handle_char(s[k]));
        assert(ws_run(s, k) == 0);
        assert(!tag_at(s, k));
        lemma_handle_scan_plain(s, k + 1, e);
    }
}

/// A canonical author annotation `t` written at `p`, followed by a tag (or
/// nothing but that tag's absence at end of input), is exactly what
/// `author_end` captures.
proof fn lemma_author_end_canonical(s: Seq<char>, p: int, t: Seq<char>)
    requires
        0 <= p,
        p + t.len() < s.len(),
        canonical_author(Some(t)),
        forall|j: int| 0 <= j < t.len() ==> s[p + j] == t[j],
        tag_at(s, p + t.len()),
        !is_ws(s[p + t.len()]),
    ensures
        author_end(s, p) == Some(p + t.len()),
{
    assert(s[p] == ' ');
    assert(s[p + 1] == '@');
    assert(space_run(s, p) == 1 + space_run(s, p + 1)) by {
        assert(s[p] == ' ');
    }
    assert(space_run(s, p + 1) == 0) by {
        assert(s[p + 1] == '@');
    }
    let j = p + 1;
    assert(s[j + 1] == t[2]);
    assert(handle_char(t[2]));
    let e = p + t.len() - 1;
    assert(s[e] == ' ') by {
        assert(t[t.len() - 1] == ' ');
    }
    assert forall|m: int| j + 2 <= m < e implies handle_char(#[trigger] s[m]) by {
        assert(s[m] == t[m - p]);
        assert(handle_char(t[m - p]));
    }
    lemma_handle_scan_plain(s, j + 2, e);
}

} // verus!

verus! {

/// The literal rendering of the chunks from index `m` on.
pub open spec fn chunks_sfx(cs: Seq<ChunkModel>, m: int) -> Seq<char>
    decreases cs, cs.len() - m,
{
    if 0 <= m < cs.len() {
        chunk_suggestion(cs[m]) + chunks_sfx(cs, m + 1)
    } else {
        Seq::empty()
    }
}

proof fn lemma_sfx_eq(cs: Seq<ChunkModel>, i: int)
    requires
        0 <= i <= cs.len(),
    ensures
        chunks_sfx(cs, 0) == chunks_suggestion(cs, i) + chunks_sfx(cs, i),
    decreases i,
{
    if i == 0 {
        assert(chunks_suggestion(cs, 0) + chunks_sfx(cs, 0) =~= chunks_sfx(cs, 0));
    } else {
        lemma_sfx_eq(cs, i - 1);
        assert(chunks_sfx(cs, i - 1) == chunk_suggestion(cs[i - 1]) + chunks_sfx(cs, i));
        assert(chunks_suggestion(cs, i - 1) + (chunk_suggestion(cs[i - 1]) + chunks_sfx(cs, i))
            =~= chunks_suggestion(cs, i) + chunks_sfx(cs, i));
    }
}

proof fn lemma_scan_from_none(s: Seq<char>, i: int)
    requires
        0 <= i <= s.len(),
        forall|j: int| i <= j < s.len() ==> !marker_at(s, j),
    ensures
        scan_from(s, i) == s.len(),
    decreases s.len() - i,
{
    if i < s.len() {
        lemma_scan_from_none(s, i + 1);
    }
}

/// The literal rendering of a canonical chunk is never empty: text chunks
/// are nonempty, and a node's rendering holds its tags.
proof fn lemma_canonical_chunk_render_nonempty(c: ChunkModel)
    requires
        canonical_chunk(c),
    ensures
        chunk_suggestion(c).len() > 0,
{
    lemma_tag_chars();
    match c {
        ChunkModel::Text(_) => {},
        ChunkModel::Node(n) => {
            assert(closer_of(n.kind).len() == 3);
        },
    }
}

} // verus!

verus! {

/// What remains to be parsed of a node open at nesting position `m`: the
/// renderings of its remaining chunks, its author annotation, its closer.
pub open spec fn rest_render(
    full: Seq<ChunkModel>,
    m: int,
    author: Option<Seq<char>>,
    kind: NodeKind,
) -> Seq<char> {
    chunks_sfx(full, m) + author_text(author) + closer_of(kind)
}

proof fn lemma_opener_at(s: Seq<char>, b: int, k: NodeKind)
    requires
        k != NodeKind::Root,
        0 <= b,
        b + 3 <= s.len(),
        forall|j: int| 0 <= j < 3 ==> s[b + j] == opener_of(k)[j],
    ensures
        opener_kind_at(s, b) == Some(k),
        closer_kind_at(s, b) is None,
        tag_at(s, b),
        s[b] != '@',
        s[b] != ' ',
        !is_ws(s[b]),
{
    lemma_tag_chars();
    assert(s[b] == opener_of(k)[0]);
    assert(s[b + 1] == opener_of(k)[1]);
    assert(s[b + 2] == opener_of(k)[2]);
    match k {
        NodeKind::Insertion => {
            assert(s[b] == '+');
        },
        NodeKind::Deletion => {
            assert(s[b] == '-');
        },
        NodeKind::Comment => {
            assert(s[b] == '%');
        },
        NodeKind::Root => {},
    }
}

proof fn lemma_closer_at(s: Seq<char>, b: int, k: NodeKind)
    requires
        k != NodeKind::Root,
        0 <= b,
        b + 3 <= s.len(),
        forall|j: int| 0 <= j < 3 ==> s[b + j] == closer_of(k)[j],
    ensures
        closer_kind_at(s, b) == Some(k),
        opener_kind_at(s, b) is None,
        tag_at(s, b),
        s[b] != '@',
        s[b] != ' ',
        !is_ws(s[b]),
{
    lemma_tag_chars();
    assert(s[b] == closer_of(k)[0]);
    assert(s[b + 1] == closer_of(k)[1]);
    assert(s[b + 2] == closer_of(k)[2]);
    match k {
        NodeKind::Insertion => {
            assert(s[b] == ']');
        },
        NodeKind::Deletion => {
            assert(s[b] == ']');
        },
        NodeKind::Comment => {
            assert(s[b] == ']');
        },
        NodeKind::Root => {},
    }
}

/// The heart of the round-trip proof: with a node of kind `kind` open on
/// top of the stack and its first `m` chunks already built, parsing the
/// rest of its rendering closes the node exactly as rendered, and the parse
/// continues behind it.
#[verifier::rlimit(100)]
#[verifier::spinoff_prover]
proof fn lemma_parse_inside(
    s: Seq<char>,
    pos: int,
    stack: Seq<NodeModel>,
    full: Seq<ChunkModel>,
    m: int,
    author: Option<Seq<char>>,
    kind: NodeKind,
)
    requires
        stack.len() >= 2,
        stack.last() == (NodeModel { author: None, contents: full.subrange(0, m), kind }),
        stack[stack.len() - 2].kind != NodeKind::Comment,
        kind != NodeKind::Root,
        canonical_node(NodeModel { author, contents: full, kind }),
        0 <= m <= full.len(),
        0 <= pos,
        pos + rest_render(full, m, author, kind).len() <= s.len(),
        forall|j: int|
            0 <= j < rest_render(full, m, author, kind).len() ==> s[pos + j] == rest_render(
                full,
                m,
                author,
                kind,
            )[j],
    ensures
        parse_loop(stack, s, pos) == parse_loop(
            push_chunk_top(
                stack.drop_last(),
                ChunkModel::Node(NodeModel { author, contents: full, kind }),
            ),
            s,
            pos + rest_render(full, m, author, kind).len(),
        ),
    decreases full, full.len() - m,
{
    lemma_tag_chars();
    let target = NodeModel { author, contents: full, kind };
    let rr = rest_render(full, m, author, kind);
    if m == full.len() {
        assert(chunks_sfx(full, m) =~= Seq::<char>::empty());
        assert(full.subrange(0, m) =~= full);
        match author {
            None => {
                assert(rr =~= closer_of(kind));
                assert(rr.len() == 3);
                assert forall|j: int| 0 <= j < 3 implies s[pos + j] == closer_of(kind)[j] by {
                    assert(s[pos + j] == rr[j]);
                }
                lemma_closer_at(s, pos, kind);
                lemma_no_author_at_tag(s, pos);
                assert(scan_from(s, pos) == pos);
                let chunk = s.subrange(pos, pos);
                assert(chunk.len() == 0);
                assert(push_text(stack, chunk) == stack);
                let rest = stack.drop_last();
                assert(rest.last() == stack[stack.len() - 2]);
                assert(stack.last().kind == kind);
                assert(parse_loop(stack, s, pos) == parse_loop(
                    push_chunk_top(rest, ChunkModel::Node(stack.last())),
                    s,
                    pos + 3,
                ));
                assert(stack.last() == target);
            },
            Some(ta) => {
                assert(rr =~= ta + closer_of(kind));
                assert(rr.len() == ta.len() + 3);
                let b = pos + ta.len();
                assert forall|j: int| 0 <= j < ta.len() implies s[pos + j] == ta[j] by {
                    assert(s[pos + j] == rr[j]);
                }
                assert forall|j: int| 0 <= j < 3 implies s[b + j] == closer_of(kind)[j] by {
                    assert(s[b + j] == rr[ta.len() + j]);
                }
                lemma_closer_at(s, b, kind);
                lemma_author_end_canonical(s, pos, ta);
                assert(marker_at(s, pos));
                assert(scan_from(s, pos) == pos);
                let chunk = s.subrange(pos, pos);
                assert(chunk.len() == 0);
                let author_seq = s.subrange(pos, b);
                assert(author_seq =~= ta);
                assert(author_seq.last() == ' ');
                let stack1 = set_top_author(stack, author_seq);
                assert(push_text(stack1, chunk) == stack1);
                let finished = stack1.last();
                assert(finished == NodeModel {
                    author: Some(ta),
                    contents: stack.last().contents,
                    kind,
                });
                let rest = stack1.drop_last();
                assert(rest =~= stack.drop_last());
                assert(rest.last() == stack[stack.len() - 2]);
                assert(parse_loop(stack, s, pos) == parse_loop(
                    push_chunk_top(rest, ChunkModel::Node(finished)),
                    s,
                    b + 3,
                ));
                assert(finished == target);
            },
        }
    } else {
        assert(canonical_chunk(full[m]));
        assert(chunks_sfx(full, m) == chunk_suggestion(full[m]) + chunks_sfx(full, m + 1));
        let rr2 = rest_render(full, m + 1, author, kind);
        match full[m] {
            ChunkModel::Node(child) => {
                assert(child.kind != NodeKind::Root && canonical_node(child));
                assert(kind != NodeKind::Comment) by {
                    if kind == NodeKind::Comment {
                        assert(texts_only(full));
                        assert(full[m] is Text);
                    }
                }
                let lc = node_suggestion(child);
                assert(chunk_suggestion(full[m]) == lc);
                assert(rr =~= lc + rr2);
                lemma_sfx_eq(child.contents, child.contents.len() as int);
                assert(chunks_sfx(child.contents, child.contents.len() as int)
                    =~= Seq::<char>::empty());
                let rr_child = rest_render(child.contents, 0, child.author, child.kind);
                assert(lc =~= opener_of(child.kind) + rr_child);
                assert(opener_of(child.kind).len() == 3);
                assert forall|j: int| 0 <= j < 3 implies s[pos + j] == opener_of(child.kind)[j] by {
                    assert(s[pos + j] == rr[j]);
                    assert(rr[j] == lc[j]);
                }
                lemma_opener_at(s, pos, child.kind);
                lemma_no_author_at_tag(s, pos);
                assert(scan_from(s, pos) == pos);
                let chunk = s.subrange(pos, pos);
                assert((chunk + Seq::<char>::empty()).len() == 0);
                assert(push_text(stack, chunk + Seq::<char>::empty()) == stack);
                let st_open = stack.push(empty_node_model(child.kind));
                assert(parse_loop(stack, s, pos) == parse_loop(st_open, s, pos + 3));
                assert(st_open.last() == NodeModel {
                    author: None,
                    contents: child.contents.subrange(0, 0),
                    kind: child.kind,
                }) by {
                    assert(child.contents.subrange(0, 0) =~= Seq::<ChunkModel>::empty());
                }
                assert(st_open[st_open.len() - 2] == stack.last());
                assert forall|j: int| 0 <= j < rr_child.len() implies s[pos + 3 + j]
                    == rr_child[j] by {
                    assert(s[pos + 3 + j] == rr[3 + j]);
                    assert(rr[3 + j] == lc[3 + j]);
                    assert(lc[3 + j] == rr_child[j]);
                }
                assert(decreases_to!(full => full[m]));
                lemma_parse_inside(s, pos + 3, st_open, child.contents, 0, child.author, child.kind);
                assert(NodeModel {
                    author: child.author,
                    contents: child.contents,
                    kind: child.kind,
                } == child);
                assert(st_open.drop_last() =~= stack);
                let st_next = push_chunk_top(stack, ChunkModel::Node(child));
                assert(parse_loop(st_open, s, pos + 3) == parse_loop(
                    st_next,
                    s,
                    pos + 3 + rr_child.len(),
                ));
                assert(st_next.last() == NodeModel {
                    author: None,
                    contents: full.subrange(0, m + 1),
                    kind,
                }) by {
                    assert(full.subrange(0, m).push(ChunkModel::Node(child)) =~= full.subrange(
                        0,
                        m + 1,
                    ));
                }
                assert(st_next.len() == stack.len());
                assert(st_next[st_next.len() - 2] == stack[stack.len() - 2]);
                let posn = pos + lc.len();
                assert(posn == pos + 3 + rr_child.len());
                assert forall|j: int| 0 <= j < rr2.len() implies s[posn + j] == rr2[j] by {
                    assert(s[posn + j] == rr[lc.len() + j]);
                }
                lemma_parse_inside(s, posn, st_next, full, m + 1, author, kind);
                assert(st_next.drop_last() =~= stack.drop_last());
                assert(posn + rr2.len() == pos + rr.len());
            },
            ChunkModel::Text(t) => {
                assert(t.len() > 0 && plain_text(t));
                assert(chunk_suggestion(full[m]) == t);
                assert(rr =~= t + rr2);
                let b = pos + t.len();
                assert forall|j: int| 0 <= j < t.len() implies s[pos + j] == t[j] by {
                    assert(s[pos + j] == rr[j]);
                }
                assert forall|j: int| pos <= j < b implies plain_char(#[trigger] s[j]) by {
                    assert(s[j] == t[j - pos]);
                }
                assert(s[b - 1] == t.last());
                assert(plain_char(t.last()));
                assert forall|j: int| 0 <= j < rr2.len() implies s[b + j] == rr2[j] by {
                    assert(s[b + j] == rr[t.len() + j]);
                }
                if m + 1 < full.len() {
                    assert(!(full[m] is Text && full[m + 1] is Text));
                    match full[m + 1] {
                        ChunkModel::Text(_) => {
                            assert(false);
                        },
                        ChunkModel::Node(child) => {
                            assert(canonical_chunk(full[m + 1]));
                            assert(child.kind != NodeKind::Root && canonical_node(child));
                            assert(kind != NodeKind::Comment) by {
                                if kind == NodeKind::Comment {
                                    assert(texts_only(full));
                                    assert(full[m + 1] is Text);
                                }
                            }
                            let lc = node_suggestion(child);
                            assert(chunks_sfx(full, m + 1) == chunk_suggestion(full[m + 1])
                                + chunks_sfx(full, m + 2));
                            assert(chunk_suggestion(full[m + 1]) == lc);
                            let rr3 = rest_render(full, m + 2, author, kind);
                            assert(rr2 =~= lc + rr3);
                            lemma_sfx_eq(child.contents, child.contents.len() as int);
                            assert(chunks_sfx(child.contents, child.contents.len() as int)
                                =~= Seq::<char>::empty());
                            let rr_child = rest_render(
                                child.contents,
                                0,
                                child.author,
                                child.kind,
                            );
                            assert(lc =~= opener_of(child.kind) + rr_child);
                            assert(opener_of(child.kind).len() == 3);
                            assert forall|j: int| 0 <= j < 3 implies s[b + j] == opener_of(
                                child.kind,
                            )[j] by {
                                assert(s[b + j] == rr2[j]);
                                assert(rr2[j] == lc[j]);
                            }
                            lemma_opener_at(s, b, child.kind);
                            lemma_no_marker_in_text(s, pos, b);
                            lemma_scan_from_exact(s, pos, b);
                            lemma_no_author_at_tag(s, b);
                            let chunk = s.subrange(pos, b);
                            assert(chunk =~= t);
                            assert(chunk.last() != '\n');
                            assert((chunk + Seq::<char>::empty()) =~= t);
                            let st_text = push_text(stack, t);
                            let st_open = st_text.push(empty_node_model(child.kind));
                            assert(parse_loop(stack, s, pos) == parse_loop(st_open, s, b + 3));
                            assert(st_text.last() == with_chunk(
                                stack.last(),
                                ChunkModel::Text(t),
                            ));
                            assert(st_open.last() == NodeModel {
                                author: None,
                                contents: child.contents.subrange(0, 0),
                                kind: child.kind,
                            }) by {
                                assert(child.contents.subrange(0, 0)
                                    =~= Seq::<ChunkModel>::empty());
                            }
                            assert(st_open[st_open.len() - 2] == st_text.last());
                            assert(st_text.last().kind == kind);
                            assert forall|j: int| 0 <= j < rr_child.len() implies s[b + 3 + j]
                                == rr_child[j] by {
                                assert(s[b + 3 + j] == rr2[3 + j]);
                                assert(rr2[3 + j] == lc[3 + j]);
                                assert(lc[3 + j] == rr_child[j]);
                            }
                            assert(decreases_to!(full => full[m + 1]));
                            lemma_parse_inside(
                                s,
                                b + 3,
                                st_open,
                                child.contents,
                                0,
                                child.author,
                                child.kind,
                            );
                            assert(NodeModel {
                                author: child.author,
                                contents: child.contents,
                                kind: child.kind,
                            } == child);
                            assert(st_open.drop_last() =~= st_text);
                            let st_next = push_chunk_top(st_text, ChunkModel::Node(child));
                            assert(parse_loop(st_open, s, b + 3) == parse_loop(
                                st_next,
                                s,
                                b + 3 + rr_child.len(),
                            ));
                            assert(st_next.last() == NodeModel {
                                author: None,
                                contents: full.subrange(0, m + 2),
                                kind,
                            }) by {
                                assert(full.subrange(0, m).push(ChunkModel::Text(t)).push(
                                    ChunkModel::Node(child),
                                ) =~= full.subrange(0, m + 2));
                            }
                            assert(st_next.len() == stack.len());
                            assert(st_next[st_next.len() - 2] == stack[stack.len() - 2]);
                            let posn = b + lc.len();
                            assert(posn == b + 3 + rr_child.len());
                            assert forall|j: int| 0 <= j < rr3.len() implies s[posn + j]
                                == rr3[j] by {
                                assert(s[posn + j] == rr2[lc.len() + j]);
                            }
                            lemma_parse_inside(s, posn, st_next, full, m + 2, author, kind);
                            assert(st_next.drop_last() =~= stack.drop_last());
                            assert(posn + rr3.len() == pos + rr.len());
                        },
                    }
                } else {
                    assert(m + 1 == full.len());
                    assert(chunks_sfx(full, m + 1) =~= Seq::<char>::empty());
                    assert(full.subrange(0, m).push(ChunkModel::Text(t)) =~= full);
                    match author {
                        None => {
                            assert(rr2 =~= closer_of(kind));
                            assert forall|j: int| 0 <= j < 3 implies s[b + j] == closer_of(
                                kind,
                            )[j] by {
                                assert(s[b + j] == rr2[j]);
                            }
                            lemma_closer_at(s, b, kind);
                            lemma_no_marker_in_text(s, pos, b);
                            lemma_scan_from_exact(s, pos, b);
                            lemma_no_author_at_tag(s, b);
                            let chunk = s.subrange(pos, b);
                            assert(chunk =~= t);
                            assert(chunk.last() != '\n');
                            let st_text = push_text(stack, t);
                            let finished = st_text.last();
                            assert(finished == with_chunk(stack.last(), ChunkModel::Text(t)));
                            assert(finished == target);
                            let rest = st_text.drop_last();
                            assert(rest =~= stack.drop_last());
                            assert(rest.last() == stack[stack.len() - 2]);
                            assert(parse_loop(stack, s, pos) == parse_loop(
                                push_chunk_top(rest, ChunkModel::Node(finished)),
                                s,
                                b + 3,
                            ));
                            assert(b + 3 == pos + rr.len());
                        },
                        Some(ta) => {
                            assert(rr2 =~= ta + closer_of(kind));
                            let b2 = b + ta.len();
                            assert forall|j: int| 0 <= j < ta.len() implies s[b + j] == ta[j] by {
                                assert(s[b + j] == rr2[j]);
                            }
                            assert forall|j: int| 0 <= j < 3 implies s[b2 + j] == closer_of(
                                kind,
                            )[j] by {
                                assert(s[b2 + j] == rr2[ta.len() + j]);
                            }
                            lemma_closer_at(s, b2, kind);
                            lemma_author_end_canonical(s, b, ta);
                            assert(s[b] == ta[0]);
                            assert(last_not_space(full));
                            assert(full.last() == full[m]);
                            assert(t.last() != ' ');
                            lemma_no_marker_in_text(s, pos, b);
                            assert(marker_at(s, b));
                            lemma_scan_from_exact(s, pos, b);
                            let chunk = s.subrange(pos, b);
                            assert(chunk =~= t);
                            assert(chunk.last() != '\n');
                            let author_seq = s.subrange(b, b2);
                            assert(author_seq =~= ta);
                            assert(author_seq.last() == ' ');
                            let stack1 = set_top_author(stack, author_seq);
                            assert(stack1.last() == NodeModel {
                                author: Some(ta),
                                contents: stack.last().contents,
                                kind,
                            });
                            let st_text = push_text(stack1, t);
                            let finished = st_text.last();
                            assert(finished == with_chunk(stack1.last(), ChunkModel::Text(t)));
                            assert(finished == target);
                            let rest = st_text.drop_last();
                            assert(rest =~= stack.drop_last());
                            assert(rest.last() == stack[stack.len() - 2]);
                            assert(parse_loop(stack, s, pos) == parse_loop(
                                push_chunk_top(rest, ChunkModel::Node(finished)),
                                s,
                                b2 + 3,
                            ));
                            assert(b2 + 3 == pos + rr.len());
                        },
                    }
                }
            },
        }
    }
}

} // verus!

verus! {

/// The round-trip proof at the top level: with only the root open and the
/// rest of the document's rendering ahead, the parse ends at end of input
/// and returns the root with all its chunks.
#[verifier::rlimit(100)]
#[verifier::spinoff_prover]
proof fn lemma_parse_root(s: Seq<char>, pos: int, stack: Seq<NodeModel>, full: Seq<ChunkModel>, m: int)
    requires
        stack.len() == 1,
        stack[0] == (NodeModel {
            author: None,
            contents: full.subrange(0, m),
            kind: NodeKind::Root,
        }),
        canonical_node(NodeModel { author: None, contents: full, kind: NodeKind::Root }),
        0 <= m <= full.len(),
        0 <= pos,
        pos + chunks_sfx(full, m).len() == s.len(),
        forall|j: int|
            0 <= j < chunks_sfx(full, m).len() ==> s[pos + j] == chunks_sfx(full, m)[j],
    ensures
        parse_loop(stack, s, pos) == Ok::<NodeModel, ParseErrorModel>(
            NodeModel { author: None, contents: full, kind: NodeKind::Root },
        ),
    decreases full, full.len() - m,
{
    lemma_tag_chars();
    let target = NodeModel { author: None, contents: full, kind: NodeKind::Root };
    let rr = chunks_sfx(full, m);
    if m == full.len() {
        assert(rr =~= Seq::<char>::empty());
        assert(pos == s.len());
        assert(scan_from(s, pos) == pos);
        assert(space_run(s, pos) == 0);
        assert(author_end(s, pos) is None);
        let chunk = s.subrange(pos, pos);
        assert((chunk + Seq::<char>::empty()).len() == 0);
        assert(push_text(stack, chunk + Seq::<char>::empty()) == stack);
        assert(full.subrange(0, m) =~= full);
        assert(stack[0] == target);
        assert(parse_loop(stack, s, pos) == Ok::<NodeModel, ParseErrorModel>(target));
    } else {
        assert(canonical_chunk(full[m]));
        assert(rr == chunk_suggestion(full[m]) + chunks_sfx(full, m + 1));
        let rr2 = chunks_sfx(full, m + 1);
        match full[m] {
            ChunkModel::Node(child) => {
                assert(child.kind != NodeKind::Root && canonical_node(child));
                let lc = node_suggestion(child);
                assert(chunk_suggestion(full[m]) == lc);
                assert(rr =~= lc + rr2);
                lemma_sfx_eq(child.contents, child.contents.len() as int);
                assert(chunks_sfx(child.contents, child.contents.len() as int)
                    =~= Seq::<char>::empty());
                let rr_child = rest_render(child.contents, 0, child.author, child.kind);
                assert(lc =~= opener_of(child.kind) + rr_child);
                assert(opener_of(child.kind).len() == 3);
                assert forall|j: int| 0 <= j < 3 implies s[pos + j] == opener_of(child.kind)[j] by {
                    assert(s[pos + j] == rr[j]);
                    assert(rr[j] == lc[j]);
                }
                lemma_opener_at(s, pos, child.kind);
                lemma_no_author_at_tag(s, pos);
                assert(scan_from(s, pos) == pos);
                let chunk = s.subrange(pos, pos);
                assert((chunk + Seq::<char>::empty()).len() == 0);
                assert(push_text(stack, chunk + Seq::<char>::empty()) == stack);
                let st_open = stack.push(empty_node_model(child.kind));
                assert(parse_loop(stack, s, pos) == parse_loop(st_open, s, pos + 3));
                assert(st_open.last() == NodeModel {
                    author: None,
                    contents: child.contents.subrange(0, 0),
                    kind: child.kind,
                }) by {
                    assert(child.contents.subrange(0, 0) =~= Seq::<ChunkModel>::empty());
                }
                assert(st_open[st_open.len() - 2] == stack[0]);
                assert forall|j: int| 0 <= j < rr_child.len() implies s[pos + 3 + j]
                    == rr_child[j] by {
                    assert(s[pos + 3 + j] == rr[3 + j]);
                    assert(rr[3 + j] == lc[3 + j]);
                    assert(lc[3 + j] == rr_child[j]);
                }
                assert(decreases_to!(full => full[m]));
                lemma_parse_inside(s, pos + 3, st_open, child.contents, 0, child.author, child.kind);
                assert(NodeModel {
                    author: child.author,
                    contents: child.contents,
                    kind: child.kind,
                } == child);
                assert(st_open.drop_last() =~= stack);
                let st_next = push_chunk_top(stack, ChunkModel::Node(child));
                assert(parse_loop(st_open, s, pos + 3) == parse_loop(
                    st_next,
                    s,
                    pos + 3 + rr_child.len(),
                ));
                assert(st_next.len() == 1);
                assert(st_next[0] == NodeModel {
                    author: None,
                    contents: full.subrange(0, m + 1),
                    kind: NodeKind::Root,
                }) by {
                    assert(full.subrange(0, m).push(ChunkModel::Node(child)) =~= full.subrange(
                        0,
                        m + 1,
                    ));
                }
                let posn = pos + lc.len();
                assert(posn == pos + 3 + rr_child.len());
                assert forall|j: int| 0 <= j < rr2.len() implies s[posn + j] == rr2[j] by {
                    assert(s[posn + j] == rr[lc.len() + j]);
                }
                lemma_parse_root(s, posn, st_next, full, m + 1);
            },
            ChunkModel::Text(t) => {
                assert(t.len() > 0 && plain_text(t));
                assert(chunk_suggestion(full[m]) == t);
                assert(rr =~= t + rr2);
                let b = pos + t.len();
                assert forall|j: int| 0 <= j < t.len() implies s[pos + j] == t[j] by {
                    assert(s[pos + j] == rr[j]);
                }
                assert forall|j: int| pos <= j < b implies plain_char(#[trigger] s[j]) by {
                    assert(s[j] == t[j - pos]);
                }
                assert forall|j: int| 0 <= j < rr2.len() implies s[b + j] == rr2[j] by {
                    assert(s[b + j] == rr[t.len() + j]);
                }
                if m + 1 < full.len() {
                    assert(!(full[m] is Text && full[m + 1] is Text));
                    match full[m + 1] {
                        ChunkModel::Text(_) => {
                            assert(false);
                        },
                        ChunkModel::Node(child) => {
                            assert(canonical_chunk(full[m + 1]));
                            assert(child.kind != NodeKind::Root && canonical_node(child));
                            let lc = node_suggestion(child);
                            assert(chunks_sfx(full, m + 1) == chunk_suggestion(full[m + 1])
                                + chunks_sfx(full, m + 2));
                            assert(chunk_suggestion(full[m + 1]) == lc);
                            let rr3 = chunks_sfx(full, m + 2);
                            assert(rr2 =~= lc + rr3);
                            lemma_sfx_eq(child.contents, child.contents.len() as int);
                            assert(chunks_sfx(child.contents, child.contents.len() as int)
                                =~= Seq::<char>::empty());
                            let rr_child = rest_render(
                                child.contents,
                                0,
                                child.author,
                                child.kind,
                            );
                            assert(lc =~= opener_of(child.kind) + rr_child);
                            assert(opener_of(child.kind).len() == 3);
                            assert forall|j: int| 0 <= j < 3 implies s[b + j] == opener_of(
                                child.kind,
                            )[j] by {
                                assert(s[b + j] == rr2[j]);
                                assert(rr2[j] == lc[j]);
                            }
                            lemma_opener_at(s, b, child.kind);
                            lemma_no_marker_in_text(s, pos, b);
                            lemma_scan_from_exact(s, pos, b);
                            lemma_no_author_at_tag(s, b);
                            let chunk = s.subrange(pos, b);
                            assert(chunk =~= t);
                            assert(chunk.last() != '\n') by {
                                assert(plain_char(t.last()));
                            }
                            assert((chunk + Seq::<char>::empty()) =~= t);
                            let st_text = push_text(stack, t);
                            let st_open = st_text.push(empty_node_model(child.kind));
                            assert(parse_loop(stack, s, pos) == parse_loop(st_open, s, b + 3));
                            assert(st_text.last() == with_chunk(
                                stack[0],
                                ChunkModel::Text(t),
                            ));
                            assert(st_open.last() == NodeModel {
                                author: None,
                                contents: child.contents.subrange(0, 0),
                                kind: child.kind,
                            }) by {
                                assert(child.contents.subrange(0, 0)
                                    =~= Seq::<ChunkModel>::empty());
                            }
                            assert(st_open[st_open.len() - 2] == st_text.last());
                            assert(st_text.last().kind == NodeKind::Root);
                            assert forall|j: int| 0 <= j < rr_child.len() implies s[b + 3 + j]
                                == rr_child[j] by {
                                assert(s[b + 3 + j] == rr2[3 + j]);
                                assert(rr2[3 + j] == lc[3 + j]);
                                assert(lc[3 + j] == rr_child[j]);
                            }
                            assert(decreases_to!(full => full[m + 1]));
                            lemma_parse_inside(
                                s,
                                b + 3,
                                st_open,
                                child.contents,
                                0,
                                child.author,
                                child.kind,
                            );
                            assert(NodeModel {
                                author: child.author,
                                contents: child.contents,
                                kind: child.kind,
                            } == child);
                            assert(st_open.drop_last() =~= st_text);
                            let st_next = push_chunk_top(st_text, ChunkModel::Node(child));
                            assert(parse_loop(st_open, s, b + 3) == parse_loop(
                                st_next,
                                s,
                                b + 3 + rr_child.len(),
                            ));
                            assert(st_next.len() == 1);
                            assert(st_next[0] == NodeModel {
                                author: None,
                                contents: full.subrange(0, m + 2),
                                kind: NodeKind::Root,
                            }) by {
                                assert(full.subrange(0, m).push(ChunkModel::Text(t)).push(
                                    ChunkModel::Node(child),
                                ) =~= full.subrange(0, m + 2));
                            }
                            let posn = b + lc.len();
                            assert(posn == b + 3 + rr_child.len());
                            assert forall|j: int| 0 <= j < rr3.len() implies s[posn + j]
                                == rr3[j] by {
                                assert(s[posn + j] == rr2[lc.len() + j]);
                            }
                            lemma_parse_root(s, posn, st_next, full, m + 2);
                        },
                    }
                } else {
                    assert(m + 1 == full.len());
                    assert(chunks_sfx(full, m + 1) =~= Seq::<char>::empty());
                    assert(b == s.len());
                    lemma_no_marker_in_text(s, pos, b);
                    lemma_scan_from_none(s, pos);
                    assert(scan_from(s, pos) == s.len());
                    assert(space_run(s, s.len() as int) == 0);
                    assert(author_end(s, s.len() as int) is None);
                    let chunk = s.subrange(pos, s.len() as int);
                    assert(chunk =~= t);
                    assert((chunk + Seq::<char>::empty()) =~= t);
                    let st_text = push_text(stack, t);
                    assert(st_text.len() == 1);
                    assert(st_text[0] == st_text.last());
                    assert(st_text.last() == with_chunk(stack[0], ChunkModel::Text(t)));
                    assert(st_text[0] == target) by {
                        assert(full.subrange(0, m).push(ChunkModel::Text(t)) =~= full);
                    }
                    assert(parse_loop(stack, s, pos) == Ok::<NodeModel, ParseErrorModel>(
                        st_text[0],
                    ));
                }
            },
        }
    }
}

/// LAW (round trip). Parsing the literal rendering of a canonical tree —
/// one shaped as the parser itself builds trees, over plain text — yields
/// exactly that tree back, so the re-parsed tree renders identically to the
/// original under the accept, reject and literal renderings alike. Trees
/// whose text spells tag or author-annotation sequences, or whose newline
/// placement the cosmetic strip rewrites, are outside the canonical shape
/// and not covered.
pub proof fn lemma_round_trip(n: NodeModel)
    requires
        canonical_tree(n),
    ensures
        parse_spec(node_suggestion(n)) == Ok::<NodeModel, ParseErrorModel>(n),
{
    lemma_tag_chars();
    let s = node_suggestion(n);
    lemma_sfx_eq(n.contents, n.contents.len() as int);
    assert(chunks_sfx(n.contents, n.contents.len() as int) =~= Seq::<char>::empty());
    assert(s =~= chunks_sfx(n.contents, 0));
    assert(canonical_chunk(n.contents[0]));
    lemma_canonical_chunk_render_nonempty(n.contents[0]);
    assert(chunks_sfx(n.contents, 0) == chunk_suggestion(n.contents[0]) + chunks_sfx(
        n.contents,
        1,
    ));
    assert(s.len() > 0);
    let st0 = seq![root_model()];
    assert(st0[0] == NodeModel {
        author: None,
        contents: n.contents.subrange(0, 0),
        kind: NodeKind::Root,
    }) by {
        assert(n.contents.subrange(0, 0) =~= Seq::<ChunkModel>::empty());
    }
    assert(NodeModel { author: None, contents: n.contents, kind: NodeKind::Root } == n);
    lemma_parse_root(s, 0, st0, n.contents, 0);
}

} // verus!

verus! {

proof fn lemma_chunks_suggestion_push(cs: Seq<ChunkModel>, c: ChunkModel, i: int)
    requires
        0 <= i <= cs.len(),
    ensures
        chunks_suggestion(cs.push(c), i) == chunks_suggestion(cs, i),
    decreases i,
{
    if i > 0 {
        lemma_chunks_suggestion_push(cs, c, i - 1);
        assert(cs.push(c)[i - 1] == cs[i - 1]);
    }
}

/// Appending a chunk extends a contents rendering by that chunk's rendering.
proof fn lemma_chunks_suggestion_snoc(cs: Seq<ChunkModel>, c: ChunkModel)
    ensures
        chunks_suggestion(cs.push(c), cs.len() + 1 as int) == chunks_suggestion(
            cs,
            cs.len() as int,
        ) + chunk_suggestion(c),
{
    lemma_chunks_suggestion_push(cs, c, cs.len() as int);
    assert(cs.push(c)[cs.len() as int] == c);
    assert(chunks_suggestion(cs.push(c), cs.len() + 1 as int) == chunks_suggestion(
        cs.push(c),
        cs.len() as int,
    ) + chunk_suggestion(cs.push(c)[cs.len() as int]));
}

/// The rendering of one open region on the parse stack: its opening tag and
/// the chunks built so far (author and closer come only when it is closed).
pub open spec fn node_open_render(n: NodeModel) -> Seq<char> {
    opener_of(n.kind) + chunks_suggestion(n.contents, n.contents.len() as int)
}

/// The rendering of the first `i` open regions of a parse stack, bottom
/// first: everything of the input the parse has consumed into them.
pub open spec fn stack_render(st: Seq<NodeModel>, i: int) -> Seq<char>
    decreases i,
{
    if 0 < i <= st.len() {
        stack_render(st, i - 1) + node_open_render(st[i - 1])
    } else {
        Seq::empty()
    }
}

proof fn lemma_stack_render_prefix(st1: Seq<NodeModel>, st2: Seq<NodeModel>, i: int)
    requires
        0 <= i <= st1.len(),
        i <= st2.len(),
        forall|j: int| 0 <= j < i ==> st1[j] == st2[j],
    ensures
        stack_render(st1, i) == stack_render(st2, i),
    decreases i,
{
    if i > 0 {
        lemma_stack_render_prefix(st1, st2, i - 1);
    }
}

/// Appending a text chunk to the top of the stack extends the stack's
/// rendering by that text.
proof fn lemma_stack_render_push_text(st: Seq<NodeModel>, t: Seq<char>)
    requires
        st.len() >= 1,
    ensures
        push_text(st, t).len() == st.len(),
        stack_render(push_text(st, t), st.len() as int) == stack_render(st, st.len() as int) + t,
    decreases st.len(),
{
    let st1 = push_text(st, t);
    if t.len() == 0 {
        assert(st1 == st);
        assert(stack_render(st, st.len() as int) + t =~= stack_render(st, st.len() as int));
    } else {
        let top = st.last();
        let top1 = with_chunk(top, ChunkModel::Text(t));
        assert(st1 == st.update(st.len() - 1, top1));
        lemma_stack_render_prefix(st1, st, st.len() - 1);
        assert(st1[st.len() - 1] == top1);
        lemma_chunks_suggestion_snoc(top.contents, ChunkModel::Text(t));
        assert(chunk_suggestion(ChunkModel::Text(t)) == t);
        assert(top1.contents == top.contents.push(ChunkModel::Text(t)));
        assert(top1.contents.len() == top.contents.len() + 1);
        assert(node_open_render(top1) =~= node_open_render(top) + t);
        assert(stack_render(st1, st.len() as int) == stack_render(st1, st.len() - 1)
            + node_open_render(top1));
        assert(stack_render(st1, st.len() as int) =~= stack_render(st, st.len() as int) + t);
    }
}

/// The characters of a recognized opener are that opener.
proof fn lemma_opener_chars(s: Seq<char>, b: int, k: NodeKind)
    requires
        opener_kind_at(s, b) == Some(k),
    ensures
        k != NodeKind::Root,
        0 <= b && b + 3 <= s.len(),
        s.subrange(b, b + 3) =~= opener_of(k),
{
    lemma_tag_chars();
    match k {
        NodeKind::Insertion => {
            assert(s[b] == '+' && s[b + 1] == '+' && s[b + 2] == '[');
        },
        NodeKind::Deletion => {
            assert(s[b] == '-' && s[b + 1] == '-' && s[b + 2] == '[');
        },
        NodeKind::Comment => {
            assert(s[b] == '%' && s[b + 1] == '%' && s[b + 2] == '[');
        },
        NodeKind::Root => {},
    }
}

/// The characters of a recognized closer are that closer.
proof fn lemma_closer_chars(s: Seq<char>, b: int, k: NodeKind)
    requires
        closer_kind_at(s, b) == Some(k),
    ensures
        k != NodeKind::Root,
        0 <= b && b + 3 <= s.len(),
        s.subrange(b, b + 3) =~= closer_of(k),
{
    lemma_tag_chars();
    match k {
        NodeKind::Insertion => {
            assert(s[b] == ']' && s[b + 1] == '+' && s[b + 2] == '+');
        },
        NodeKind::Deletion => {
            assert(s[b] == ']' && s[b + 1] == '-' && s[b + 2] == '-');
        },
        NodeKind::Comment => {
            assert(s[b] == ']' && s[b + 1] == '%' && s[b + 2] == '%');
        },
        NodeKind::Root => {},
    }
}

} // verus!

verus! {

/// Whether the cosmetic newline strip never removes anything along the scan
/// of `s` from `pos` on: no recognized text chunk or author annotation ends
/// with a newline right before a tag. This is exactly the condition under
/// which parsing rewrites nothing of the document.
pub open spec fn strip_free(s: Seq<char>, pos: int) -> bool
    decreases s.len() - pos,
    via strip_free_decreases
{
    if pos < 0 || pos > s.len() {
        true
    } else {
        let i = scan_from(s, pos);
        let chunk = s.subrange(pos, i);
        let tagpos = match author_end(s, i) {
            Some(l) => l,
            None => i,
        };
        let author = match author_end(s, i) {
            Some(l) => s.subrange(i, l),
            None => Seq::<char>::empty(),
        };
        if tagpos == s.len() {
            true
        } else {
            !(chunk.len() > 0 && chunk.last() == '\n') && !(author.len() > 0 && author.last()
                == '\n') && strip_free(s, tagpos + 3)
        }
    }
}

#[via_fn]
proof fn strip_free_decreases(s: Seq<char>, pos: int) {
    if 0 <= pos <= s.len() {
        crate::parser::lemma_scan_from_bounds(s, pos);
        crate::parser::lemma_author_end_bounds(s, scan_from(s, pos));
    }
}

/// A document without newlines is trivially strip-free.
pub proof fn lemma_no_newline_strip_free(s: Seq<char>)
    requires
        forall|j: int| 0 <= j < s.len() ==> s[j] != '\n',
    ensures
        strip_free(s, 0),
{
    lemma_no_newline_strip_free_from(s, 0);
}

proof fn lemma_no_newline_strip_free_from(s: Seq<char>, pos: int)
    requires
        forall|j: int| 0 <= j < s.len() ==> s[j] != '\n',
        0 <= pos <= s.len(),
    ensures
        strip_free(s, pos),
    decreases s.len() - pos,
{
    crate::parser::lemma_scan_from_bounds(s, pos);
    let i = scan_from(s, pos);
    crate::parser::lemma_author_end_bounds(s, i);
    let chunk = s.subrange(pos, i);
    let tagpos = match author_end(s, i) {
        Some(l) => l,
        None => i,
    };
    let author = match author_end(s, i) {
        Some(l) => s.subrange(i, l),
        None => Seq::<char>::empty(),
    };
    if tagpos < s.len() {
        assert(!(chunk.len() > 0 && chunk.last() == '\n')) by {
            if chunk.len() > 0 {
                assert(chunk.last() == s[i - 1]);
            }
        }
        assert(!(author.len() > 0 && author.last() == '\n')) by {
            if author.len() > 0 {
                assert(author.last() == s[tagpos - 1]);
            }
        }
        lemma_no_newline_strip_free_from(s, tagpos + 3);
    }
}

} // verus!

verus! {

/// One closing step of the round-trip proof: with the scanned closer ahead,
/// the top region is finished and appended to its parent, and the stack's
/// rendering still equals the consumed prefix.
#[verifier::rlimit(100)]
#[verifier::spinoff_prover]
proof fn lemma_close_step(stack: Seq<NodeModel>, s: Seq<char>, pos: int, n: NodeModel, k: NodeKind)
    requires
        0 <= pos <= s.len(),
        strip_free(s, pos),
        stack.len() >= 1,
        stack[0].kind == NodeKind::Root,
        forall|j: int| 0 <= j < stack.len() ==> (#[trigger] stack[j]).author is None,
        parse_loop(stack, s, pos) == Ok::<NodeModel, ParseErrorModel>(n),
        stack_render(stack, stack.len() as int) == s.subrange(0, pos),
        ({
            let i = scan_from(s, pos);
            let tagpos = match author_end(s, i) {
                Some(l) => l,
                None => i,
            };
            closer_kind_at(s, tagpos) == Some(k) && tagpos < s.len()
        }),
    ensures
        ({
            let i = scan_from(s, pos);
            let tagpos = match author_end(s, i) {
                Some(l) => l,
                None => i,
            };
            let author = match author_end(s, i) {
                Some(l) => s.subrange(i, l),
                None => Seq::<char>::empty(),
            };
            let stack1 = if author.len() > 0 {
                set_top_author(stack, author)
            } else {
                stack
            };
            let stack2 = push_text(stack1, s.subrange(pos, i));
            let closed = push_chunk_top(stack2.drop_last(), ChunkModel::Node(stack2.last()));
            parse_loop(closed, s, tagpos + 3) == Ok::<NodeModel, ParseErrorModel>(n)
                && closed.len() == stack.len() - 1 && closed.len() >= 1 && closed[0].kind
                == NodeKind::Root && (forall|j: int|
                0 <= j < closed.len() ==> (#[trigger] closed[j]).author is None) && stack_render(
                closed,
                closed.len() as int,
            ) == s.subrange(0, tagpos + 3) && pos < tagpos + 3 <= s.len() && strip_free(
                s,
                tagpos + 3,
            )
        }),
{
    lemma_tag_chars();
    crate::parser::lemma_scan_from_bounds(s, pos);
    let i = scan_from(s, pos);
    crate::parser::lemma_author_end_bounds(s, i);
    let chunk = s.subrange(pos, i);
    let tagpos = match author_end(s, i) {
        Some(l) => l,
        None => i,
    };
    let author = match author_end(s, i) {
        Some(l) => s.subrange(i, l),
        None => Seq::<char>::empty(),
    };
    lemma_closer_chars(s, tagpos, k);
    let newpos = tagpos + 3;
    let l = stack.len() as int;

    // strip-freedom says the strip does not fire at this step
    assert(!(chunk.len() > 0 && chunk.last() == '\n') && !(author.len() > 0 && author.last()
        == '\n') && strip_free(s, tagpos + 3));

    let stack1 = if author.len() > 0 {
        set_top_author(stack, author)
    } else {
        stack
    };
    assert(stack1.len() == l);
    assert(stack1[l - 1].kind == stack[l - 1].kind);
    assert(stack1[l - 1].contents == stack[l - 1].contents);
    let stack2 = push_text(stack1, chunk);
    assert(stack2.len() == l);
    let finished = stack2.last();
    let rest = stack2.drop_last();
    assert(finished.kind == stack[l - 1].kind);
    assert(finished.kind == k);
    assert(stack.len() >= 2) by {
        if stack.len() == 1 {
            assert(finished.kind == NodeKind::Root);
        }
    }
    assert(rest.len() == l - 1 >= 1);
    assert(rest.last().kind != NodeKind::Comment);
    let parent = rest.last();
    assert(parent == stack[l - 2]) by {
        assert(rest[l - 2] == stack2[l - 2]);
    }
    let closed = push_chunk_top(rest, ChunkModel::Node(finished));
    assert(parse_loop(stack, s, pos) == parse_loop(closed, s, newpos));

    // the finished node re-serializes to exactly what was consumed for it
    assert(author_text(finished.author) == author) by {
        if author.len() == 0 {
            assert(finished.author == stack[l - 1].author);
            assert(author =~= Seq::<char>::empty());
        }
    }
    let oldc = stack[l - 1].contents;
    assert(chunks_suggestion(finished.contents, finished.contents.len() as int)
        == chunks_suggestion(oldc, oldc.len() as int) + chunk) by {
        if chunk.len() > 0 {
            assert(finished.contents == oldc.push(ChunkModel::Text(chunk)));
            lemma_chunks_suggestion_snoc(oldc, ChunkModel::Text(chunk));
        } else {
            assert(finished.contents == oldc);
            assert(chunks_suggestion(oldc, oldc.len() as int) + chunk =~= chunks_suggestion(
                oldc,
                oldc.len() as int,
            ));
        }
    }
    assert(node_suggestion(finished) =~= opener_of(k) + chunks_suggestion(oldc, oldc.len() as int)
        + chunk + author + closer_of(k));

    // the new stack renders to the consumed prefix
    let parent1 = with_chunk(parent, ChunkModel::Node(finished));
    assert(closed == rest.update(l - 2, parent1));
    assert(closed.len() == l - 1);
    assert(forall|j: int| 0 <= j < l - 2 ==> #[trigger] closed[j] == stack[j]) by {
        assert(forall|j: int|
            0 <= j < l - 2 ==> #[trigger] closed[j] == rest[j] && rest[j] == stack2[j] && stack2[j]
                == stack1[j] && stack1[j] == stack[j]);
    }
    lemma_stack_render_prefix(closed, stack, l - 2);
    assert(closed[l - 2] == parent1);
    lemma_chunks_suggestion_snoc(parent.contents, ChunkModel::Node(finished));
    assert(chunk_suggestion(ChunkModel::Node(finished)) == node_suggestion(finished));
    assert(parent1.contents == parent.contents.push(ChunkModel::Node(finished)));
    assert(node_open_render(parent1) =~= node_open_render(parent) + node_suggestion(finished));
    assert(stack_render(closed, l - 1) == stack_render(closed, l - 2) + node_open_render(parent1));
    assert(stack_render(stack, l) == stack_render(stack, l - 2) + node_open_render(stack[l - 2])
        + node_open_render(stack[l - 1])) by {
        assert(stack_render(stack, l) == stack_render(stack, l - 1) + node_open_render(
            stack[l - 1],
        ));
        assert(stack_render(stack, l - 1) == stack_render(stack, l - 2) + node_open_render(
            stack[l - 2],
        ));
    }
    assert(node_open_render(stack[l - 1]) == opener_of(k) + chunks_suggestion(
        oldc,
        oldc.len() as int,
    ));
    assert(stack_render(closed, l - 1) =~= stack_render(stack, l) + chunk + author + closer_of(k));
    assert(closer_of(k) =~= s.subrange(tagpos, newpos));
    assert(stack_render(closed, l - 1) =~= s.subrange(0, newpos)) by {
        assert(stack_render(stack, l) == s.subrange(0, pos));
        assert(s.subrange(0, pos) + s.subrange(pos, i) + s.subrange(i, tagpos) + s.subrange(
            tagpos,
            newpos,
        ) =~= s.subrange(0, newpos));
    }

    // the stack invariants carry over
    assert(closed[0].kind == NodeKind::Root) by {
        if l - 2 > 0 {
            assert(closed[0] == stack[0]);
        }
    }
    assert(forall|j: int| 0 <= j < closed.len() ==> (#[trigger] closed[j]).author is None) by {
        assert(parent1.author == parent.author);
        assert(parent.author == stack[l - 2].author);
    }
}

} // verus!

verus! {

/// The round-trip proof over the parse image: in a document without
/// newlines (so the cosmetic strip never fires), every character the parse
/// consumes lands in a chunk, an author annotation or a re-emitted tag, so
/// the stack's rendering always equals the consumed prefix, and the tree
/// that comes out re-serializes to the whole input.
#[verifier::rlimit(100)]
#[verifier::spinoff_prover]
proof fn lemma_parse_render_exact(stack: Seq<NodeModel>, s: Seq<char>, pos: int, n: NodeModel)
    requires
        0 <= pos <= s.len(),
        strip_free(s, pos),
        stack.len() >= 1,
        stack[0].kind == NodeKind::Root,
        forall|j: int| 0 <= j < stack.len() ==> (#[trigger] stack[j]).author is None,
        parse_loop(stack, s, pos) == Ok::<NodeModel, ParseErrorModel>(n),
        stack_render(stack, stack.len() as int) == s.subrange(0, pos),
    ensures
        node_suggestion(n) == s,
    decreases s.len() - pos,
{
    lemma_tag_chars();
    crate::parser::lemma_scan_from_bounds(s, pos);
    let i = scan_from(s, pos);
    crate::parser::lemma_author_end_bounds(s, i);
    let chunk = s.subrange(pos, i);
    let tagpos = match author_end(s, i) {
        Some(l) => l,
        None => i,
    };
    let author = match author_end(s, i) {
        Some(l) => s.subrange(i, l),
        None => Seq::<char>::empty(),
    };
    let ta = chunk + author;
    assert(ta =~= s.subrange(pos, tagpos));
    if tagpos == s.len() {
        // end of input: the final text joins the root, which is returned
        let stack1 = push_text(stack, ta);
        lemma_stack_render_push_text(stack, ta);
        assert(stack1.len() == 1);
        assert(stack.len() == 1);
        assert(n == stack1[0]);
        assert(stack_render(stack1, 1) =~= s) by {
            assert(s.subrange(0, pos) + s.subrange(pos, tagpos) =~= s.subrange(0, tagpos));
            assert(s.subrange(0, tagpos) =~= s);
        }
        assert(stack1[0] == stack1.last());
        assert(stack1[0].kind == NodeKind::Root);
        assert(stack1[0].author is None) by {
            if ta.len() > 0 {
                assert(stack1[0] == with_chunk(stack[0], ChunkModel::Text(ta)));
            }
        }
        assert(node_suggestion(n) =~= node_open_render(stack1[0]));
        assert(stack_render(stack1, 1) == stack_render(stack1, 0) + node_open_render(stack1[0]));
        assert(node_suggestion(n) =~= s);
    } else {
        assert(tag_at(s, tagpos)) by {
            if author_end(s, i) is None {
                assert(marker_at(s, i));
            }
        }
        match closer_kind_at(s, tagpos) {
            Some(k) => {
                lemma_close_step(stack, s, pos, n, k);
                let stack1 = if author.len() > 0 {
                    set_top_author(stack, author)
                } else {
                    stack
                };
                let stack2 = push_text(stack1, chunk);
                let closed = push_chunk_top(stack2.drop_last(), ChunkModel::Node(stack2.last()));
                lemma_parse_render_exact(closed, s, tagpos + 3, n);
            },
            None => {
                let k = opener_kind_at(s, tagpos)->Some_0;
                assert(opener_kind_at(s, tagpos) is Some);
                lemma_opener_chars(s, tagpos, k);
                let newpos = tagpos + 3;
                // strip-freedom says the strip does not fire at this step
                assert(!(chunk.len() > 0 && chunk.last() == '\n') && !(author.len() > 0
                    && author.last() == '\n') && strip_free(s, newpos));
                let stack1 = push_text(stack, ta);
                let opened = stack1.push(empty_node_model(k));
                assert(parse_loop(stack, s, pos) == parse_loop(opened, s, newpos));
                lemma_stack_render_push_text(stack, ta);
                lemma_stack_render_prefix(opened, stack1, stack1.len() as int);
                assert(node_open_render(empty_node_model(k)) =~= opener_of(k)) by {
                    assert(chunks_suggestion(Seq::<ChunkModel>::empty(), 0)
                        =~= Seq::<char>::empty());
                }
                assert(opener_of(k) =~= s.subrange(tagpos, newpos));
                assert(opened[opened.len() - 1] == empty_node_model(k));
                assert(stack_render(opened, opened.len() as int) == stack_render(
                    opened,
                    opened.len() - 1,
                ) + node_open_render(empty_node_model(k)));
                assert(stack_render(opened, opened.len() as int) =~= s.subrange(0, newpos)) by {
                    assert(s.subrange(0, pos) + s.subrange(pos, tagpos) + s.subrange(
                        tagpos,
                        newpos,
                    ) =~= s.subrange(0, newpos));
                }
                assert(opened[0].kind == NodeKind::Root) by {
                    assert(opened[0] == stack1[0]);
                    if stack.len() == 1 && ta.len() > 0 {
                        assert(stack1[0] == with_chunk(stack[0], ChunkModel::Text(ta)));
                    }
                }
                assert(forall|j: int|
                    0 <= j < opened.len() ==> (#[trigger] opened[j]).author is None) by {
                    assert(forall|j: int|
                        0 <= j < stack.len() ==> (#[trigger] stack1[j]).author == stack[j].author);
                    assert(opened[opened.len() - 1].author is None);
                    assert(forall|j: int|
                        0 <= j < stack1.len() ==> #[trigger] opened[j] == stack1[j]);
                }
                lemma_parse_render_exact(opened, s, newpos, n);
            },
        }
    }
}

/// LAW (round trip over the parse image). A document on which the cosmetic
/// newline strip — the one rewriting the spec waives — removes nothing
/// re-serializes from its parsed tree to exactly itself; parsing that
/// literal rendering therefore returns the very same tree, which renders
/// identically under the accept, reject and literal renderings alike.
/// Documents without newlines are strip-free by
/// [`lemma_no_newline_strip_free`].
pub proof fn lemma_parse_round_trip(s: Seq<char>, n: NodeModel)
    requires
        strip_free(s, 0),
        parse_spec(s) == Ok::<NodeModel, ParseErrorModel>(n),
    ensures
        node_suggestion(n) == s,
        parse_spec(node_suggestion(n)) == Ok::<NodeModel, ParseErrorModel>(n),
{
    lemma_tag_chars();
    let st0 = seq![root_model()];
    assert(stack_render(st0, 1) =~= s.subrange(0, 0)) by {
        assert(st0[0] == root_model());
        assert(stack_render(st0, 0) =~= Seq::<char>::empty());
        assert(chunks_suggestion(Seq::<ChunkModel>::empty(), 0) =~= Seq::<char>::empty());
        assert(node_open_render(root_model()) =~= Seq::<char>::empty());
        assert(stack_render(st0, 1) == stack_render(st0, 0) + node_open_render(st0[0]));
    }
    lemma_parse_render_exact(st0, s, 0, n);
}

} // verus!
