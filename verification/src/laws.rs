use vstd::prelude::*;

use crate::diff::DiffTag;
use crate::diff::diff_chunk_model;
use crate::diff::diff_contents_model;
use crate::diff::diff_new_text;
use crate::diff::diff_old_text;
use crate::diff::diff_tree_model;
use crate::node::ChunkModel;
use crate::node::NodeKind;
use crate::node::NodeModel;
use crate::node::chunk_accept;
use crate::node::chunk_wf;
use crate::node::chunks_wf;
use crate::node::node_wf;
use crate::node::chunk_reject;
use crate::node::chunks_accept;
use crate::node::chunks_reject;
use crate::node::node_accept;
use crate::node::node_reject;
use crate::parser::ParseErrorModel;
use crate::parser::author_end;
use crate::parser::closer_kind_at;
use crate::parser::empty_node_model;
use crate::parser::lemma_author_end_bounds;
use crate::parser::lemma_no_author_at_tag;
use crate::parser::lemma_scan_from_bounds;
use crate::parser::lemma_strip_pos_bounds;
use crate::parser::lemma_scan_from_exact;
use crate::parser::lemma_strip_pos_le;
use crate::parser::marker_at;
use crate::parser::opener_kind_at;
use crate::parser::parse_loop;
use crate::parser::parse_spec;
use crate::parser::push_chunk_top;
use crate::parser::push_text;
use crate::parser::set_top_author;
use crate::parser::with_chunk;
use crate::parser::scan_from;
use crate::parser::strip_pos;
use crate::parser::tag_at;
use crate::node::root_model;

verus! {

proof fn lemma_chunks_accept_push(cs: Seq<ChunkModel>, c: ChunkModel, i: int)
    requires
        0 <= i <= cs.len(),
    ensures
        chunks_accept(cs.push(c), i) == chunks_accept(cs, i),
        chunks_reject(cs.push(c), i) == chunks_reject(cs, i),
    decreases i,
{
    if i > 0 {
        lemma_chunks_accept_push(cs, c, i - 1);
        assert(cs.push(c)[i - 1] == cs[i - 1]);
    }
}

proof fn lemma_diff_sides(changes: Seq<(DiffTag, Seq<char>)>, i: int, author: Option<Seq<char>>)
    requires
        0 <= i <= changes.len(),
    ensures
        diff_contents_model(changes, i, author).len() == i,
        chunks_accept(diff_contents_model(changes, i, author), i) == diff_new_text(changes, i),
        chunks_reject(diff_contents_model(changes, i, author), i) == diff_old_text(changes, i),
    decreases i,
{
    if i > 0 {
        lemma_diff_sides(changes, i - 1, author);
        let cs = diff_contents_model(changes, i - 1, author);
        let c = diff_chunk_model(changes[i - 1], author);
        lemma_chunks_accept_push(cs, c, i - 1);
        let full = diff_contents_model(changes, i, author);
        assert(full == cs.push(c));
        assert(full[i - 1] == c);
        assert(chunks_accept(full, i) == chunks_accept(cs, i - 1) + chunk_accept(c));
        assert(chunks_reject(full, i) == chunks_reject(cs, i - 1) + chunk_reject(c));
        let t = changes[i - 1].1;
        match changes[i - 1].0 {
            DiffTag::Equal => {
                assert(chunk_accept(c) == t);
                assert(chunk_reject(c) == t);
            },
            DiffTag::Insert => {
                match c {
                    ChunkModel::Node(n) => {
                        assert(n.contents.len() == 1);
                        assert(n.contents[0] == ChunkModel::Text(t));
                        assert(chunk_accept(n.contents[0]) == t);
                        assert(chunks_accept(n.contents, 0) == Seq::<char>::empty());
                        assert(chunks_accept(n.contents, 1) == chunks_accept(n.contents, 0)
                            + chunk_accept(n.contents[0]));
                        assert(chunk_accept(c) =~= t);
                        assert(chunk_reject(c) == Seq::<char>::empty());
                    },
                    ChunkModel::Text(_) => {
                        assert(false);
                    },
                }
            },
            DiffTag::Delete => {
                match c {
                    ChunkModel::Node(n) => {
                        assert(n.contents.len() == 1);
                        assert(n.contents[0] == ChunkModel::Text(t));
                        assert(chunk_reject(n.contents[0]) == t);
                        assert(chunks_reject(n.contents, 0) == Seq::<char>::empty());
                        assert(chunks_reject(n.contents, 1) == chunks_reject(n.contents, 0)
                            + chunk_reject(n.contents[0]));
                        assert(chunk_reject(c) =~= t);
                        assert(chunk_accept(c) == Seq::<char>::empty());
                    },
                    ChunkModel::Text(_) => {
                        assert(false);
                    },
                }
            },
        }
        assert(diff_old_text(changes, i - 1) + Seq::<char>::empty() =~= diff_old_text(
            changes,
            i - 1,
        ));
        assert(diff_new_text(changes, i - 1) + Seq::<char>::empty() =~= diff_new_text(
            changes,
            i - 1,
        ));
    }
}

/// LAW (accept/reject complementarity). A tree the diff builder makes from a
/// word-level diff of `old` and `new` — whose Equal and Delete pieces
/// concatenate to `old` and whose Equal and Insert pieces concatenate to
/// `new`, as the diff wrapper guarantees — renders to `new` with every
/// change accepted and to `old` with every change rejected, whatever author
/// is attached. Such a tree has no comment nodes.
pub proof fn lemma_accept_reject_of_diff_tree(
    changes: Seq<(DiffTag, Seq<char>)>,
    author: Option<Seq<char>>,
    old: Seq<char>,
    new: Seq<char>,
)
    requires
        diff_old_text(changes, changes.len() as int) == old,
        diff_new_text(changes, changes.len() as int) == new,
    ensures
        node_accept(diff_tree_model(changes, author)) == new,
        node_reject(diff_tree_model(changes, author)) == old,
{
    lemma_diff_sides(changes, changes.len() as int, author);
}

/// Whether two chunk sequences differ at most inside comment nodes,
/// pairwise over their first `i` entries.
pub open spec fn chunks_eq_mod_comments(xs: Seq<ChunkModel>, ys: Seq<ChunkModel>, i: int) -> bool
    decreases xs, i,
{
    if 0 < i <= xs.len() && xs.len() == ys.len() {
        chunks_eq_mod_comments(xs, ys, i - 1) && chunk_eq_mod_comments(xs[i - 1], ys[i - 1])
    } else {
        true
    }
}

/// Whether two chunks differ at most inside comment nodes.
pub open spec fn chunk_eq_mod_comments(x: ChunkModel, y: ChunkModel) -> bool
    decreases x, 0int,
{
    match (x, y) {
        (ChunkModel::Text(t1), ChunkModel::Text(t2)) => t1 == t2,
        (ChunkModel::Node(n1), ChunkModel::Node(n2)) => eq_mod_comments(n1, n2),
        _ => false,
    }
}

/// Whether two trees differ at most inside the contents of comment nodes:
/// same kinds, same authors, same text everywhere else, but a comment's
/// contents may be anything.
pub open spec fn eq_mod_comments(a: NodeModel, b: NodeModel) -> bool
    decreases a, 1int,
{
    a.kind == b.kind && a.author == b.author && (a.kind == NodeKind::Comment || (
    a.contents.len() == b.contents.len() && chunks_eq_mod_comments(
        a.contents,
        b.contents,
        a.contents.len() as int,
    )))
}

proof fn lemma_chunks_invisible(xs: Seq<ChunkModel>, ys: Seq<ChunkModel>, i: int)
    requires
        xs.len() == ys.len(),
        0 <= i <= xs.len(),
        chunks_eq_mod_comments(xs, ys, i),
    ensures
        chunks_accept(xs, i) == chunks_accept(ys, i),
        chunks_reject(xs, i) == chunks_reject(ys, i),
    decreases xs, i,
{
    if 0 < i {
        lemma_chunks_invisible(xs, ys, i - 1);
        lemma_chunk_invisible(xs[i - 1], ys[i - 1]);
    }
}

proof fn lemma_chunk_invisible(x: ChunkModel, y: ChunkModel)
    requires
        chunk_eq_mod_comments(x, y),
    ensures
        chunk_accept(x) == chunk_accept(y),
        chunk_reject(x) == chunk_reject(y),
    decreases x, 0int,
{
    match (x, y) {
        (ChunkModel::Node(n1), ChunkModel::Node(n2)) => {
            lemma_comment_invisibility(n1, n2);
        },
        _ => {},
    }
}

/// LAW (comment invisibility). Two trees that differ only inside the
/// contents of comment nodes render identically under both the accept and
/// the reject rendering: whatever a comment holds, however deep, it
/// contributes nothing to either document.
pub proof fn lemma_comment_invisibility(a: NodeModel, b: NodeModel)
    requires
        eq_mod_comments(a, b),
    ensures
        node_accept(a) == node_accept(b),
        node_reject(a) == node_reject(b),
    decreases a, 1int,
{
    match a.kind {
        NodeKind::Comment => {},
        _ => {
            lemma_chunks_invisible(a.contents, b.contents, a.contents.len() as int);
        },
    }
}

/// LAW (nesting rejection). Any input that opens a tagged region inside a
/// comment region fails to parse with the comment-nesting error: after
/// marker-free text, a `%%[` opens a comment; inside it, after marker-free
/// text, any opener starts a region, and that region's closer follows more
/// marker-free text — whatever else follows, the parse returns
/// `CommentNesting`.
pub proof fn lemma_comment_nesting_rejected(s: Seq<char>, t0: int, t1: int, t2: int, k: NodeKind)
    requires
        opener_kind_at(s, t0) == Some(NodeKind::Comment),
        opener_kind_at(s, t1) == Some(k),
        closer_kind_at(s, t2) == Some(k),
        0 <= t0,
        t0 + 3 <= t1,
        t1 + 3 <= t2,
        forall|j: int| 0 <= j < t0 ==> !marker_at(s, j),
        forall|j: int| t0 + 3 <= j < t1 ==> !marker_at(s, j),
        forall|j: int| t1 + 3 <= j < t2 ==> !marker_at(s, j),
    ensures
        parse_spec(s) == Err::<NodeModel, ParseErrorModel>(ParseErrorModel::CommentNesting),
{
    // the three tags are markers, and no author annotation starts at one
    assert(tag_at(s, t0) && tag_at(s, t1) && tag_at(s, t2));
    lemma_no_author_at_tag(s, t0);
    lemma_no_author_at_tag(s, t1);
    lemma_no_author_at_tag(s, t2);

    // step 1: the text before the comment opener, then the opener
    lemma_scan_from_exact(s, 0, t0);
    let st0 = seq![root_model()];
    let chunk0 = s.subrange(0, t0);
    let st1 = push_text(st0, chunk0).push(empty_node_model(NodeKind::Comment));
    assert(closer_kind_at(s, t0) is None);
    let p1 = if chunk0.len() > 0 && chunk0.last() == '\n' {
        strip_pos(s, t0 + 3)
    } else {
        t0 + 3
    };
    lemma_strip_pos_le(s, t0 + 3, t1);
    assert(parse_loop(st0, s, 0) == parse_loop(st1, s, p1));

    // step 2: the nested opener at t1
    lemma_scan_from_exact(s, p1, t1);
    let chunk1 = s.subrange(p1, t1);
    assert(closer_kind_at(s, t1) is None);
    let st2 = push_text(st1, chunk1).push(empty_node_model(k));
    let p2 = if chunk1.len() > 0 && chunk1.last() == '\n' {
        strip_pos(s, t1 + 3)
    } else {
        t1 + 3
    };
    lemma_strip_pos_le(s, t1 + 3, t2);
    assert(parse_loop(st1, s, p1) == parse_loop(st2, s, p2));

    // step 3: the closer at t2 matches the nested region, but its parent is
    // the comment
    lemma_scan_from_exact(s, p2, t2);
    let chunk2 = s.subrange(p2, t2);
    let st3 = push_text(st2, chunk2);
    assert(st3.len() == 3);
    assert(st3.last().kind == k);
    assert(st3.drop_last().last() == st2[1]);
    assert(st2[1].kind == NodeKind::Comment);
    assert(parse_loop(st2, s, p2) == Err::<NodeModel, ParseErrorModel>(
        ParseErrorModel::CommentNesting,
    ));
}

} // verus!

verus! {

/// The invariant the parse stack keeps: the root node sits alone at the
/// bottom with no author, the root kind appears nowhere else, and every
/// node on the stack is well-formed.
pub open spec fn stack_wf(stack: Seq<NodeModel>) -> bool {
    stack.len() >= 1 && stack[0].kind == NodeKind::Root && stack[0].author is None && (forall|
        j: int,
    |
        1 <= j < stack.len() ==> (#[trigger] stack[j]).kind != NodeKind::Root) && (forall|j: int|
        0 <= j < stack.len() ==> node_wf(#[trigger] stack[j]))
}

proof fn lemma_chunks_wf_push(cs: Seq<ChunkModel>, c: ChunkModel, i: int)
    requires
        0 <= i <= cs.len(),
    ensures
        chunks_wf(cs.push(c), i) == chunks_wf(cs, i),
    decreases i,
{
    if i > 0 {
        lemma_chunks_wf_push(cs, c, i - 1);
        assert(cs.push(c)[i - 1] == cs[i - 1]);
    }
}

proof fn lemma_with_chunk_wf(n: NodeModel, c: ChunkModel)
    requires
        node_wf(n),
        chunk_wf(c),
        n.kind == NodeKind::Comment ==> c is Text,
    ensures
        node_wf(with_chunk(n, c)),
{
    lemma_chunks_wf_push(n.contents, c, n.contents.len() as int);
    let cs = n.contents.push(c);
    assert(chunks_wf(cs, cs.len() as int) == (chunks_wf(cs, cs.len() - 1) && chunk_wf(
        cs[cs.len() - 1],
    )));
    if n.kind == NodeKind::Comment {
        assert forall|j: int| 0 <= j < cs.len() implies cs[j] is Text by {
            if j < n.contents.len() {
                assert(cs[j] == n.contents[j]);
            }
        }
    }
}

proof fn lemma_push_chunk_top_wf(stack: Seq<NodeModel>, c: ChunkModel)
    requires
        stack_wf(stack),
        chunk_wf(c),
        stack.last().kind == NodeKind::Comment ==> c is Text,
    ensures
        stack_wf(push_chunk_top(stack, c)),
        push_chunk_top(stack, c).len() == stack.len(),
        push_chunk_top(stack, c).last().kind == stack.last().kind,
        push_chunk_top(stack, c).last().author == stack.last().author,
        push_chunk_top(stack, c).drop_last() == stack.drop_last(),
{
    lemma_with_chunk_wf(stack.last(), c);
    assert(push_chunk_top(stack, c).drop_last() =~= stack.drop_last());
}

proof fn lemma_push_text_wf(stack: Seq<NodeModel>, t: Seq<char>)
    requires
        stack_wf(stack),
    ensures
        stack_wf(push_text(stack, t)),
        push_text(stack, t).len() == stack.len(),
        push_text(stack, t).last().kind == stack.last().kind,
        push_text(stack, t).last().author == stack.last().author,
        push_text(stack, t).drop_last() == stack.drop_last(),
{
    if t.len() > 0 {
        lemma_push_chunk_top_wf(stack, ChunkModel::Text(t));
    }
}

proof fn lemma_set_top_author_wf(stack: Seq<NodeModel>, a: Seq<char>)
    requires
        stack_wf(stack),
        stack.len() >= 2,
    ensures
        stack_wf(set_top_author(stack, a)),
        set_top_author(stack, a).len() == stack.len(),
        set_top_author(stack, a).last().kind == stack.last().kind,
        set_top_author(stack, a).last().contents == stack.last().contents,
        set_top_author(stack, a).drop_last() == stack.drop_last(),
{
    assert(set_top_author(stack, a).drop_last() =~= stack.drop_last());
}

proof fn lemma_parse_loop_wf(stack: Seq<NodeModel>, s: Seq<char>, pos: int, n: NodeModel)
    requires
        0 <= pos <= s.len(),
        stack_wf(stack),
        parse_loop(stack, s, pos) == Ok::<NodeModel, ParseErrorModel>(n),
    ensures
        n.kind == NodeKind::Root,
        n.author is None,
        node_wf(n),
    decreases s.len() - pos,
{
    lemma_scan_from_bounds(s, pos);
    let i = scan_from(s, pos);
    lemma_author_end_bounds(s, i);
    let chunk = s.subrange(pos, i);
    let tagpos = match author_end(s, i) {
        Some(l) => l,
        None => i,
    };
    let author = match author_end(s, i) {
        Some(l) => s.subrange(i, l),
        None => Seq::<char>::empty(),
    };
    if tagpos == s.len() {
        lemma_push_text_wf(stack, chunk + author);
        let stack1 = push_text(stack, chunk + author);
        assert(stack1.len() == 1);
        assert(stack1[0] == stack1.last());
        assert(n == stack1[0]);
    } else {
        assert(tag_at(s, tagpos));
        let after = tagpos + 3;
        lemma_strip_pos_bounds(s, after);
        let newpos = if (chunk.len() > 0 && chunk.last() == '\n') || (author.len() > 0
            && author.last() == '\n') {
            strip_pos(s, after)
        } else {
            after
        };
        match closer_kind_at(s, tagpos) {
            Some(k) => {
                let stack1 = if author.len() > 0 {
                    set_top_author(stack, author)
                } else {
                    stack
                };
                if author.len() > 0 && stack.len() == 1 {
                    // setting the author on the root cannot lead to success:
                    // no closer matches the root kind
                    assert(set_top_author(stack, author).last().kind == NodeKind::Root);
                    assert(push_text(stack1, chunk).len() == 1);
                    assert(push_text(stack1, chunk).last().kind == NodeKind::Root);
                    assert(false);
                }
                if author.len() > 0 {
                    lemma_set_top_author_wf(stack, author);
                }
                lemma_push_text_wf(stack1, chunk);
                let stack2 = push_text(stack1, chunk);
                let finished = stack2.last();
                let rest = stack2.drop_last();
                assert(finished.kind == k);
                assert(stack2.len() >= 2) by {
                    if stack2.len() == 1 {
                        assert(stack2[0].kind == NodeKind::Root);
                    }
                }
                assert(rest.len() >= 1);
                assert(rest.last().kind != NodeKind::Comment);
                assert(stack_wf(stack2));
                assert(stack_wf(rest)) by {
                    assert(rest[0] == stack2[0]);
                    assert(forall|j: int|
                        0 <= j < rest.len() ==> #[trigger] rest[j] == stack2[j]);
                }
                assert(node_wf(finished));
                assert(chunk_wf(ChunkModel::Node(finished)));
                lemma_push_chunk_top_wf(rest, ChunkModel::Node(finished));
                lemma_parse_loop_wf(push_chunk_top(rest, ChunkModel::Node(finished)), s, newpos, n);
            },
            None => {
                lemma_push_text_wf(stack, chunk + author);
                let stack1 = push_text(stack, chunk + author);
                let k = opener_kind_at(s, tagpos)->Some_0;
                let stack2 = stack1.push(empty_node_model(k));
                assert(opener_kind_at(s, tagpos) is Some);
                assert(k != NodeKind::Root);
                assert(node_wf(empty_node_model(k)));
                assert(stack_wf(stack2)) by {
                    assert(forall|j: int|
                        0 <= j < stack1.len() ==> #[trigger] stack2[j] == stack1[j]);
                    assert(stack2.last() == empty_node_model(k));
                }
                lemma_parse_loop_wf(stack2, s, newpos, n);
            },
        }
    }
}

/// LAW (tree shape). A tree the parser returns is well formed: its top is
/// the single root node, carrying no author annotation; the root kind
/// appears nowhere below it; and a comment node's contents hold only text,
/// never a nested node.
pub proof fn lemma_parse_wf(s: Seq<char>, n: NodeModel)
    requires
        parse_spec(s) == Ok::<NodeModel, ParseErrorModel>(n),
    ensures
        n.kind == NodeKind::Root,
        n.author is None,
        node_wf(n),
{
    let st = seq![root_model()];
    assert(stack_wf(st)) by {
        assert(st[0] == root_model());
        assert(chunks_wf(root_model().contents, 0));
        assert(node_wf(root_model()));
    }
    lemma_parse_loop_wf(st, s, 0, n);
}

} // verus!
