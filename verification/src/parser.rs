use vstd::prelude::*;

use crate::chars::is_ws;
use crate::chars::is_ws_char;
use crate::node::Chunk;
use crate::node::ChunkModel;
use crate::node::Node;
use crate::node::NodeKind;
use crate::node::NodeModel;
use crate::node::closer;
use crate::node::closer_of;
use crate::node::lemma_chunks_model_push;
use crate::node::node_model;
use crate::node::root_model;

verus! {

/// Why a parse failed.
#[derive(Debug, PartialEq, Eq)]
pub enum ParseError {
    /// A closing tag did not match the kind of the region being closed:
    /// `seen` is the tag in the input, `expected` the closer of the open
    /// region (empty when no region was open).
    UnmatchedCloser { seen: String, expected: String },
    /// A tag was opened or closed inside a comment region.
    CommentNesting,
    /// The input ended while tagged regions were still open.
    UnterminatedTag,
    /// There was no input to parse.
    EmptyInput,
}

/// The mathematical value of a [`ParseError`].
pub ghost enum ParseErrorModel {
    UnmatchedCloser { seen: Seq<char>, expected: Seq<char> },
    CommentNesting,
    UnterminatedTag,
    EmptyInput,
}

impl View for ParseError {
    type V = ParseErrorModel;

    open spec fn view(&self) -> ParseErrorModel {
        match self {
            ParseError::UnmatchedCloser { seen, expected } => ParseErrorModel::UnmatchedCloser {
                seen: seen@,
                expected: expected@,
            },
            ParseError::CommentNesting => ParseErrorModel::CommentNesting,
            ParseError::UnterminatedTag => ParseErrorModel::UnterminatedTag,
            ParseError::EmptyInput => ParseErrorModel::EmptyInput,
        }
    }
}

/// The diagnostic message of each parse error.
pub open spec fn message_of(e: ParseErrorModel) -> Seq<char> {
    match e {
        ParseErrorModel::UnmatchedCloser { seen, expected } => "Unmatched closing tag '"@ + seen
            + "', I was expecting '"@ + expected + "'."@,
        ParseErrorModel::CommentNesting => "Comments cannot contain other tags."@,
        ParseErrorModel::UnterminatedTag => "Unmatched opening tag at end of input."@,
        ParseErrorModel::EmptyInput => "Couldn't parse text, was it empty?"@,
    }
}

impl ParseError {
    /// A human-readable description of the error.
    pub fn message(&self) -> (r: String)
        ensures
            r@ == message_of(self@),
    {
        match self {
            ParseError::UnmatchedCloser { seen, expected } => {
                let mut m = String::new();
                m.append("Unmatched closing tag '");
                m.append(seen.as_str());
                m.append("', I was expecting '");
                m.append(expected.as_str());
                m.append("'.");
                proof {
                    assert(m@ =~= message_of(self@));
                }
                m
            },
            ParseError::CommentNesting => String::from_str("Comments cannot contain other tags."),
            ParseError::UnterminatedTag => String::from_str(
                "Unmatched opening tag at end of input.",
            ),
            ParseError::EmptyInput => String::from_str("Couldn't parse text, was it empty?"),
        }
    }
}

/// The kind whose opening tag starts at position `i`, if any.
pub open spec fn opener_kind_at(s: Seq<char>, i: int) -> Option<NodeKind> {
    if 0 <= i && i + 3 <= s.len() {
        if s[i] == '+' && s[i + 1] == '+' && s[i + 2] == '[' {
            Some(NodeKind::Insertion)
        } else if s[i] == '-' && s[i + 1] == '-' && s[i + 2] == '[' {
            Some(NodeKind::Deletion)
        } else if s[i] == '%' && s[i + 1] == '%' && s[i + 2] == '[' {
            Some(NodeKind::Comment)
        } else {
            None
        }
    } else {
        None
    }
}

/// The kind whose closing tag starts at position `i`, if any.
pub open spec fn closer_kind_at(s: Seq<char>, i: int) -> Option<NodeKind> {
    if 0 <= i && i + 3 <= s.len() {
        if s[i] == ']' && s[i + 1] == '+' && s[i + 2] == '+' {
            Some(NodeKind::Insertion)
        } else if s[i] == ']' && s[i + 1] == '-' && s[i + 2] == '-' {
            Some(NodeKind::Deletion)
        } else if s[i] == ']' && s[i + 1] == '%' && s[i + 2] == '%' {
            Some(NodeKind::Comment)
        } else {
            None
        }
    } else {
        None
    }
}

/// Whether any tag (opener or closer) starts at position `i`.
pub open spec fn tag_at(s: Seq<char>, i: int) -> bool {
    opener_kind_at(s, i) is Some || closer_kind_at(s, i) is Some
}

/// The length of the run of literal spaces starting at `i`.
pub open spec fn space_run(s: Seq<char>, i: int) -> int
    decreases s.len() - i,
{
    if 0 <= i < s.len() && s[i] == ' ' {
        1 + space_run(s, i + 1)
    } else {
        0
    }
}

/// The length of the run of whitespace starting at `i`.
pub open spec fn ws_run(s: Seq<char>, i: int) -> int
    decreases s.len() - i,
{
    if 0 <= i < s.len() && is_ws(s[i]) {
        1 + ws_run(s, i + 1)
    } else {
        0
    }
}

/// Where an author handle that started before position `k` can end. The
/// handle is extended one non-whitespace character at a time (shortest
/// first); it ends at the first length for which the following whitespace
/// run leads directly to a tag or to the end of input. The result is the
/// position of that tag (or the input length).
pub open spec fn handle_scan(s: Seq<char>, k: int) -> Option<int>
    decreases s.len() - k,
{
    let l = k + ws_run(s, k);
    if l == s.len() || tag_at(s, l) {
        Some(l)
    } else if 0 <= k < s.len() && !is_ws(s[k]) {
        handle_scan(s, k + 1)
    } else {
        None
    }
}

/// Whether an author annotation starts at position `i`: a run of spaces, an
/// `@`, at least one non-whitespace character, then whitespace leading to a
/// tag or to the end of input. Returns the position right after the
/// annotation (where the tag starts, or the input length).
pub open spec fn author_end(s: Seq<char>, i: int) -> Option<int> {
    let j = i + space_run(s, i);
    if 0 <= j < s.len() && s[j] == '@' && j + 1 < s.len() && !is_ws(s[j + 1]) {
        handle_scan(s, j + 2)
    } else {
        None
    }
}

/// Whether scanning recognizes a marker at position `i`: a tag, or an author
/// annotation leading to a tag or to the end of input.
pub open spec fn marker_at(s: Seq<char>, i: int) -> bool {
    tag_at(s, i) || author_end(s, i) is Some
}

/// The position of the earliest marker at or after `i` (the input length if
/// there is none): everything before it is literal text.
pub open spec fn scan_from(s: Seq<char>, i: int) -> int
    decreases s.len() - i,
{
    if i >= s.len() {
        i
    } else if marker_at(s, i) {
        i
    } else {
        scan_from(s, i + 1)
    }
}

/// The position of the first newline at or after `p`, provided everything
/// from `p` up to it is whitespace.
pub open spec fn nl_scan(s: Seq<char>, p: int) -> Option<int>
    decreases s.len() - p,
{
    if 0 <= p < s.len() && s[p] == '\n' {
        Some(p)
    } else if 0 <= p < s.len() && is_ws(s[p]) {
        nl_scan(s, p + 1)
    } else {
        None
    }
}

/// Where parsing resumes after the cosmetic newline strip: when the text
/// just before a tag ended with a newline, a whitespace-only run up to and
/// including the next newline is dropped, so a tag alone on its own line
/// leaves no blank line behind.
pub open spec fn strip_pos(s: Seq<char>, p: int) -> int {
    match nl_scan(s, p) {
        Some(m) => m + 1,
        None => p,
    }
}

proof fn lemma_space_run_bounds(s: Seq<char>, i: int)
    requires
        0 <= i <= s.len(),
    ensures
        0 <= space_run(s, i),
        i + space_run(s, i) <= s.len(),
    decreases s.len() - i,
{
    if i < s.len() && s[i] == ' ' {
        lemma_space_run_bounds(s, i + 1);
    }
}

proof fn lemma_ws_run_bounds(s: Seq<char>, i: int)
    requires
        0 <= i <= s.len(),
    ensures
        0 <= ws_run(s, i),
        i + ws_run(s, i) <= s.len(),
    decreases s.len() - i,
{
    if i < s.len() && is_ws(s[i]) {
        lemma_ws_run_bounds(s, i + 1);
    }
}

proof fn lemma_handle_scan_bounds(s: Seq<char>, k: int)
    requires
        0 <= k <= s.len(),
    ensures
        match handle_scan(s, k) {
            Some(l) => k <= l <= s.len() && (l == s.len() || tag_at(s, l)),
            None => true,
        },
    decreases s.len() - k,
{
    lemma_ws_run_bounds(s, k);
    if !(k + ws_run(s, k) == s.len() || tag_at(s, k + ws_run(s, k))) && k < s.len() && !is_ws(
        s[k],
    ) {
        lemma_handle_scan_bounds(s, k + 1);
    }
}

pub proof fn lemma_author_end_bounds(s: Seq<char>, i: int)
    requires
        0 <= i <= s.len(),
    ensures
        match author_end(s, i) {
            Some(l) => i < l <= s.len() && (l == s.len() || tag_at(s, l)),
            None => true,
        },
{
    lemma_space_run_bounds(s, i);
    let j = i + space_run(s, i);
    if 0 <= j < s.len() && s[j] == '@' && j + 1 < s.len() && !is_ws(s[j + 1]) {
        lemma_handle_scan_bounds(s, j + 2);
    }
}

pub proof fn lemma_scan_from_bounds(s: Seq<char>, i: int)
    requires
        0 <= i <= s.len(),
    ensures
        i <= scan_from(s, i) <= s.len(),
        scan_from(s, i) == s.len() || marker_at(s, scan_from(s, i)),
    decreases s.len() - i,
{
    if i < s.len() && !marker_at(s, i) {
        lemma_scan_from_bounds(s, i + 1);
    }
}

proof fn lemma_nl_scan_bounds(s: Seq<char>, p: int)
    requires
        0 <= p <= s.len(),
    ensures
        match nl_scan(s, p) {
            Some(m) => p <= m < s.len(),
            None => true,
        },
    decreases s.len() - p,
{
    if p < s.len() && s[p] != '\n' && is_ws(s[p]) {
        lemma_nl_scan_bounds(s, p + 1);
    }
}

pub proof fn lemma_strip_pos_bounds(s: Seq<char>, p: int)
    requires
        0 <= p <= s.len(),
    ensures
        p <= strip_pos(s, p) <= s.len(),
{
    lemma_nl_scan_bounds(s, p);
}

/// A node model with one more chunk appended to its contents.
pub open spec fn with_chunk(n: NodeModel, c: ChunkModel) -> NodeModel {
    NodeModel { author: n.author, contents: n.contents.push(c), kind: n.kind }
}

/// A parse stack with a chunk appended to the contents of its top node.
pub open spec fn push_chunk_top(st: Seq<NodeModel>, c: ChunkModel) -> Seq<NodeModel> {
    st.update(st.len() - 1, with_chunk(st.last(), c))
}

/// A parse stack with text appended to its top node, unless the text is
/// empty, in which case no chunk is added.
pub open spec fn push_text(st: Seq<NodeModel>, t: Seq<char>) -> Seq<NodeModel> {
    if t.len() == 0 {
        st
    } else {
        push_chunk_top(st, ChunkModel::Text(t))
    }
}

/// A parse stack whose top node's author annotation is set to `a`.
pub open spec fn set_top_author(st: Seq<NodeModel>, a: Seq<char>) -> Seq<NodeModel> {
    st.update(
        st.len() - 1,
        NodeModel { author: Some(a), contents: st.last().contents, kind: st.last().kind },
    )
}

/// A fresh, empty node of kind `k`.
pub open spec fn empty_node_model(k: NodeKind) -> NodeModel {
    NodeModel { author: None, contents: Seq::empty(), kind: k }
}

/// One state of the parse: `stack` is the chain of open regions (the root at
/// the bottom), and `pos` the position in `s` where scanning resumes. Each
/// step finds the earliest marker, turns the text before it into a chunk of
/// the innermost open region, and then opens a region, closes one (checking
/// that the closer matches and that the enclosing region is not a comment),
/// or finishes at end of input (failing if regions are still open).
pub open spec fn parse_loop(stack: Seq<NodeModel>, s: Seq<char>, pos: int) -> Result<
    NodeModel,
    ParseErrorModel,
>
    decreases s.len() - pos,
    via parse_loop_decreases
{
    if pos < 0 || pos > s.len() {
        // not reachable from parsing, which starts at position zero
        Err(ParseErrorModel::UnterminatedTag)
    } else {
        let i = scan_from(s, pos);
        let chunk = s.subrange(pos, i);
        let tagpos = match author_end(s, i) {
            Some(l) => l,
            None => i,
        };
        let author = match author_end(s, i) {
            Some(l) => s.subrange(i, l),
            None => Seq::empty(),
        };
        if tagpos == s.len() {
            // end of input: a stray author annotation folds back into the text
            let stack1 = push_text(stack, chunk + author);
            if stack1.len() == 1 {
                Ok(stack1[0])
            } else {
                Err(ParseErrorModel::UnterminatedTag)
            }
        } else {
            let after_tag = tagpos + 3;
            let newpos = if (chunk.len() > 0 && chunk.last() == '\n') || (author.len() > 0
                && author.last() == '\n') {
                strip_pos(s, after_tag)
            } else {
                after_tag
            };
            match closer_kind_at(s, tagpos) {
                Some(k) => {
                    let stack1 = if author.len() > 0 {
                        set_top_author(stack, author)
                    } else {
                        stack
                    };
                    let stack2 = push_text(stack1, chunk);
                    let finished = stack2.last();
                    let rest = stack2.drop_last();
                    if finished.kind != k {
                        Err(
                            ParseErrorModel::UnmatchedCloser {
                                seen: closer_of(k),
                                expected: closer_of(finished.kind),
                            },
                        )
                    } else if rest.len() == 0 {
                        // not reachable from parsing: the bottom of the stack
                        // is the root, whose kind no closer matches
                        Err(ParseErrorModel::UnterminatedTag)
                    } else if rest.last().kind == NodeKind::Comment {
                        Err(ParseErrorModel::CommentNesting)
                    } else {
                        parse_loop(push_chunk_top(rest, ChunkModel::Node(finished)), s, newpos)
                    }
                },
                None => {
                    // an opener; a stray author annotation folds back into the text
                    let k = opener_kind_at(s, tagpos)->Some_0;
                    let stack1 = push_text(stack, chunk + author);
                    parse_loop(stack1.push(empty_node_model(k)), s, newpos)
                },
            }
        }
    }
}

#[via_fn]
proof fn parse_loop_decreases(stack: Seq<NodeModel>, s: Seq<char>, pos: int) {
    if 0 <= pos <= s.len() {
        lemma_scan_from_bounds(s, pos);
        let i = scan_from(s, pos);
        lemma_author_end_bounds(s, i);
        let tagpos = match author_end(s, i) {
            Some(l) => l,
            None => i,
        };
        if tagpos < s.len() {
            lemma_strip_pos_bounds(s, tagpos + 3);
        }
    }
}

/// What parsing a whole document yields: the root node of the tree, or the
/// first error. Empty input is rejected outright.
pub open spec fn parse_spec(s: Seq<char>) -> Result<NodeModel, ParseErrorModel> {
    if s.len() == 0 {
        Err(ParseErrorModel::EmptyInput)
    } else {
        parse_loop(seq![root_model()], s, 0)
    }
}

} // verus!

verus! {

/// The models of a stack of partially built nodes, bottom first.
pub open spec fn stack_model(st: Seq<Node>) -> Seq<NodeModel> {
    st.map_values(|n: Node| node_model(n))
}

fn opener_kind_exec(s: &str, n: usize, i: usize) -> (r: Option<NodeKind>)
    requires
        n == s@.len(),
        i <= n,
    ensures
        r == opener_kind_at(s@, i as int),
{
    if n >= 3 && i <= n - 3 {
        let c0 = s.get_char(i);
        let c1 = s.get_char(i + 1);
        let c2 = s.get_char(i + 2);
        if c0 == '+' && c1 == '+' && c2 == '[' {
            Some(NodeKind::Insertion)
        } else if c0 == '-' && c1 == '-' && c2 == '[' {
            Some(NodeKind::Deletion)
        } else if c0 == '%' && c1 == '%' && c2 == '[' {
            Some(NodeKind::Comment)
        } else {
            None
        }
    } else {
        None
    }
}

fn closer_kind_exec(s: &str, n: usize, i: usize) -> (r: Option<NodeKind>)
    requires
        n == s@.len(),
        i <= n,
    ensures
        r == closer_kind_at(s@, i as int),
{
    if n >= 3 && i <= n - 3 {
        let c0 = s.get_char(i);
        let c1 = s.get_char(i + 1);
        let c2 = s.get_char(i + 2);
        if c0 == ']' && c1 == '+' && c2 == '+' {
            Some(NodeKind::Insertion)
        } else if c0 == ']' && c1 == '-' && c2 == '-' {
            Some(NodeKind::Deletion)
        } else if c0 == ']' && c1 == '%' && c2 == '%' {
            Some(NodeKind::Comment)
        } else {
            None
        }
    } else {
        None
    }
}

fn tag_at_exec(s: &str, n: usize, i: usize) -> (r: bool)
    requires
        n == s@.len(),
        i <= n,
    ensures
        r == tag_at(s@, i as int),
{
    opener_kind_exec(s, n, i).is_some() || closer_kind_exec(s, n, i).is_some()
}

fn space_run_exec(s: &str, n: usize, i: usize) -> (r: usize)
    requires
        n == s@.len(),
        i <= n,
    ensures
        r as int == space_run(s@, i as int),
        i + r <= n,
{
    let mut j: usize = i;
    while j < n && s.get_char(j) == ' '
        invariant
            i <= j <= n,
            n == s@.len(),
            space_run(s@, i as int) == (j - i) + space_run(s@, j as int),
        decreases n - j,
    {
        j = j + 1;
    }
    j - i
}

fn ws_run_exec(s: &str, n: usize, i: usize) -> (r: usize)
    requires
        n == s@.len(),
        i <= n,
    ensures
        r as int == ws_run(s@, i as int),
        i + r <= n,
{
    let mut j: usize = i;
    while j < n && is_ws_char(s.get_char(j))
        invariant
            i <= j <= n,
            n == s@.len(),
            ws_run(s@, i as int) == (j - i) + ws_run(s@, j as int),
        decreases n - j,
    {
        j = j + 1;
    }
    j - i
}

fn handle_scan_exec(s: &str, n: usize, k0: usize) -> (r: Option<usize>)
    requires
        n == s@.len(),
        k0 <= n,
    ensures
        match r {
            Some(l) => handle_scan(s@, k0 as int) == Some(l as int) && l <= n,
            None => handle_scan(s@, k0 as int) is None,
        },
{
    let mut k: usize = k0;
    loop
        invariant
            k0 <= k <= n,
            n == s@.len(),
            handle_scan(s@, k0 as int) == handle_scan(s@, k as int),
        decreases n - k,
    {
        let w = ws_run_exec(s, n, k);
        let l = k + w;
        if l == n || tag_at_exec(s, n, l) {
            return Some(l);
        }
        if k < n && !is_ws_char(s.get_char(k)) {
            k = k + 1;
        } else {
            return None;
        }
    }
}

fn author_end_exec(s: &str, n: usize, i: usize) -> (r: Option<usize>)
    requires
        n == s@.len(),
        i <= n,
    ensures
        match r {
            Some(l) => author_end(s@, i as int) == Some(l as int) && i < l <= n,
            None => author_end(s@, i as int) is None,
        },
{
    proof {
        lemma_author_end_bounds(s@, i as int);
    }
    let sp = space_run_exec(s, n, i);
    let j = i + sp;
    if j < n && s.get_char(j) == '@' && j + 1 < n && !is_ws_char(s.get_char(j + 1)) {
        handle_scan_exec(s, n, j + 2)
    } else {
        None
    }
}

fn marker_at_exec(s: &str, n: usize, i: usize) -> (r: bool)
    requires
        n == s@.len(),
        i <= n,
    ensures
        r == marker_at(s@, i as int),
{
    if tag_at_exec(s, n, i) {
        true
    } else {
        author_end_exec(s, n, i).is_some()
    }
}

fn scan_exec(s: &str, n: usize, pos: usize) -> (r: usize)
    requires
        n == s@.len(),
        pos <= n,
    ensures
        r as int == scan_from(s@, pos as int),
        pos <= r <= n,
{
    let mut i: usize = pos;
    while i < n
        invariant
            pos <= i <= n,
            n == s@.len(),
            scan_from(s@, pos as int) == scan_from(s@, i as int),
        decreases n - i,
    {
        if marker_at_exec(s, n, i) {
            return i;
        }
        i = i + 1;
    }
    i
}

fn strip_exec(s: &str, n: usize, p: usize) -> (r: usize)
    requires
        n == s@.len(),
        p <= n,
    ensures
        r as int == strip_pos(s@, p as int),
        p <= r <= n,
{
    let mut q: usize = p;
    while q < n && is_ws_char(s.get_char(q))
        invariant
            p <= q <= n,
            n == s@.len(),
            nl_scan(s@, p as int) == nl_scan(s@, q as int),
        decreases n - q,
    {
        if s.get_char(q) == '\n' {
            return q + 1;
        }
        q = q + 1;
    }
    p
}

fn stack_push_chunk(stack: &mut Vec<Node>, c: Chunk)
    requires
        old(stack).len() >= 1,
    ensures
        final(stack).len() == old(stack).len(),
        stack_model(final(stack)@) == push_chunk_top(stack_model(old(stack)@), c@),
{
    let ghost st0 = stack@;
    let ghost cm = c@;
    let mut top = stack.pop().unwrap();
    let ghost top0 = top;
    top.contents.push(c);
    proof {
        lemma_chunks_model_push(top0.contents@, c);
        assert(node_model(top) == with_chunk(node_model(top0), cm));
    }
    stack.push(top);
    proof {
        assert(stack_model(stack@) =~= push_chunk_top(stack_model(st0), cm));
    }
}

fn stack_push_text(stack: &mut Vec<Node>, t: String)
    requires
        old(stack).len() >= 1,
    ensures
        final(stack).len() == old(stack).len(),
        stack_model(final(stack)@) == push_text(stack_model(old(stack)@), t@),
{
    if t.as_str().unicode_len() > 0 {
        stack_push_chunk(stack, Chunk::TextChunk(t));
    }
}

fn stack_set_author(stack: &mut Vec<Node>, a: String)
    requires
        old(stack).len() >= 1,
    ensures
        final(stack).len() == old(stack).len(),
        stack_model(final(stack)@) == set_top_author(stack_model(old(stack)@), a@),
{
    let ghost st0 = stack@;
    let ghost am = a@;
    let mut top = stack.pop().unwrap();
    let ghost top0 = top;
    top.author_string = Some(a);
    proof {
        assert(node_model(top) == NodeModel {
            author: Some(am),
            contents: node_model(top0).contents,
            kind: top0.kind,
        });
    }
    stack.push(top);
    proof {
        assert(stack_model(stack@) =~= set_top_author(stack_model(st0), am));
    }
}

/// The misplaced author annotations a scan of `s` meets from `pos` on, in
/// order: every author-shaped run that ends at an opener or at the end of
/// input rather than at a closer. The walk visits exactly the positions the
/// parse itself visits; they do not depend on the parse stack.
pub open spec fn scan_warnings(s: Seq<char>, pos: int) -> Seq<Seq<char>>
    decreases s.len() - pos,
    via scan_warnings_decreases
{
    if pos < 0 || pos > s.len() {
        Seq::empty()
    } else {
        let i = scan_from(s, pos);
        let chunk = s.subrange(pos, i);
        let tagpos = match author_end(s, i) {
            Some(l) => l,
            None => i,
        };
        let author = match author_end(s, i) {
            Some(l) => s.subrange(i, l),
            None => Seq::empty(),
        };
        if tagpos == s.len() {
            if author.len() > 0 {
                seq![author]
            } else {
                Seq::empty()
            }
        } else {
            let after_tag = tagpos + 3;
            let newpos = if (chunk.len() > 0 && chunk.last() == '\n') || (author.len() > 0
                && author.last() == '\n') {
                strip_pos(s, after_tag)
            } else {
                after_tag
            };
            let here: Seq<Seq<char>> = if author.len() > 0 && closer_kind_at(s, tagpos) is None {
                seq![author]
            } else {
                Seq::empty()
            };
            here + scan_warnings(s, newpos)
        }
    }
}

#[via_fn]
proof fn scan_warnings_decreases(s: Seq<char>, pos: int) {
    if 0 <= pos <= s.len() {
        lemma_scan_from_bounds(s, pos);
        let i = scan_from(s, pos);
        lemma_author_end_bounds(s, i);
        let tagpos = match author_end(s, i) {
            Some(l) => l,
            None => i,
        };
        if tagpos < s.len() {
            lemma_strip_pos_bounds(s, tagpos + 3);
        }
    }
}

/// The views of a list of warnings.
pub open spec fn warnings_view(ws: Seq<String>) -> Seq<Seq<char>> {
    ws.map_values(|w: String| w@)
}

/// Make a [`Node`] from a string in suggestions markup.
/// and also the misplaced author annotations met along the way.
///
/// The result is exactly what [`parse_spec`] says: the document tree on
/// success, and the first error — an unmatched closer, a tag nested in a
/// comment, an unterminated tag at end of input, or empty input — otherwise.
/// On success the warnings are exactly [`scan_warnings`]: every author-shaped
/// run that stood before an opener or the end of input, where it is folded
/// back into the text rather than attached to a node.
pub fn make_node_from_string_with_warnings(text: String) -> (r: (
    Result<Node, ParseError>,
    Vec<String>,
))
    ensures
        match r.0 {
            Ok(node) => parse_spec(text@) == Ok::<NodeModel, ParseErrorModel>(node@),
            Err(e) => parse_spec(text@) == Err::<NodeModel, ParseErrorModel>(e@),
        },
        parse_spec(text@) is Ok ==> warnings_view(r.1@) == scan_warnings(text@, 0),
{
    let s: &str = text.as_str();
    let n: usize = s.unicode_len();
    let mut warnings: Vec<String> = Vec::new();
    if n == 0 {
        return (Err(ParseError::EmptyInput), warnings);
    }
    let mut stack: Vec<Node> = Vec::new();
    stack.push(Node::root());
    proof {
        assert(stack_model(stack@) =~= seq![root_model()]);
        assert(warnings_view(warnings@) + scan_warnings(s@, 0) =~= scan_warnings(s@, 0));
    }
    let mut pos: usize = 0;
    loop
        invariant
            n == s@.len(),
            s@ == text@,
            n > 0,
            pos <= n,
            stack.len() >= 1,
            parse_loop(stack_model(stack@), s@, pos as int) == parse_loop(
                seq![root_model()],
                s@,
                0,
            ),
            warnings_view(warnings@) + scan_warnings(s@, pos as int) == scan_warnings(s@, 0),
        decreases n - pos,
    {
        let ghost st0 = stack_model(stack@);
        let ghost pos0 = pos as int;
        proof {
            lemma_scan_from_bounds(s@, pos0);
        }
        let i = scan_exec(s, n, pos);
        let author_opt = author_end_exec(s, n, i);
        let ghost spec_tagpos: int = match author_end(s@, i as int) {
            Some(l) => l,
            None => i as int,
        };
        let ghost spec_author: Seq<char> = match author_end(s@, i as int) {
            Some(l) => s@.subrange(i as int, l),
            None => Seq::empty(),
        };
        let tagpos: usize = match author_opt {
            Some(l) => l,
            None => i,
        };
        let author_present = author_opt.is_some();
        let chunk: String = s.substring_char(pos, i).to_owned();
        let ghost chunkm = s@.subrange(pos0, i as int);

        if tagpos == n {
            // end of input; a stray author annotation is a warning
            let ghost w0 = warnings@;
            let mut full = chunk;
            if author_present {
                let a = s.substring_char(i, tagpos).to_owned();
                full.append(a.as_str());
                warnings.push(a);
            }
            proof {
                assert(full@ == chunkm + spec_author);
                if author_present {
                    assert(warnings_view(warnings@) =~= warnings_view(w0).push(spec_author));
                    assert(scan_warnings(s@, pos0) =~= seq![spec_author]);
                } else {
                    assert(scan_warnings(s@, pos0) =~= Seq::<Seq<char>>::empty());
                }
                assert(warnings_view(warnings@) =~= scan_warnings(s@, 0));
            }
            stack_push_text(&mut stack, full);
            let top = stack.pop().unwrap();
            if stack.len() == 0 {
                proof {
                    let stack1 = push_text(st0, chunkm + spec_author);
                    assert(stack1.len() == 1);
                    assert(top@ == stack1[0]);
                    assert(parse_loop(st0, s@, pos0) == Ok::<NodeModel, ParseErrorModel>(top@));
                }
                return (Ok(top), warnings);
            } else {
                proof {
                    let stack1 = push_text(st0, chunkm + spec_author);
                    assert(stack1.len() != 1);
                    assert(parse_loop(st0, s@, pos0) == Err::<NodeModel, ParseErrorModel>(
                        ParseErrorModel::UnterminatedTag,
                    ));
                }
                return (Err(ParseError::UnterminatedTag), warnings);
            }
        }
        // a tag starts at tagpos
        proof {
            lemma_author_end_bounds(s@, i as int);
            if author_end(s@, i as int) is None {
                assert(marker_at(s@, i as int));
            }
            assert(tag_at(s@, spec_tagpos));
        }
        let after_tag = tagpos + 3;
        let strip = {
            let chunk_nl = i > pos && s.get_char(i - 1) == '\n';
            let author_nl = author_present && s.get_char(tagpos - 1) == '\n';
            chunk_nl || author_nl
        };
        proof {
            assert((chunkm.len() > 0 && chunkm.last() == '\n') == (i > pos && s@[i as int - 1]
                == '\n'));
            if author_present {
                assert(spec_author.len() > 0);
                assert(spec_author.last() == s@[spec_tagpos - 1]);
            }
            lemma_strip_pos_bounds(s@, after_tag as int);
        }
        let newpos: usize = if strip {
            strip_exec(s, n, after_tag)
        } else {
            after_tag
        };
        let closer_opt = closer_kind_exec(s, n, tagpos);
        match closer_opt {
            Some(k) => {
                if author_present {
                    let a = s.substring_char(i, tagpos).to_owned();
                    stack_set_author(&mut stack, a);
                }
                stack_push_text(&mut stack, chunk);
                let ghost stack2 = push_text(
                    if spec_author.len() > 0 {
                        set_top_author(st0, spec_author)
                    } else {
                        st0
                    },
                    chunkm,
                );
                proof {
                    assert(stack_model(stack@) == stack2);
                    assert(stack2.len() == stack@.len());
                }
                let finished = stack.pop().unwrap();
                proof {
                    assert(finished@ == stack2.last());
                    assert(stack_model(stack@) =~= stack2.drop_last());
                }
                if finished.kind != k {
                    let e = ParseError::UnmatchedCloser {
                        seen: closer(&k).to_owned(),
                        expected: closer(&finished.kind).to_owned(),
                    };
                    proof {
                        assert(parse_loop(st0, s@, pos0) == Err::<NodeModel, ParseErrorModel>(e@));
                    }
                    return (Err(e), warnings);
                }
                if stack.len() == 0 {
                    proof {
                        assert(parse_loop(st0, s@, pos0) == Err::<NodeModel, ParseErrorModel>(
                            ParseErrorModel::UnterminatedTag,
                        ));
                    }
                    return (Err(ParseError::UnterminatedTag), warnings);
                }
                let parent_comment = stack[stack.len() - 1].kind == NodeKind::Comment;
                if parent_comment {
                    proof {
                        assert(parse_loop(st0, s@, pos0) == Err::<NodeModel, ParseErrorModel>(
                            ParseErrorModel::CommentNesting,
                        ));
                    }
                    return (Err(ParseError::CommentNesting), warnings);
                }
                stack_push_chunk(&mut stack, Chunk::NodeChunk(finished));
                proof {
                    assert(parse_loop(st0, s@, pos0) == parse_loop(
                        stack_model(stack@),
                        s@,
                        newpos as int,
                    ));
                    assert(scan_warnings(s@, pos0) =~= scan_warnings(s@, newpos as int));
                }
                pos = newpos;
            },
            None => {
                let ghost k_spec = opener_kind_at(s@, spec_tagpos)->Some_0;
                // the marker at tagpos is no closer, so it is an opener
                let k = match opener_kind_exec(s, n, tagpos) {
                    Some(k) => k,
                    None => {
                        proof {
                            assert(false);
                        }
                        NodeKind::Root
                    },
                };
                let ghost w0 = warnings@;
                let mut full = chunk;
                if author_present {
                    let a = s.substring_char(i, tagpos).to_owned();
                    full.append(a.as_str());
                    warnings.push(a);
                }
                proof {
                    assert(full@ == chunkm + spec_author);
                    if author_present {
                        assert(warnings_view(warnings@) =~= warnings_view(w0).push(spec_author));
                        assert(scan_warnings(s@, pos0) =~= seq![spec_author] + scan_warnings(
                            s@,
                            newpos as int,
                        ));
                    } else {
                        assert(scan_warnings(s@, pos0) =~= scan_warnings(s@, newpos as int));
                    }
                    assert(warnings_view(warnings@) + scan_warnings(s@, newpos as int)
                        =~= scan_warnings(s@, 0));
                }
                stack_push_text(&mut stack, full);
                stack.push(Node { author_string: None, contents: Vec::new(), kind: k });
                proof {
                    assert(node_model(stack@.last()) == empty_node_model(k_spec));
                    assert(stack_model(stack@) =~= push_text(st0, chunkm + spec_author).push(
                        empty_node_model(k_spec),
                    ));
                    assert(parse_loop(st0, s@, pos0) == parse_loop(
                        stack_model(stack@),
                        s@,
                        newpos as int,
                    ));
                }
                pos = newpos;
            },
        }
    }
}

} // verus!

verus! {

/// Scanning from `i` stops exactly at the first marker position `t`.
pub proof fn lemma_scan_from_exact(s: Seq<char>, i: int, t: int)
    requires
        0 <= i <= t <= s.len(),
        forall|j: int| i <= j < t ==> !marker_at(s, j),
        marker_at(s, t),
    ensures
        scan_from(s, i) == t,
    decreases t - i,
{
    if i < t {
        lemma_scan_from_exact(s, i + 1, t);
    }
}

proof fn lemma_nl_scan_ws(s: Seq<char>, p: int)
    requires
        0 <= p <= s.len(),
    ensures
        match nl_scan(s, p) {
            Some(m) => p <= m < s.len() && forall|j: int| p <= j <= m ==> is_ws(s[j]),
            None => true,
        },
    decreases s.len() - p,
{
    if p < s.len() && s[p] != '\n' && is_ws(s[p]) {
        lemma_nl_scan_ws(s, p + 1);
    }
}

/// The newline strip never reaches past the next non-whitespace character.
pub proof fn lemma_strip_pos_le(s: Seq<char>, p: int, q: int)
    requires
        0 <= p <= q < s.len(),
        !is_ws(s[q]),
    ensures
        p <= strip_pos(s, p) <= q,
{
    lemma_nl_scan_ws(s, p);
    match nl_scan(s, p) {
        Some(m) => {
            if m >= q {
                assert(is_ws(s[q]));
            }
        },
        None => {},
    }
}

/// Where a tag stands, no author annotation starts: tags open with `+`, `-`,
/// `%` or `]`, never with a space or an `@`.
pub proof fn lemma_no_author_at_tag(s: Seq<char>, t: int)
    requires
        tag_at(s, t),
    ensures
        author_end(s, t) is None,
{
    assert(space_run(s, t) == 0);
}

} // verus!

verus! {

/// Make a [`Node`] from a string in suggestions markup.
///
/// The result is exactly what [`parse_spec`] says: the document tree on
/// success, and the first error — an unmatched closer, a tag nested in a
/// comment, an unterminated tag at end of input, or empty input — otherwise.
/// Misplaced author annotations are folded back into the text; to also
/// receive them as warnings, use [`make_node_from_string_with_warnings`].
pub fn make_node_from_string(text: String) -> (r: Result<Node, ParseError>)
    ensures
        match r {
            Ok(node) => parse_spec(text@) == Ok::<NodeModel, ParseErrorModel>(node@),
            Err(e) => parse_spec(text@) == Err::<NodeModel, ParseErrorModel>(e@),
        },
{
    let (result, _warnings) = make_node_from_string_with_warnings(text);
    result
}

} // verus!
