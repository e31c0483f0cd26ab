use vstd::prelude::*;

use crate::chars::trim_of;
use crate::chars::trim_str;

verus! {

/// The kind of a [`Node`]: the whole document, or one of the three tagged
/// region kinds.
#[derive(Clone, Copy, PartialEq, Eq, Structural, Debug)]
pub enum NodeKind {
    Root,
    Insertion,
    Deletion,
    Comment,
}

/// A piece of a [`Node`]'s contents: literal text, or a nested child node.
#[derive(Debug)]
pub enum Chunk {
    TextChunk(String),
    NodeChunk(Node),
}

/// One tagged region of a suggestions document (or, for `Root`, the whole
/// document). A node owns its `contents`, whose order is reading order.
///
/// `author_string` holds the author annotation exactly as written, spaces
/// included, so literal re-serialization can reproduce the input; see
/// [`Node::author_clean`] for the trimmed form.
#[derive(Debug)]
pub struct Node {
    pub author_string: Option<String>,
    pub contents: Vec<Chunk>,
    pub kind: NodeKind,
}

/// The mathematical value of a [`Chunk`].
pub ghost enum ChunkModel {
    Text(Seq<char>),
    Node(NodeModel),
}

/// The mathematical value of a [`Node`]: the same tree over `Seq<char>`.
pub ghost struct NodeModel {
    pub author: Option<Seq<char>>,
    pub contents: Seq<ChunkModel>,
    pub kind: NodeKind,
}

pub open spec fn chunk_model(c: Chunk) -> ChunkModel
    decreases c, 0int,
{
    match c {
        Chunk::TextChunk(t) => ChunkModel::Text(t@),
        Chunk::NodeChunk(n) => ChunkModel::Node(node_model(n)),
    }
}

pub open spec fn chunks_model_from(cs: Seq<Chunk>, i: int) -> Seq<ChunkModel>
    decreases cs, cs.len() - i,
{
    if 0 <= i < cs.len() {
        seq![chunk_model(cs[i])] + chunks_model_from(cs, i + 1)
    } else {
        Seq::empty()
    }
}

pub open spec fn node_model(n: Node) -> NodeModel
    decreases n, 1int,
{
    NodeModel {
        author: match n.author_string {
            Some(a) => Some(a@),
            None => None,
        },
        contents: chunks_model_from(n.contents@, 0),
        kind: n.kind,
    }
}

impl View for Node {
    type V = NodeModel;

    open spec fn view(&self) -> NodeModel {
        node_model(*self)
    }
}

impl View for Chunk {
    type V = ChunkModel;

    open spec fn view(&self) -> ChunkModel {
        chunk_model(*self)
    }
}

pub proof fn lemma_chunks_model_from(cs: Seq<Chunk>, i: int)
    requires
        0 <= i <= cs.len(),
    ensures
        chunks_model_from(cs, i).len() == cs.len() - i,
        forall|j: int|
            0 <= j < cs.len() - i ==> #[trigger] chunks_model_from(cs, i)[j] == chunk_model(
                cs[i + j],
            ),
    decreases cs.len() - i,
{
    if i < cs.len() {
        lemma_chunks_model_from(cs, i + 1);
        assert forall|j: int| 0 <= j < cs.len() - i implies #[trigger] chunks_model_from(cs, i)[j]
            == chunk_model(cs[i + j]) by {
            if j > 0 {
                assert(chunks_model_from(cs, i)[j] == chunks_model_from(cs, i + 1)[j - 1]);
                assert(chunks_model_from(cs, i + 1)[j - 1] == chunk_model(cs[i + 1 + (j - 1)]));
            }
        }
    }
}

pub proof fn lemma_chunks_model_push(cs: Seq<Chunk>, c: Chunk)
    ensures
        chunks_model_from(cs.push(c), 0) == chunks_model_from(cs, 0).push(chunk_model(c)),
{
    lemma_chunks_model_from(cs.push(c), 0);
    lemma_chunks_model_from(cs, 0);
    let lhs = chunks_model_from(cs.push(c), 0);
    let rhs = chunks_model_from(cs, 0).push(chunk_model(c));
    assert forall|j: int| 0 <= j < lhs.len() implies lhs[j] == rhs[j] by {
        assert(lhs[j] == chunk_model(cs.push(c)[0 + j]));
        if j < cs.len() {
            assert(cs.push(c)[j] == cs[j]);
            assert(chunks_model_from(cs, 0)[j] == chunk_model(cs[0 + j]));
        } else {
            assert(cs.push(c)[j] == c);
        }
    }
    assert(lhs =~= rhs);
}

/// The opening tag of each node kind, as it appears in a document.
pub open spec fn opener_of(k: NodeKind) -> Seq<char> {
    match k {
        NodeKind::Root => ""@,
        NodeKind::Insertion => "++["@,
        NodeKind::Deletion => "--["@,
        NodeKind::Comment => "%%["@,
    }
}

/// The closing tag of each node kind, as it appears in a document.
pub open spec fn closer_of(k: NodeKind) -> Seq<char> {
    match k {
        NodeKind::Root => ""@,
        NodeKind::Insertion => "]++"@,
        NodeKind::Deletion => "]--"@,
        NodeKind::Comment => "]%%"@,
    }
}

/// Returns the opening tag for a given kind of node.
pub fn opener(nk: &NodeKind) -> (r: &str)
    ensures
        r@ == opener_of(*nk),
{
    match nk {
        NodeKind::Root => "",
        NodeKind::Insertion => "++[",
        NodeKind::Deletion => "--[",
        NodeKind::Comment => "%%[",
    }
}

/// Returns the closing tag for a given kind of node.
pub fn closer(nk: &NodeKind) -> (r: &str)
    ensures
        r@ == closer_of(*nk),
{
    match nk {
        NodeKind::Root => "",
        NodeKind::Insertion => "]++",
        NodeKind::Deletion => "]--",
        NodeKind::Comment => "]%%",
    }
}

/// The author annotation as serialization appends it: verbatim when present,
/// nothing when absent.
pub open spec fn author_text(a: Option<Seq<char>>) -> Seq<char> {
    match a {
        Some(t) => t,
        None => Seq::empty(),
    }
}

/// The "accept" rendering of the first `i` chunks, concatenated in order.
pub open spec fn chunks_accept(cs: Seq<ChunkModel>, i: int) -> Seq<char>
    decreases cs, i,
{
    if 0 < i <= cs.len() {
        chunks_accept(cs, i - 1) + chunk_accept(cs[i - 1])
    } else {
        Seq::empty()
    }
}

/// The "accept" rendering of one chunk.
pub open spec fn chunk_accept(c: ChunkModel) -> Seq<char>
    decreases c, 0int,
{
    match c {
        ChunkModel::Text(t) => t,
        ChunkModel::Node(n) => node_accept(n),
    }
}

/// The document with every change accepted: deletions and comments vanish
/// with their whole subtrees; the root and insertions contribute their
/// contents in order.
pub open spec fn node_accept(n: NodeModel) -> Seq<char>
    decreases n, 1int,
{
    match n.kind {
        NodeKind::Deletion | NodeKind::Comment => Seq::empty(),
        _ => chunks_accept(n.contents, n.contents.len() as int),
    }
}

/// The "reject" rendering of the first `i` chunks, concatenated in order.
pub open spec fn chunks_reject(cs: Seq<ChunkModel>, i: int) -> Seq<char>
    decreases cs, i,
{
    if 0 < i <= cs.len() {
        chunks_reject(cs, i - 1) + chunk_reject(cs[i - 1])
    } else {
        Seq::empty()
    }
}

/// The "reject" rendering of one chunk.
pub open spec fn chunk_reject(c: ChunkModel) -> Seq<char>
    decreases c, 0int,
{
    match c {
        ChunkModel::Text(t) => t,
        ChunkModel::Node(n) => node_reject(n),
    }
}

/// The document with every change rejected: insertions and comments vanish
/// with their whole subtrees; the root and deletions contribute their
/// contents in order.
pub open spec fn node_reject(n: NodeModel) -> Seq<char>
    decreases n, 1int,
{
    match n.kind {
        NodeKind::Insertion | NodeKind::Comment => Seq::empty(),
        _ => chunks_reject(n.contents, n.contents.len() as int),
    }
}

/// The literal rendering of the first `i` chunks, concatenated in order.
pub open spec fn chunks_suggestion(cs: Seq<ChunkModel>, i: int) -> Seq<char>
    decreases cs, i,
{
    if 0 < i <= cs.len() {
        chunks_suggestion(cs, i - 1) + chunk_suggestion(cs[i - 1])
    } else {
        Seq::empty()
    }
}

/// The literal rendering of one chunk.
pub open spec fn chunk_suggestion(c: ChunkModel) -> Seq<char>
    decreases c, 0int,
{
    match c {
        ChunkModel::Text(t) => t,
        ChunkModel::Node(n) => node_suggestion(n),
    }
}

/// The literal re-serialization of a node: its opening tag, its contents in
/// order, its author annotation verbatim, and its closing tag. The root kind
/// has empty tags, so a root serializes to just its contents.
pub open spec fn node_suggestion(n: NodeModel) -> Seq<char>
    decreases n, 1int,
{
    opener_of(n.kind) + chunks_suggestion(n.contents, n.contents.len() as int)
        + author_text(n.author) + closer_of(n.kind)
}

/// Whether every chunk among the first `i` is well-formed.
pub open spec fn chunks_wf(cs: Seq<ChunkModel>, i: int) -> bool
    decreases cs, i,
{
    if 0 < i <= cs.len() {
        chunks_wf(cs, i - 1) && chunk_wf(cs[i - 1])
    } else {
        true
    }
}

/// Whether a chunk is well-formed: text always is; a child node must not
/// have the root kind and must itself be well-formed.
pub open spec fn chunk_wf(c: ChunkModel) -> bool
    decreases c, 0int,
{
    match c {
        ChunkModel::Text(_) => true,
        ChunkModel::Node(n) => n.kind != NodeKind::Root && node_wf(n),
    }
}

/// Whether a node's contents are bare text throughout.
pub open spec fn texts_only(cs: Seq<ChunkModel>) -> bool {
    forall|j: int| 0 <= j < cs.len() ==> cs[j] is Text
}

/// The tree invariant: the root kind appears only at the top of a tree, and
/// a comment node's contents hold only text, never a nested node.
pub open spec fn node_wf(n: NodeModel) -> bool
    decreases n, 1int,
{
    chunks_wf(n.contents, n.contents.len() as int) && (n.kind == NodeKind::Comment
        ==> texts_only(n.contents))
}

/// The model of the empty root node.
pub open spec fn root_model() -> NodeModel {
    NodeModel { author: None, contents: Seq::empty(), kind: NodeKind::Root }
}

impl Chunk {
    fn to_string_accept(&self) -> (out: String)
        ensures
            out@ == chunk_accept(self@),
        decreases *self, 0int,
    {
        match self {
            Chunk::TextChunk(text) => text.clone(),
            Chunk::NodeChunk(node) => node.to_string_accept(),
        }
    }

    fn to_string_reject(&self) -> (out: String)
        ensures
            out@ == chunk_reject(self@),
        decreases *self, 0int,
    {
        match self {
            Chunk::TextChunk(text) => text.clone(),
            Chunk::NodeChunk(node) => node.to_string_reject(),
        }
    }

    fn to_string_suggestion(&self) -> (out: String)
        ensures
            out@ == chunk_suggestion(self@),
        decreases *self, 0int,
    {
        match self {
            Chunk::TextChunk(text) => text.clone(),
            Chunk::NodeChunk(node) => node.to_string_suggestion(),
        }
    }
}

impl Node {
    /// Returns an empty root node representing an entire document.
    pub fn root() -> (r: Node)
        ensures
            r@ == root_model(),
    {
        let r = Node { kind: NodeKind::Root, author_string: None, contents: Vec::new() };
        proof {
            assert(r@.contents =~= root_model().contents);
            assert(r@ =~= root_model());
        }
        r
    }

    /// Returns the author annotation trimmed of whitespace, if the node has
    /// one.
    pub fn author_clean(&self) -> (r: Option<String>)
        ensures
            match self@.author {
                Some(a) => r is Some && r->Some_0@ == trim_of(a),
                None => r is None,
            },
    {
        match &self.author_string {
            Some(a) => Some(trim_str(a.as_str())),
            None => None,
        }
    }

    /// Return a string representing the node with all changes accepted.
    pub fn to_string_accept(&self) -> (out: String)
        ensures
            out@ == node_accept(self@),
        decreases *self, 1int,
    {
        match self.kind {
            NodeKind::Deletion | NodeKind::Comment => String::new(),
            _ => {
                let ghost cs = self@.contents;
                proof {
                    lemma_chunks_model_from(self.contents@, 0);
                }
                let mut out = String::new();
                let mut i: usize = 0;
                while i < self.contents.len()
                    invariant
                        i <= self.contents.len(),
                        cs == self@.contents,
                        cs.len() == self.contents@.len(),
                        forall|j: int| 0 <= j < cs.len() ==> cs[j] == chunk_model(self.contents@[j]),
                        out@ == chunks_accept(cs, i as int),
                    decreases self.contents.len() - i,
                {
                    let piece = self.contents[i].to_string_accept();
                    out.append(piece.as_str());
                    i = i + 1;
                }
                out
            },
        }
    }

    /// Return a string representing the node with all changes rejected.
    pub fn to_string_reject(&self) -> (out: String)
        ensures
            out@ == node_reject(self@),
        decreases *self, 1int,
    {
        match self.kind {
            NodeKind::Insertion | NodeKind::Comment => String::new(),
            _ => {
                let ghost cs = self@.contents;
                proof {
                    lemma_chunks_model_from(self.contents@, 0);
                }
                let mut out = String::new();
                let mut i: usize = 0;
                while i < self.contents.len()
                    invariant
                        i <= self.contents.len(),
                        cs == self@.contents,
                        cs.len() == self.contents@.len(),
                        forall|j: int| 0 <= j < cs.len() ==> cs[j] == chunk_model(self.contents@[j]),
                        out@ == chunks_reject(cs, i as int),
                    decreases self.contents.len() - i,
                {
                    let piece = self.contents[i].to_string_reject();
                    out.append(piece.as_str());
                    i = i + 1;
                }
                out
            },
        }
    }

    /// Return a string representing the node in suggestions markup form.
    pub fn to_string_suggestion(&self) -> (out: String)
        ensures
            out@ == node_suggestion(self@),
        decreases *self, 1int,
    {
        let ghost cs = self@.contents;
        proof {
            lemma_chunks_model_from(self.contents@, 0);
        }
        let mut out = String::new();
        out.append(opener(&self.kind));
        let mut i: usize = 0;
        while i < self.contents.len()
            invariant
                i <= self.contents.len(),
                cs == self@.contents,
                cs.len() == self.contents@.len(),
                forall|j: int| 0 <= j < cs.len() ==> cs[j] == chunk_model(self.contents@[j]),
                out@ == opener_of(self@.kind) + chunks_suggestion(cs, i as int),
            decreases self.contents.len() - i,
        {
            let piece = self.contents[i].to_string_suggestion();
            out.append(piece.as_str());
            i = i + 1;
            proof {
                assert(out@ =~= opener_of(self@.kind) + chunks_suggestion(cs, i as int));
            }
        }
        if let Some(a) = &self.author_string {
            out.append(a.as_str());
        }
        out.append(closer(&self.kind));
        proof {
            assert(out@ =~= node_suggestion(self@));
        }
        out
    }
}

} // verus!
