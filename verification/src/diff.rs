use vstd::prelude::*;

use crate::node::Chunk;
use crate::node::ChunkModel;
use crate::node::Node;
use crate::node::NodeKind;
use crate::node::NodeModel;
use crate::node::lemma_chunks_model_push;
use crate::node::node_suggestion;

verus! {

/// One step of a word-level diff between two versions of a text: a piece
/// both versions share, a piece only the new version has, or a piece only
/// the old version has.
#[derive(Clone, Copy, PartialEq, Eq, Structural, Debug)]
pub enum DiffTag {
    Equal,
    Insert,
    Delete,
}

/// The author annotation the diff builder attaches: the author with one
/// space on each side, so the literal rendering reads `... text @author ]++`.
pub open spec fn wrapped_author(author: Option<Seq<char>>) -> Option<Seq<char>> {
    match author {
        Some(a) => Some(" "@ + a + " "@),
        None => None,
    }
}

/// The chunk one diff step becomes: shared text stays a bare text chunk; an
/// inserted or deleted piece becomes an insertion or deletion node holding
/// exactly that text, with the wrapped author attached.
pub open spec fn diff_chunk_model(change: (DiffTag, Seq<char>), author: Option<Seq<char>>) -> ChunkModel {
    match change.0 {
        DiffTag::Equal => ChunkModel::Text(change.1),
        DiffTag::Insert => ChunkModel::Node(
            NodeModel {
                author: wrapped_author(author),
                contents: seq![ChunkModel::Text(change.1)],
                kind: NodeKind::Insertion,
            },
        ),
        DiffTag::Delete => ChunkModel::Node(
            NodeModel {
                author: wrapped_author(author),
                contents: seq![ChunkModel::Text(change.1)],
                kind: NodeKind::Deletion,
            },
        ),
    }
}

/// The root contents built from the first `i` diff steps, one chunk per
/// step, in order; no adjacent steps are merged.
pub open spec fn diff_contents_model(
    changes: Seq<(DiffTag, Seq<char>)>,
    i: int,
    author: Option<Seq<char>>,
) -> Seq<ChunkModel>
    decreases i,
{
    if 0 < i <= changes.len() {
        diff_contents_model(changes, i - 1, author).push(diff_chunk_model(changes[i - 1], author))
    } else {
        Seq::empty()
    }
}

/// The whole tree the diff builder returns: a root whose contents are the
/// chunks of all the diff steps in order.
pub open spec fn diff_tree_model(
    changes: Seq<(DiffTag, Seq<char>)>,
    author: Option<Seq<char>>,
) -> NodeModel {
    NodeModel {
        author: None,
        contents: diff_contents_model(changes, changes.len() as int, author),
        kind: NodeKind::Root,
    }
}

/// The views of a list of diff steps.
pub open spec fn changes_model(cs: Seq<(DiffTag, String)>) -> Seq<(DiffTag, Seq<char>)> {
    cs.map_values(|p: (DiffTag, String)| (p.0, p.1@))
}

/// The view of an optional author.
pub open spec fn author_model(author: Option<String>) -> Option<Seq<char>> {
    match author {
        Some(a) => Some(a@),
        None => None,
    }
}

/// Build a document tree from a word-level diff: a root node with, in
/// order, a text chunk for each shared piece and a one-text-child
/// insertion or deletion node for each changed piece, the author attached
/// uniformly to every constructed node.
pub fn make_node_from_diffs(changes: Vec<(DiffTag, String)>, author: Option<String>) -> (r: Node)
    ensures
        r@ == diff_tree_model(changes_model(changes@), author_model(author)),
{
    let ghost changesm = changes_model(changes@);
    let ghost authorm = author_model(author);
    let author_string: Option<String> = match author {
        Some(a) => {
            let mut w = String::from_str(" ");
            w.append(a.as_str());
            w.append(" ");
            Some(w)
        },
        None => None,
    };
    proof {
        match &author_string {
            Some(w) => {
                assert(wrapped_author(authorm) == Some(w@));
            },
            None => {
                assert(wrapped_author(authorm) is None);
            },
        }
    }
    let mut root = Node::root();
    let mut i: usize = 0;
    proof {
        assert(root@.contents =~= diff_contents_model(changesm, 0, authorm));
    }
    while i < changes.len()
        invariant
            i <= changes.len(),
            changesm == changes_model(changes@),
            changesm.len() == changes@.len(),
            match author_string {
                Some(w) => wrapped_author(authorm) == Some(w@),
                None => wrapped_author(authorm) is None,
            },
            root.kind == NodeKind::Root,
            root.author_string is None,
            root@.contents == diff_contents_model(changesm, i as int, authorm),
        decreases changes.len() - i,
    {
        let ghost contents0 = root.contents@;
        let au: Option<String> = match &author_string {
            Some(w) => Some(w.clone()),
            None => None,
        };
        let chunk: Chunk = match &changes[i] {
            (DiffTag::Equal, text) => Chunk::TextChunk(text.clone()),
            (DiffTag::Insert, text) => {
                let mut inner: Vec<Chunk> = Vec::new();
                inner.push(Chunk::TextChunk(text.clone()));
                Chunk::NodeChunk(
                    Node { kind: NodeKind::Insertion, contents: inner, author_string: au },
                )
            },
            (DiffTag::Delete, text) => {
                let mut inner: Vec<Chunk> = Vec::new();
                inner.push(Chunk::TextChunk(text.clone()));
                Chunk::NodeChunk(
                    Node { kind: NodeKind::Deletion, contents: inner, author_string: au },
                )
            },
        };
        proof {
            match &chunk {
                Chunk::NodeChunk(nd) => {
                    assert(nd@.contents =~= seq![ChunkModel::Text(changesm[i as int].1)]);
                },
                Chunk::TextChunk(_) => {},
            }
            assert(chunk@ == diff_chunk_model(changesm[i as int], authorm));
        }
        root.contents.push(chunk);
        proof {
            lemma_chunks_model_push(contents0, chunk);
        }
        i = i + 1;
    }
    proof {
        assert(root@ == diff_tree_model(changesm, authorm));
    }
    root
}

} // verus!

verus! {

/// The old-side text of a list of diff steps: what the first `i` Equal and
/// Delete steps carry, concatenated in order.
pub open spec fn diff_old_text(changes: Seq<(DiffTag, Seq<char>)>, i: int) -> Seq<char>
    decreases i,
{
    if 0 < i <= changes.len() {
        diff_old_text(changes, i - 1) + (match changes[i - 1].0 {
            DiffTag::Insert => Seq::empty(),
            _ => changes[i - 1].1,
        })
    } else {
        Seq::empty()
    }
}

/// The new-side text of a list of diff steps: what the first `i` Equal and
/// Insert steps carry, concatenated in order.
pub open spec fn diff_new_text(changes: Seq<(DiffTag, Seq<char>)>, i: int) -> Seq<char>
    decreases i,
{
    if 0 < i <= changes.len() {
        diff_new_text(changes, i - 1) + (match changes[i - 1].0 {
            DiffTag::Delete => Seq::empty(),
            _ => changes[i - 1].1,
        })
    } else {
        Seq::empty()
    }
}

/// The word-level diff of two texts, as the Myers algorithm yields it: a
/// function of the two texts alone.
pub uninterp spec fn word_diff(old: Seq<char>, new: Seq<char>) -> Seq<(DiffTag, Seq<char>)>;

/// Relies on `similar::utils::diff_words` (Myers algorithm): the returned
/// steps are slices of the inputs that cover both completely and in order,
/// so the Equal and Delete slices concatenate to `old`, and the Equal and
/// Insert slices concatenate to `new`.
#[verifier::external_body]
fn diff_words_myers(old: &str, new: &str) -> (r: Vec<(DiffTag, String)>)
    ensures
        changes_model(r@) == word_diff(old@, new@),
        diff_old_text(changes_model(r@), r@.len() as int) == old@,
        diff_new_text(changes_model(r@), r@.len() as int) == new@,
{
    similar::utils::diff_words(similar::Algorithm::Myers, old, new)
        .into_iter()
        .map(|(tag, text)| {
            let t = match tag {
                similar::ChangeTag::Equal => DiffTag::Equal,
                similar::ChangeTag::Insert => DiffTag::Insert,
                similar::ChangeTag::Delete => DiffTag::Delete,
            };
            (t, text.to_string())
        })
        .collect()
}

/// Return the difference between two texts in suggestions format: their
/// word-level diff, built into a tree by [`make_node_from_diffs`] and
/// rendered literally.
pub fn make_suggestions_from_diff(contents_old: &str, contents_new: &str, author: Option<String>) -> (r: String)
    ensures
        r@ == node_suggestion(diff_tree_model(word_diff(contents_old@, contents_new@), author_model(author))),
{
    let changes = diff_words_myers(contents_old, contents_new);
    let nd = make_node_from_diffs(changes, author);
    nd.to_string_suggestion()
}

} // verus!
