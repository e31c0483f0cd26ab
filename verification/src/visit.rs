use vstd::prelude::*;

use crate::chars::trim_of;
use crate::diff::author_model;
use crate::node::Chunk;
use crate::node::ChunkModel;
use crate::node::Node;
use crate::node::NodeKind;
use crate::node::NodeModel;
use crate::node::chunk_model;
use crate::node::lemma_chunks_model_from;

verus! {

/// A decoration policy failed on some node; rendering aborts with no
/// partial output.
#[derive(Debug, PartialEq, Eq, Structural)]
pub struct RenderError;

/// A decoration policy: maps a node's kind, together with its trimmed
/// author annotation, to the pair of strings wrapped around that node's
/// rendered contents. Supplying a new policy yields a new output format
/// without touching the traversal.
pub trait DecoratePolicy {
    /// The decoration pair the policy assigns, `None` where it fails.
    spec fn decorate_spec(&self, kind: NodeKind, author: Option<Seq<char>>) -> Option<
        (Seq<char>, Seq<char>),
    >;

    /// Compute the decoration pair for one node.
    fn decorate(&self, kind: NodeKind, author: Option<String>) -> (r: Result<
        (String, String),
        RenderError,
    >)
        ensures
            match r {
                Ok(p) => self.decorate_spec(kind, author_model(author)) == Some((p.0@, p.1@)),
                Err(_) => self.decorate_spec(kind, author_model(author)) is None,
            },
    ;
}

/// The author annotation trimmed of whitespace, when there is one.
pub open spec fn trim_author(a: Option<Seq<char>>) -> Option<Seq<char>> {
    match a {
        Some(t) => Some(trim_of(t)),
        None => None,
    }
}

/// The policy rendering of the first `i` chunks, or `None` if the policy
/// failed anywhere below.
pub open spec fn chunks_visit<P: DecoratePolicy>(cs: Seq<ChunkModel>, i: int, p: P) -> Option<
    Seq<char>,
>
    decreases cs, i,
{
    if 0 < i <= cs.len() {
        match (chunks_visit(cs, i - 1, p), chunk_visit(cs[i - 1], p)) {
            (Some(a), Some(b)) => Some(a + b),
            _ => None,
        }
    } else {
        Some(Seq::empty())
    }
}

/// The policy rendering of one chunk.
pub open spec fn chunk_visit<P: DecoratePolicy>(c: ChunkModel, p: P) -> Option<Seq<char>>
    decreases c, 0int,
{
    match c {
        ChunkModel::Text(t) => Some(t),
        ChunkModel::Node(n) => node_visit(n, p),
    }
}

/// The policy rendering of a node: the policy's opening decoration, the
/// renderings of the contents in order, and the policy's closing
/// decoration; `None` if the policy fails on this node or below.
pub open spec fn node_visit<P: DecoratePolicy>(n: NodeModel, p: P) -> Option<Seq<char>>
    decreases n, 1int,
{
    match p.decorate_spec(n.kind, trim_author(n.author)) {
        Some(oc) => match chunks_visit(n.contents, n.contents.len() as int, p) {
            Some(t) => Some(oc.0 + t + oc.1),
            None => None,
        },
        None => None,
    }
}

proof fn lemma_chunks_visit_none<P: DecoratePolicy>(cs: Seq<ChunkModel>, i: int, j: int, p: P)
    requires
        0 <= j < i <= cs.len(),
        chunk_visit(cs[j], p) is None,
    ensures
        chunks_visit(cs, i, p) is None,
    decreases i,
{
    if j < i - 1 {
        lemma_chunks_visit_none(cs, i - 1, j, p);
    }
}

/// A policy that never fails renders every tree.
pub proof fn lemma_visit_total<P: DecoratePolicy>(n: NodeModel, p: P)
    requires
        forall|k: NodeKind, a: Option<Seq<char>>| p.decorate_spec(k, a) is Some,
    ensures
        node_visit(n, p) is Some,
    decreases n, 1int,
{
    lemma_chunks_visit_total(n.contents, n.contents.len() as int, p);
}

proof fn lemma_chunks_visit_total<P: DecoratePolicy>(cs: Seq<ChunkModel>, i: int, p: P)
    requires
        i <= cs.len(),
        forall|k: NodeKind, a: Option<Seq<char>>| p.decorate_spec(k, a) is Some,
    ensures
        chunks_visit(cs, i, p) is Some,
    decreases cs, i,
{
    if 0 < i <= cs.len() {
        lemma_chunks_visit_total(cs, i - 1, p);
        lemma_chunk_visit_total(cs[i - 1], p);
    }
}

proof fn lemma_chunk_visit_total<P: DecoratePolicy>(c: ChunkModel, p: P)
    requires
        forall|k: NodeKind, a: Option<Seq<char>>| p.decorate_spec(k, a) is Some,
    ensures
        chunk_visit(c, p) is Some,
    decreases c, 0int,
{
    match c {
        ChunkModel::Text(_) => {},
        ChunkModel::Node(n) => {
            lemma_chunks_visit_total(n.contents, n.contents.len() as int, p);
        },
    }
}

impl Node {
    /// Render the tree under a decoration policy: each node's contents,
    /// rendered in order, are wrapped in the decorations the policy assigns
    /// to its kind and author. A policy failure on any node aborts the
    /// render with no partial output.
    pub fn to_string_visit<P: DecoratePolicy>(&self, visitor: &P) -> (r: Result<
        String,
        RenderError,
    >)
        ensures
            match r {
                Ok(out) => node_visit(self@, *visitor) == Some(out@),
                Err(_) => node_visit(self@, *visitor) is None,
            },
        decreases *self, 1int,
    {
        let oc = match visitor.decorate(self.kind, self.author_clean()) {
            Ok(p) => p,
            Err(e) => {
                return Err(e);
            },
        };
        let (mut out, close) = oc;
        let ghost cs = self@.contents;
        let ghost openv = out@;
        proof {
            lemma_chunks_model_from(self.contents@, 0);
        }
        let mut acc = String::new();
        let mut i: usize = 0;
        while i < self.contents.len()
            invariant
                i <= self.contents.len(),
                cs == self@.contents,
                cs.len() == self.contents@.len(),
                forall|j: int| 0 <= j < cs.len() ==> cs[j] == chunk_model(self.contents@[j]),
                chunks_visit(cs, i as int, *visitor) == Some(acc@),
            decreases self.contents.len() - i,
        {
            match &self.contents[i] {
                Chunk::TextChunk(text) => {
                    acc.append(text.as_str());
                },
                Chunk::NodeChunk(node) => {
                    match node.to_string_visit(visitor) {
                        Ok(piece) => {
                            acc.append(piece.as_str());
                        },
                        Err(e) => {
                            proof {
                                lemma_chunks_visit_none(
                                    cs,
                                    cs.len() as int,
                                    i as int,
                                    *visitor,
                                );
                            }
                            return Err(e);
                        },
                    }
                },
            }
            i = i + 1;
        }
        out.append(acc.as_str());
        out.append(close.as_str());
        proof {
            assert(out@ =~= openv + acc@ + close@);
        }
        Ok(out)
    }
}

} // verus!

verus! {

/// The position of the first occurrence of `pat` in `s` at or after `i`.
pub open spec fn find_sub(s: Seq<char>, pat: Seq<char>, i: int) -> Option<int>
    decreases s.len() - i + 1,
{
    if 0 <= i && i + pat.len() <= s.len() {
        if s.subrange(i, i + pat.len()) == pat {
            Some(i)
        } else {
            find_sub(s, pat, i + 1)
        }
    } else {
        None
    }
}

/// `s` with the first occurrence of `pat` (if any) replaced by `repl`.
pub open spec fn replace_first(s: Seq<char>, pat: Seq<char>, repl: Seq<char>) -> Seq<char> {
    match find_sub(s, pat, 0) {
        Some(m) => s.subrange(0, m) + repl + s.subrange(m + pat.len(), s.len() as int),
        None => s,
    }
}

fn replace_first_str(s: &str, pat: &str, repl: &str) -> (r: String)
    ensures
        r@ == replace_first(s@, pat@, repl@),
{
    let n = s.unicode_len();
    let p = pat.unicode_len();
    if p <= n {
        let mut i: usize = 0;
        while i <= n - p
            invariant
                p <= n,
                n == s@.len(),
                p == pat@.len(),
                i <= n - p + 1,
                find_sub(s@, pat@, 0) == find_sub(s@, pat@, i as int),
            decreases n - p - i + 1,
        {
            let mut j: usize = 0;
            while j < p && s.get_char(i + j) == pat.get_char(j)
                invariant
                    p <= n,
                    n == s@.len(),
                    p == pat@.len(),
                    i <= n - p,
                    j <= p,
                    forall|jj: int| 0 <= jj < j ==> s@[i + jj] == pat@[jj],
                decreases p - j,
            {
                j = j + 1;
            }
            if j == p {
                proof {
                    assert(s@.subrange(i as int, i as int + pat@.len()) =~= pat@);
                }
                let mut out = s.substring_char(0, i).to_owned();
                out.append(repl);
                out.append(s.substring_char(i + p, n));
                proof {
                    assert(out@ =~= replace_first(s@, pat@, repl@));
                }
                return out;
            }
            proof {
                assert(s@.subrange(i as int, i as int + pat@.len())[j as int] == s@[i + j]);
                assert(s@.subrange(i as int, i as int + pat@.len()) != pat@);
            }
            i = i + 1;
        }
    }
    s.to_owned()
}

/// The preamble that TeX output needs for its colors and strikeout, spliced
/// in just before `\begin{document}`.
pub open spec fn tex_preamble() -> Seq<char> {
    "\n\\usepackage{color}\n\\usepackage{ulem}\n\\begin{document}"@
}

/// Add the package dependencies that the TeX decorations rely on: the first
/// `\begin{document}` is prefixed with the needed `\usepackage` lines.
fn add_tex_dependencies(tex: String) -> (r: String)
    ensures
        r@ == replace_first(tex@, "\\begin{document}"@, tex_preamble()),
{
    replace_first_str(
        tex.as_str(),
        "\\begin{document}",
        "\n\\usepackage{color}\n\\usepackage{ulem}\n\\begin{document}",
    )
}

/// The decoration policy behind [`Node::to_string_tex`]: TeX color and
/// strikeout commands, with a comment's author inside its box.
pub struct TexPolicy;

impl DecoratePolicy for TexPolicy {
    open spec fn decorate_spec(&self, kind: NodeKind, author: Option<Seq<char>>) -> Option<
        (Seq<char>, Seq<char>),
    > {
        match kind {
            NodeKind::Root => Some((""@, ""@)),
            NodeKind::Insertion => Some((r"{\color{blue}"@, "}"@)),
            NodeKind::Deletion => Some((r"{\color{red}\sout{"@, "}}"@)),
            NodeKind::Comment => Some(
                (r"\fcolorbox{black}{yellow}{"@, crate::node::author_text(author) + "}"@),
            ),
        }
    }

    fn decorate(&self, kind: NodeKind, author: Option<String>) -> (r: Result<
        (String, String),
        RenderError,
    >) {
        match kind {
            NodeKind::Root => Ok((String::from_str(""), String::from_str(""))),
            NodeKind::Insertion => Ok(
                (String::from_str(r"{\color{blue}"), String::from_str("}")),
            ),
            NodeKind::Deletion => Ok(
                (String::from_str(r"{\color{red}\sout{"), String::from_str("}}")),
            ),
            NodeKind::Comment => {
                let ghost am = author_model(author);
                let mut c = match author {
                    Some(a) => a,
                    None => String::new(),
                };
                c.append("}");
                proof {
                    assert(c@ =~= crate::node::author_text(am) + "}"@);
                }
                Ok((String::from_str(r"\fcolorbox{black}{yellow}{"), c))
            },
        }
    }
}

/// The decoration policy behind [`Node::to_string_html`]: `ins`, `del` and
/// `aside` elements, with a comment's author inside its aside.
pub struct HtmlPolicy;

impl DecoratePolicy for HtmlPolicy {
    open spec fn decorate_spec(&self, kind: NodeKind, author: Option<Seq<char>>) -> Option<
        (Seq<char>, Seq<char>),
    > {
        match kind {
            NodeKind::Root => Some((""@, ""@)),
            NodeKind::Insertion => Some(("<ins>"@, "</ins>"@)),
            NodeKind::Deletion => Some(("<del>"@, "</del>"@)),
            NodeKind::Comment => Some(
                ("<aside>"@, " "@ + crate::node::author_text(author) + "</aside>"@),
            ),
        }
    }

    fn decorate(&self, kind: NodeKind, author: Option<String>) -> (r: Result<
        (String, String),
        RenderError,
    >) {
        match kind {
            NodeKind::Root => Ok((String::from_str(""), String::from_str(""))),
            NodeKind::Insertion => Ok((String::from_str("<ins>"), String::from_str("</ins>"))),
            NodeKind::Deletion => Ok((String::from_str("<del>"), String::from_str("</del>"))),
            NodeKind::Comment => {
                let ghost am = author_model(author);
                let mut c = String::from_str(" ");
                if let Some(a) = &author {
                    c.append(a.as_str());
                }
                c.append("</aside>");
                proof {
                    assert(c@ =~= " "@ + crate::node::author_text(am) + "</aside>"@);
                }
                Ok((String::from_str("<aside>"), c))
            },
        }
    }
}

impl Node {
    /// Render the tree as TeX under [`TexPolicy`], with the package
    /// dependencies spliced in before `\begin{document}` when the document
    /// text carries one. This rendering never fails.
    pub fn to_string_tex(&self) -> (r: Result<String, RenderError>)
        ensures
            node_visit(self@, TexPolicy) is Some,
            match r {
                Ok(out) => out@ == replace_first(
                    node_visit(self@, TexPolicy)->Some_0,
                    "\\begin{document}"@,
                    tex_preamble(),
                ),
                Err(_) => false,
            },
    {
        proof {
            assert forall|k: NodeKind, a: Option<Seq<char>>|
                TexPolicy.decorate_spec(k, a) is Some by {
                match k {
                    NodeKind::Root => {},
                    NodeKind::Insertion => {},
                    NodeKind::Deletion => {},
                    NodeKind::Comment => {},
                }
            }
            lemma_visit_total(self@, TexPolicy);
        }
        match self.to_string_visit(&TexPolicy) {
            Ok(tex) => Ok(add_tex_dependencies(tex)),
            Err(e) => Err(e),
        }
    }

    /// Render the tree as HTML under [`HtmlPolicy`]. This rendering never
    /// fails.
    pub fn to_string_html(&self) -> (r: Result<String, RenderError>)
        ensures
            node_visit(self@, HtmlPolicy) is Some,
            match r {
                Ok(out) => Some(out@) == node_visit(self@, HtmlPolicy),
                Err(_) => false,
            },
    {
        proof {
            assert forall|k: NodeKind, a: Option<Seq<char>>|
                HtmlPolicy.decorate_spec(k, a) is Some by {
                match k {
                    NodeKind::Root => {},
                    NodeKind::Insertion => {},
                    NodeKind::Deletion => {},
                    NodeKind::Comment => {},
                }
            }
            lemma_visit_total(self@, HtmlPolicy);
        }
        self.to_string_visit(&HtmlPolicy)
    }
}

} // verus!
