use vstd::prelude::*;

use crate::node::Chunk;
use crate::node::ChunkModel;
use crate::node::Node;
use crate::node::NodeKind;
use crate::node::NodeModel;
use crate::node::author_text;
use crate::node::chunk_model;
use crate::node::lemma_chunks_model_from;

verus! {

/// A color of the terminal rendering.
#[derive(Clone, Copy, PartialEq, Eq, Structural, Debug)]
pub enum ColorName {
    Cyan,
    Green,
    Red,
    Black,
}

/// One piece of the colorized rendering: a text together with the
/// decoration it is handed to the color library with. `bright` marks the
/// highlighted author of a comment; `strike` everything under a deletion;
/// `cleared` the top-level text, which prints undecorated.
pub struct ColorPiece {
    pub text: String,
    pub color: ColorName,
    pub strike: bool,
    pub cleared: bool,
    pub bright: bool,
}

/// The mathematical value of a [`ColorPiece`].
pub ghost struct ColorPieceModel {
    pub text: Seq<char>,
    pub color: ColorName,
    pub strike: bool,
    pub cleared: bool,
    pub bright: bool,
}

impl View for ColorPiece {
    type V = ColorPieceModel;

    open spec fn view(&self) -> ColorPieceModel {
        ColorPieceModel {
            text: self.text@,
            color: self.color,
            strike: self.strike,
            cleared: self.cleared,
            bright: self.bright,
        }
    }
}

/// The models of a list of pieces.
pub open spec fn pieces_view(ps: Seq<ColorPiece>) -> Seq<ColorPieceModel> {
    ps.map_values(|p: ColorPiece| p@)
}

/// The color each node kind gives the text directly inside it. The root's
/// black is cleared again below, so top-level text stays plain.
pub open spec fn kind_color(k: NodeKind) -> ColorName {
    match k {
        NodeKind::Comment => ColorName::Cyan,
        NodeKind::Insertion => ColorName::Green,
        NodeKind::Deletion => ColorName::Red,
        NodeKind::Root => ColorName::Black,
    }
}

/// The piece a text chunk becomes, directly inside a node of kind `k`.
pub open spec fn text_piece(t: Seq<char>, k: NodeKind) -> ColorPieceModel {
    ColorPieceModel {
        text: t,
        color: kind_color(k),
        strike: k == NodeKind::Deletion,
        cleared: k == NodeKind::Root,
        bright: false,
    }
}

/// A piece with the strikethrough added, as for everything under a deletion.
pub open spec fn struck(p: ColorPieceModel) -> ColorPieceModel {
    ColorPieceModel {
        text: p.text,
        color: p.color,
        strike: true,
        cleared: p.cleared,
        bright: p.bright,
    }
}

/// All pieces struck through.
pub open spec fn strike_all(ps: Seq<ColorPieceModel>) -> Seq<ColorPieceModel> {
    ps.map_values(|p: ColorPieceModel| struck(p))
}

/// A comment's literal bracket, in the comment's color.
pub open spec fn bracket_piece(t: Seq<char>) -> ColorPieceModel {
    ColorPieceModel {
        text: t,
        color: ColorName::Cyan,
        strike: false,
        cleared: false,
        bright: false,
    }
}

/// A comment's author annotation, highlighted.
pub open spec fn author_piece(t: Seq<char>) -> ColorPieceModel {
    ColorPieceModel { text: t, color: ColorName::Cyan, strike: false, cleared: false, bright: true }
}

/// The pieces one chunk contributes inside a node of kind `k`: its text in
/// the node's color, or a child node's own pieces — struck through when the
/// node is a deletion.
pub open spec fn chunk_color_pieces(c: ChunkModel, k: NodeKind) -> Seq<ColorPieceModel>
    decreases c, 0int,
{
    match c {
        ChunkModel::Text(t) => seq![text_piece(t, k)],
        ChunkModel::Node(n) => if k == NodeKind::Deletion {
            strike_all(node_color_pieces(n))
        } else {
            node_color_pieces(n)
        },
    }
}

/// The pieces of the first `i` chunks, concatenated in reading order.
pub open spec fn chunks_color_pieces(cs: Seq<ChunkModel>, i: int, k: NodeKind) -> Seq<
    ColorPieceModel,
>
    decreases cs, i,
{
    if 0 < i <= cs.len() {
        chunks_color_pieces(cs, i - 1, k) + chunk_color_pieces(cs[i - 1], k)
    } else {
        Seq::empty()
    }
}

/// The colorize plan of a node, in reading order: every text carries the
/// color of its enclosing node's kind (comment cyan, insertion green,
/// deletion red); everything under a deletion is struck through; top-level
/// text is cleared so it prints plain; and a comment is framed in literal
/// brackets with its author highlighted before the closing bracket.
pub open spec fn node_color_pieces(n: NodeModel) -> Seq<ColorPieceModel>
    decreases n, 1int,
{
    let base = chunks_color_pieces(n.contents, n.contents.len() as int, n.kind);
    if n.kind == NodeKind::Comment {
        seq![bracket_piece("["@)] + base + seq![author_piece(author_text(n.author))] + seq![
            bracket_piece("]"@),
        ]
    } else {
        base
    }
}

impl Node {
    /// The pieces the colorized rendering is built from, in reading order:
    /// exactly [`node_color_pieces`] of the tree.
    pub fn colored_pieces(&self) -> (r: Vec<ColorPiece>)
        ensures
            pieces_view(r@) == node_color_pieces(self@),
        decreases *self, 1int,
    {
        let ghost cs = self@.contents;
        proof {
            lemma_chunks_model_from(self.contents@, 0);
        }
        let mut out: Vec<ColorPiece> = Vec::new();
        proof {
            assert(pieces_view(out@) =~= chunks_color_pieces(cs, 0, self@.kind));
        }
        let mut i: usize = 0;
        while i < self.contents.len()
            invariant
                i <= self.contents.len(),
                cs == self@.contents,
                cs.len() == self.contents@.len(),
                forall|j: int| 0 <= j < cs.len() ==> cs[j] == chunk_model(self.contents@[j]),
                pieces_view(out@) == chunks_color_pieces(cs, i as int, self@.kind),
            decreases self.contents.len() - i,
        {
            let ghost out0 = out@;
            match &self.contents[i] {
                Chunk::TextChunk(text) => {
                    let piece = ColorPiece {
                        text: text.clone(),
                        color: match self.kind {
                            NodeKind::Comment => ColorName::Cyan,
                            NodeKind::Insertion => ColorName::Green,
                            NodeKind::Deletion => ColorName::Red,
                            NodeKind::Root => ColorName::Black,
                        },
                        strike: self.kind == NodeKind::Deletion,
                        cleared: self.kind == NodeKind::Root,
                        bright: false,
                    };
                    proof {
                        assert(piece@ == text_piece(text@, self@.kind));
                    }
                    out.push(piece);
                    proof {
                        assert(cs[i as int] == ChunkModel::Text(text@));
                        assert(pieces_view(out@) =~= pieces_view(out0).push(piece@));
                        assert(chunk_color_pieces(cs[i as int], self@.kind) =~= seq![
                            text_piece(text@, self@.kind),
                        ]);
                        assert(pieces_view(out@) =~= chunks_color_pieces(
                            cs,
                            i + 1,
                            self@.kind,
                        ));
                    }
                },
                Chunk::NodeChunk(node) => {
                    let mut ps = node.colored_pieces();
                    if self.kind == NodeKind::Deletion {
                        let ghost ps0 = pieces_view(ps@);
                        let mut j: usize = 0;
                        while j < ps.len()
                            invariant
                                j <= ps.len(),
                                ps@.len() == ps0.len(),
                                forall|x: int| 0 <= x < j ==> (#[trigger] ps@[x])@ == struck(ps0[x]),
                                forall|x: int| j <= x < ps@.len() ==> (#[trigger] ps@[x])@ == ps0[x],
                            decreases ps.len() - j,
                        {
                            ps[j].strike = true;
                            j = j + 1;
                        }
                        proof {
                            assert(pieces_view(ps@) =~= strike_all(ps0));
                        }
                    }
                    proof {
                        assert(pieces_view(ps@) == chunk_color_pieces(cs[i as int], self@.kind));
                    }
                    let ghost psm = pieces_view(ps@);
                    out.append(&mut ps);
                    proof {
                        assert(pieces_view(out@) =~= pieces_view(out0) + psm);
                        assert(pieces_view(out@) =~= chunks_color_pieces(
                            cs,
                            i + 1,
                            self@.kind,
                        ));
                    }
                },
            }
            i = i + 1;
        }
        if self.kind == NodeKind::Comment {
            let author: String = match &self.author_string {
                Some(a) => a.clone(),
                None => String::new(),
            };
            proof {
                assert(author@ == author_text(self@.author));
            }
            let ghost inner = pieces_view(out@);
            let mut framed: Vec<ColorPiece> = Vec::new();
            framed.push(
                ColorPiece {
                    text: String::from_str("["),
                    color: ColorName::Cyan,
                    strike: false,
                    cleared: false,
                    bright: false,
                },
            );
            framed.append(&mut out);
            framed.push(
                ColorPiece {
                    text: author,
                    color: ColorName::Cyan,
                    strike: false,
                    cleared: false,
                    bright: true,
                },
            );
            framed.push(
                ColorPiece {
                    text: String::from_str("]"),
                    color: ColorName::Cyan,
                    strike: false,
                    cleared: false,
                    bright: false,
                },
            );
            proof {
                assert(pieces_view(framed@) =~= node_color_pieces(self@));
            }
            framed
        } else {
            proof {
                assert(pieces_view(out@) =~= node_color_pieces(self@));
            }
            out
        }
    }
}

} // verus!

verus! {

// `colored::ColoredString` carries text together with the color and style it
// will be printed with. What its `Display` impl emits depends on the
// terminal and environment (colors can be globally disabled), so nothing is
// stated of rendered output: which texts are rendered, with which
// decorations and in which order, is fixed by [`Node::colored_pieces`], and
// these wrappers only carry the calls.
#[verifier::external_type_specification]
#[verifier::external_body]
pub struct ExColoredString(colored::ColoredString);

/// Relies on `colored::Colorize::color`: gives the text the named foreground
/// color (an unknown name falls back to white; no failure path).
#[verifier::external_body]
fn cs_from_text(text: &str, color: &str) -> colored::ColoredString {
    colored::Colorize::color(text, color)
}

/// Relies on `colored::Colorize::clear`: drops any color and style.
#[verifier::external_body]
fn cs_clear(cs: colored::ColoredString) -> colored::ColoredString {
    colored::Colorize::clear(cs)
}

/// Relies on `colored::Colorize::strikethrough`: adds the strikethrough
/// style.
#[verifier::external_body]
fn cs_strikethrough(cs: colored::ColoredString) -> colored::ColoredString {
    colored::Colorize::strikethrough(cs)
}

/// Relies on `colored::Colorize::bright_cyan`: gives the text a bright cyan
/// foreground color.
#[verifier::external_body]
fn cs_bright_cyan(text: &str) -> colored::ColoredString {
    colored::Colorize::bright_cyan(text)
}

/// Relies on `colored::ColoredString`'s `Display` impl: renders the text
/// with its escape sequences, honoring the environment's color settings.
#[verifier::external_body]
fn cs_render(cs: &colored::ColoredString) -> String {
    format!("{}", cs)
}

/// Relies on `From<String> for colored::ColoredString`: wraps the text with
/// no color or style.
#[verifier::external_body]
fn cs_from_string(s: String) -> colored::ColoredString {
    s.into()
}

/// The decorated string one piece is rendered as: its text in its color
/// (bright cyan for a highlighted piece), struck through or cleared as the
/// piece says.
fn render_piece(p: &ColorPiece) -> colored::ColoredString {
    let mut cs = if p.bright {
        cs_bright_cyan(p.text.as_str())
    } else {
        let name: &str = match p.color {
            ColorName::Cyan => "cyan",
            ColorName::Green => "green",
            ColorName::Red => "red",
            ColorName::Black => "black",
        };
        cs_from_text(p.text.as_str(), name)
    };
    if p.strike {
        cs = cs_strikethrough(cs);
    }
    if p.cleared {
        cs = cs_clear(cs);
    }
    cs
}

impl Node {
    /// Render the tree for a terminal: exactly the pieces of
    /// [`Node::colored_pieces`], rendered in order and concatenated —
    /// insertions green, deletions red and struck through, comments cyan in
    /// literal brackets with the author highlighted, top-level text
    /// undecorated. Whether the escape sequences are actually emitted
    /// depends on the terminal and environment, so nothing more is stated
    /// of the returned string.
    pub fn to_colored_string(&self) -> colored::ColoredString {
        let pieces = self.colored_pieces();
        let mut out = String::new();
        let mut j: usize = 0;
        while j < pieces.len()
            invariant
                j <= pieces.len(),
            decreases pieces.len() - j,
        {
            let rendered = cs_render(&render_piece(&pieces[j]));
            out.append(rendered.as_str());
            j = j + 1;
        }
        cs_from_string(out)
    }
}

} // verus!
