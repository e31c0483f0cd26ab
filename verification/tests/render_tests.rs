use suggestions::Chunk;
use suggestions::Node;
use suggestions::NodeKind;
use suggestions::make_node_from_string;

fn sample_tree() -> Node {
    let cch = Chunk::TextChunk("This is a comment. ".to_string());
    let insch = Chunk::TextChunk("This is an insertion. ".to_string());
    let startch = Chunk::TextChunk("Main text. ".to_string());
    let endch = Chunk::TextChunk("More main text.".to_string());

    let n = Node {
        contents: vec![cch],
        kind: NodeKind::Comment,
        author_string: Some("@DHJ".to_string()),
    };
    let n2 = Node {
        contents: vec![insch],
        kind: NodeKind::Insertion,
        author_string: None,
    };
    Node {
        contents: vec![startch, Chunk::NodeChunk(n2), Chunk::NodeChunk(n), endch],
        kind: NodeKind::Root,
        author_string: None,
    }
}

#[test]
fn test_can_use_structure() {
    let root_node = sample_tree();
    let s = root_node.to_string_suggestion();
    println!("{:?}", s);
}

#[test]
fn test_to_string_tex() {
    let root_node = sample_tree();
    let s = root_node.to_string_tex();
    println!("{:?}", s);
}

#[test]
fn test_suggestion_rendering_exact() {
    let root_node = sample_tree();
    assert_eq!(
        root_node.to_string_suggestion(),
        "Main text. ++[This is an insertion. ]++%%[This is a comment. @DHJ]%%More main text."
    );
}

#[test]
fn test_accept_reject_exact() {
    let root_node = sample_tree();
    assert_eq!(
        root_node.to_string_accept(),
        "Main text. This is an insertion. More main text."
    );
    assert_eq!(root_node.to_string_reject(), "Main text. More main text.");
}

#[test]
fn test_tex_rendering_exact() {
    let root_node = sample_tree();
    assert_eq!(
        root_node.to_string_tex().unwrap(),
        "Main text. {\\color{blue}This is an insertion. }\\fcolorbox{black}{yellow}{This is a comment. @DHJ}More main text."
    );
}

#[test]
fn test_tex_dependencies_added() {
    let node = make_node_from_string(
        "\\documentclass{article}\n\\begin{document}\nA ++[new]++ text.\n\\end{document}\n"
            .to_string(),
    )
    .unwrap();
    let tex = node.to_string_tex().unwrap();
    assert_eq!(
        tex,
        "\\documentclass{article}\n\n\\usepackage{color}\n\\usepackage{ulem}\n\\begin{document}\nA {\\color{blue}new} text.\n\\end{document}\n"
    );
}

#[test]
fn test_html_rendering_exact() {
    let root_node = sample_tree();
    assert_eq!(
        root_node.to_string_html().unwrap(),
        "Main text. <ins>This is an insertion. </ins><aside>This is a comment.  @DHJ</aside>More main text."
    );
}

#[test]
fn test_comment_invisible_in_both_renderings() {
    let shallow = make_node_from_string("a %%[c]%% b".to_string()).unwrap();
    let deep = make_node_from_string("a %%[much longer comment text]%% b".to_string()).unwrap();
    assert_eq!(shallow.to_string_accept(), deep.to_string_accept());
    assert_eq!(shallow.to_string_reject(), deep.to_string_reject());
    assert_eq!(shallow.to_string_accept(), "a  b");
    assert_eq!(shallow.to_string_reject(), "a  b");
}

#[test]
fn test_round_trip_through_literal_rendering() {
    let text = "Start. ++[add @ann ]++ middle --[drop]-- %%[note @bob ]%% end.";
    let tree = make_node_from_string(text.to_string()).unwrap();
    let literal = tree.to_string_suggestion();
    assert_eq!(literal, text);
    let reparsed = make_node_from_string(literal.clone()).unwrap();
    assert_eq!(reparsed.to_string_accept(), tree.to_string_accept());
    assert_eq!(reparsed.to_string_reject(), tree.to_string_reject());
    assert_eq!(reparsed.to_string_suggestion(), literal);
}

#[test]
fn test_colorize_plain_when_colors_off() {
    colored::control::set_override(false);
    let root_node = sample_tree();
    let colored_out = root_node.to_colored_string();
    assert_eq!(
        format!("{}", colored_out),
        "Main text. This is an insertion. [This is a comment. @DHJ]More main text."
    );
}

#[test]
fn test_author_clean_trims() {
    let n = Node {
        contents: vec![],
        kind: NodeKind::Insertion,
        author_string: Some(" \t@someone \n".to_string()),
    };
    assert_eq!(n.author_clean().as_deref(), Some("@someone"));
    let no_author = Node {
        contents: vec![],
        kind: NodeKind::Insertion,
        author_string: None,
    };
    assert_eq!(no_author.author_clean(), None);
}

#[test]
fn test_opener_closer_tables() {
    assert_eq!(suggestions::opener(&NodeKind::Root), "");
    assert_eq!(suggestions::opener(&NodeKind::Insertion), "++[");
    assert_eq!(suggestions::opener(&NodeKind::Deletion), "--[");
    assert_eq!(suggestions::opener(&NodeKind::Comment), "%%[");
    assert_eq!(suggestions::closer(&NodeKind::Root), "");
    assert_eq!(suggestions::closer(&NodeKind::Insertion), "]++");
    assert_eq!(suggestions::closer(&NodeKind::Deletion), "]--");
    assert_eq!(suggestions::closer(&NodeKind::Comment), "]%%");
}

#[test]
fn test_visit_with_policy_matches_tex() {
    let root_node = sample_tree();
    let via_visit = root_node.to_string_visit(&suggestions::TexPolicy).unwrap();
    // the sample holds no TeX preamble, so the tex rendering adds nothing
    assert_eq!(via_visit, root_node.to_string_tex().unwrap());
}

#[test]
fn test_root_node_is_empty() {
    let r = suggestions::Node::root();
    assert_eq!(r.kind, NodeKind::Root);
    assert!(r.author_string.is_none());
    assert!(r.contents.is_empty());
    assert_eq!(r.to_string_suggestion(), "");
}

#[test]
fn test_colored_pieces_plan() {
    let root_node = sample_tree();
    let pieces = root_node.colored_pieces();
    let expected: Vec<(&str, suggestions::ColorName, bool, bool, bool)> = vec![
        ("Main text. ", suggestions::ColorName::Black, false, true, false),
        ("This is an insertion. ", suggestions::ColorName::Green, false, false, false),
        ("[", suggestions::ColorName::Cyan, false, false, false),
        ("This is a comment. ", suggestions::ColorName::Cyan, false, false, false),
        ("@DHJ", suggestions::ColorName::Cyan, false, false, true),
        ("]", suggestions::ColorName::Cyan, false, false, false),
        ("More main text.", suggestions::ColorName::Black, false, true, false),
    ];
    assert_eq!(pieces.len(), expected.len());
    for (piece, (text, color, strike, cleared, bright)) in pieces.iter().zip(expected.iter()) {
        assert_eq!(piece.text.as_str(), *text);
        assert_eq!(piece.color, *color);
        assert_eq!(piece.strike, *strike);
        assert_eq!(piece.cleared, *cleared);
        assert_eq!(piece.bright, *bright);
    }
}

#[test]
fn test_colored_pieces_strike_whole_deletion_subtree() {
    let tree = make_node_from_string("--[a ++[b]++ c]--".to_string()).unwrap();
    let pieces = tree.colored_pieces();
    assert_eq!(pieces.len(), 3);
    assert_eq!(pieces[0].text.as_str(), "a ");
    assert_eq!(pieces[0].color, suggestions::ColorName::Red);
    assert!(pieces[0].strike);
    assert_eq!(pieces[1].text.as_str(), "b");
    assert_eq!(pieces[1].color, suggestions::ColorName::Green);
    assert!(pieces[1].strike);
    assert_eq!(pieces[2].text.as_str(), " c");
    assert_eq!(pieces[2].color, suggestions::ColorName::Red);
    assert!(pieces[2].strike);
    assert!(pieces.iter().all(|p| !p.cleared && !p.bright));
}

#[test]
fn test_literal_round_trip_of_parsed_tree() {
    // a parsed document without newlines re-serializes to exactly itself
    let text = "a+b ++[x @who ]++ and %%[a note]%% end";
    let tree = make_node_from_string(text.to_string()).unwrap();
    assert_eq!(tree.to_string_suggestion(), text);
}
