use suggestions::Chunk;
use suggestions::Node;
use suggestions::NodeKind;
use suggestions::ParseError;
use suggestions::make_node_from_string;

fn parse(text: &str) -> Result<Node, ParseError> {
    make_node_from_string(text.to_string())
}

#[test]
fn test_make_node_basic() {
    let txt = r"
        Original text.
        ++[An addition.]++
        More text.
        --[Deleted text.]--
        %%[A comment.]%%
        "
    .to_string();
    make_node_from_string(txt).unwrap();
}

#[test]
fn test_make_node_signed() {
    let txt = r"
        Original text.
        ++[An addition. @author1]++
        More text.
        --[Deleted text. @author2 ]--
        %%[A comment. @author3]%%
        "
    .to_string();
    make_node_from_string(txt).unwrap();
}

#[test]
fn test_make_node_nested() {
    let txt = r"
        Original text.
        ++[An addition. ++[A nested addition.]++ More of that addition.]++
        More text.
        ++[An addition. --[Nested deletion.]-- More of that addition.]++
        "
    .to_string();
    make_node_from_string(txt).unwrap();
}

#[test]
fn test_wrong() {
    // a tag nested inside a comment region
    let nested_comment = "Text. %%[A comment. ++[Not allowed.]++ More comment.]%% More text.";
    let err = parse(nested_comment).unwrap_err();
    assert!(err.message().to_ascii_lowercase().contains("comment"));

    // a closer that does not match the open region
    let unmatched_closer = "Text. ++[An addition.]-- More text.";
    let err = parse(unmatched_closer).unwrap_err();
    assert!(err.message().to_ascii_lowercase().contains("unmatched"));

    // input that ends while a region is still open
    let unmatched_opener = "Text. ++[An addition that never ends.";
    let err = parse(unmatched_opener).unwrap_err();
    assert!(err.message().to_ascii_lowercase().contains("unmatched"));
}

#[test]
fn test_unmatched_closer_fields() {
    match parse("++[abc]--") {
        Err(ParseError::UnmatchedCloser { seen, expected }) => {
            assert_eq!(seen, "]--");
            assert_eq!(expected, "]++");
        },
        other => panic!("expected UnmatchedCloser, got {:?}", other),
    }
}

#[test]
fn test_unterminated_tag() {
    assert_eq!(parse("++[abc").unwrap_err(), ParseError::UnterminatedTag);
}

#[test]
fn test_empty_input() {
    assert_eq!(parse("").unwrap_err(), ParseError::EmptyInput);
}

#[test]
fn test_comment_nesting_error() {
    assert_eq!(
        parse("%%[a ++[x]++ b]%%").unwrap_err(),
        ParseError::CommentNesting
    );
    // a deletion nested in a comment is rejected the same way
    assert_eq!(
        parse("%%[a --[x]-- b]%%").unwrap_err(),
        ParseError::CommentNesting
    );
}

#[test]
fn test_parse_structure() {
    let node = parse("Main text. ++[An insertion.]++ More.").unwrap();
    assert_eq!(node.kind, NodeKind::Root);
    assert_eq!(node.contents.len(), 3);
    match &node.contents[0] {
        Chunk::TextChunk(t) => assert_eq!(t.as_str(), "Main text. "),
        _ => panic!("expected text"),
    }
    match &node.contents[1] {
        Chunk::NodeChunk(n) => {
            assert_eq!(n.kind, NodeKind::Insertion);
            assert_eq!(n.contents.len(), 1);
            assert!(n.author_string.is_none());
        },
        _ => panic!("expected node"),
    }
    match &node.contents[2] {
        Chunk::TextChunk(t) => assert_eq!(t.as_str(), " More."),
        _ => panic!("expected text"),
    }
}

#[test]
fn test_author_attached_to_closer() {
    let node = parse("++[change @jane ]++rest").unwrap();
    match &node.contents[0] {
        Chunk::NodeChunk(n) => {
            assert_eq!(n.author_string.as_deref(), Some(" @jane "));
            assert_eq!(n.author_clean().as_deref(), Some("@jane"));
            match &n.contents[0] {
                Chunk::TextChunk(t) => assert_eq!(t.as_str(), "change"),
                _ => panic!("expected text"),
            }
        },
        _ => panic!("expected node"),
    }
}

#[test]
fn test_author_elsewhere_folds_into_text() {
    // an author-shaped run before an opener is plain text, not an annotation
    let node = parse("a @x ++[b]++").unwrap();
    match &node.contents[0] {
        Chunk::TextChunk(t) => assert_eq!(t.as_str(), "a @x "),
        _ => panic!("expected text"),
    }
    assert_eq!(node.to_string_accept(), "a @x b");
}

#[test]
fn test_newline_stripped_after_tag_on_own_line() {
    let node = parse("xxx\n++[\nblah\n]++\nxxx").unwrap();
    assert_eq!(node.to_string_accept(), "xxx\nblah\nxxx");
    assert_eq!(node.to_string_reject(), "xxx\nxxx");
}

#[test]
fn test_closer_with_nothing_open() {
    match parse("abc]++def") {
        Err(ParseError::UnmatchedCloser { seen, expected }) => {
            assert_eq!(seen, "]++");
            assert_eq!(expected, "");
        },
        other => panic!("expected UnmatchedCloser, got {:?}", other),
    }
}

#[test]
fn test_author_at_end_of_input_folds_into_text() {
    let node = parse("abc @x").unwrap();
    assert_eq!(node.contents.len(), 1);
    match &node.contents[0] {
        Chunk::TextChunk(t) => assert_eq!(t.as_str(), "abc @x"),
        _ => panic!("expected text"),
    }
}

#[test]
fn test_error_messages() {
    assert_eq!(
        parse("++[abc]--").unwrap_err().message(),
        "Unmatched closing tag ']--', I was expecting ']++'."
    );
    assert_eq!(
        parse("%%[a ++[x]++ b]%%").unwrap_err().message(),
        "Comments cannot contain other tags."
    );
    assert_eq!(
        parse("").unwrap_err().message(),
        "Couldn't parse text, was it empty?"
    );
}

#[test]
fn test_misplaced_author_warnings() {
    let (result, warnings) =
        suggestions::make_node_from_string_with_warnings("a @x ++[b]++ c @y".to_string());
    let node = result.unwrap();
    assert_eq!(node.to_string_suggestion(), "a @x ++[b]++ c @y");
    assert_eq!(warnings, vec![" @x ".to_string(), " @y".to_string()]);
}

#[test]
fn test_no_warnings_for_attached_author() {
    let (result, warnings) =
        suggestions::make_node_from_string_with_warnings("++[change @jane ]++rest".to_string());
    result.unwrap();
    assert!(warnings.is_empty());
}
