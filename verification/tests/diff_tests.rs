use suggestions::DiffTag;
use suggestions::make_node_from_diffs;
use suggestions::make_node_from_string;
use suggestions::make_suggestions_from_diff;

#[test]
fn test_diff() {
    let old = "A sentence.";
    let new = "A new sentence.";
    assert_eq!(
        make_suggestions_from_diff(old, new, None),
        "A ++[new ]++sentence."
    );
    assert_eq!(
        make_suggestions_from_diff(old, new, Some("@author1".to_string())),
        "A ++[new  @author1 ]++sentence."
    );
}

#[test]
fn test_diff_accept_reject_round_trip() {
    let old = "The quick brown fox jumps over the lazy dog.";
    let new = "The slow brown fox walks around the lazy dog.";
    let suggs = make_suggestions_from_diff(old, new, None);
    let tree = make_node_from_string(suggs).unwrap();
    assert_eq!(tree.to_string_accept(), new);
    assert_eq!(tree.to_string_reject(), old);
}

#[test]
fn test_make_node_from_diffs_structure() {
    let changes = vec![
        (DiffTag::Equal, "A ".to_string()),
        (DiffTag::Insert, "new ".to_string()),
        (DiffTag::Delete, "old ".to_string()),
        (DiffTag::Equal, "sentence.".to_string()),
    ];
    let node = make_node_from_diffs(changes, Some("@me".to_string()));
    assert_eq!(
        node.to_string_suggestion(),
        "A ++[new  @me ]++--[old  @me ]--sentence."
    );
    assert_eq!(node.to_string_accept(), "A new sentence.");
    assert_eq!(node.to_string_reject(), "A old sentence.");
}

#[test]
fn test_diff_without_changes() {
    let text = "Nothing changes here.";
    let suggs = make_suggestions_from_diff(text, text, None);
    assert_eq!(suggs, text);
}
