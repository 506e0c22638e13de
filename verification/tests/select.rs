use davincibot::error::Error;
use davincibot::select::select_from_expression;
use davincibot::tree::IdeaTree;

#[test]
fn example_scenario() {
    // Create two children of the root and address them by visible index
    // and by the parent operator.
    let mut tree = IdeaTree::new();
    let write = tree.create_idea(1, "Write paper".to_string(), None).unwrap();
    let submit = tree.create_idea(1, "Submit paper".to_string(), None).unwrap();
    assert_eq!(submit, write + 1);

    // The meta children are hidden, so the second visible child of the
    // root is the second idea created here.
    assert_eq!(select_from_expression(&tree, 1, "2").unwrap(), submit);
    assert_eq!(select_from_expression(&tree, submit, "^").unwrap(), 1);
}

#[test]
fn root_and_parent_operators() {
    let mut tree = IdeaTree::new();
    let a = tree.create_idea(1, "a".to_string(), None).unwrap();
    let b = tree.create_idea(a, "b".to_string(), None).unwrap();

    assert_eq!(select_from_expression(&tree, b, "@").unwrap(), 1);
    assert_eq!(select_from_expression(&tree, b, "^").unwrap(), a);
    // The root's parent is the root itself.
    assert_eq!(select_from_expression(&tree, 1, "^").unwrap(), 1);
    assert_eq!(select_from_expression(&tree, 99, "^").unwrap_err(), Error::NotFound);
}

#[test]
fn absolute_ids() {
    let tree = IdeaTree::new();
    assert_eq!(select_from_expression(&tree, 1, "#3").unwrap(), 3);
    // Existence is not validated at parse time.
    assert_eq!(select_from_expression(&tree, 1, "#999").unwrap(), 999);
    assert_eq!(select_from_expression(&tree, 1, "#x").unwrap_err(), Error::ParseError);
    assert_eq!(select_from_expression(&tree, 1, "#").unwrap_err(), Error::ParseError);
}

#[test]
fn positive_indices_use_visible_children() {
    let mut tree = IdeaTree::new();
    let a = tree.create_idea(1, "a".to_string(), None).unwrap();
    let b = tree.create_idea(1, "b".to_string(), None).unwrap();
    // A hidden (ignored) child between them does not shift the indices.
    tree.add_tags(a, vec!["done".to_string()]).unwrap();

    assert_eq!(select_from_expression(&tree, 1, "1").unwrap(), b);
    assert_eq!(select_from_expression(&tree, 1, "12x").unwrap_err(), Error::ParseError);
}

#[test]
fn boundary_indices_are_out_of_range() {
    let mut tree = IdeaTree::new();
    tree.create_idea(1, "one".to_string(), None).unwrap();
    tree.create_idea(1, "two".to_string(), None).unwrap();
    // Two visible children: index 0 and index 999 both fail.
    assert_eq!(select_from_expression(&tree, 1, "0").unwrap_err(), Error::OutOfRange);
    assert_eq!(select_from_expression(&tree, 1, "999").unwrap_err(), Error::OutOfRange);
}

#[test]
fn negative_indices_count_from_the_end() {
    let mut tree = IdeaTree::new();
    let a = tree.create_idea(1, "a".to_string(), None).unwrap();
    let b = tree.create_idea(1, "b".to_string(), None).unwrap();
    let c = tree.create_idea(1, "c".to_string(), None).unwrap();

    assert_eq!(select_from_expression(&tree, 1, "-1").unwrap(), c);
    assert_eq!(select_from_expression(&tree, 1, "-2").unwrap(), b);
    assert_eq!(select_from_expression(&tree, 1, "-3").unwrap(), a);
    assert_eq!(select_from_expression(&tree, 1, "-0").unwrap_err(), Error::OutOfRange);
    assert_eq!(select_from_expression(&tree, 1, "-4").unwrap_err(), Error::OutOfRange);
    assert_eq!(select_from_expression(&tree, 1, "-x").unwrap_err(), Error::ParseError);
}

#[test]
fn name_hints_reach_hidden_children() {
    let mut tree = IdeaTree::new();
    let a = tree.create_idea(1, "apple".to_string(), None).unwrap();
    tree.create_idea(1, "apricot".to_string(), None).unwrap();

    // Hints see hidden meta children too.
    assert_eq!(select_from_expression(&tree, 1, "settings").unwrap(), 3);
    assert_eq!(select_from_expression(&tree, 1, "apple").unwrap(), a);
    assert_eq!(select_from_expression(&tree, 1, "ap").unwrap_err(), Error::AmbiguousMatch);
    assert_eq!(select_from_expression(&tree, 1, "pear").unwrap_err(), Error::NoMatch);
}

#[test]
fn selection_round_trip() {
    let mut tree = IdeaTree::new();
    let x = tree.create_idea(1, "x".to_string(), None).unwrap();
    tree.create_idea(1, "y".to_string(), None).unwrap();

    // x is the first visible child of its parent, so "^" then "1" returns.
    let up = select_from_expression(&tree, x, "^").unwrap();
    assert_eq!(select_from_expression(&tree, up, "1").unwrap(), x);
    // The same walk as one expression.
    assert_eq!(select_from_expression(&tree, x, "^/1").unwrap(), x);
}

#[test]
fn signed_absolute_ids_and_trailing_separator() {
    let mut tree = IdeaTree::new();
    let a = tree.create_idea(1, "a".to_string(), None).unwrap();

    // A trailing separator is dropped, not an empty segment.
    assert_eq!(select_from_expression(&tree, 1, "a/").unwrap(), a);
    // Signed absolute ids parse; negative ones simply never exist.
    assert_eq!(select_from_expression(&tree, 1, "#+3").unwrap(), 3);
    assert_eq!(select_from_expression(&tree, 1, "#-3").unwrap(), -3);
    assert!(tree.get_idea(-3).is_err());
}

#[test]
fn multi_segment_expressions() {
    let mut tree = IdeaTree::new();
    let a = tree.create_idea(1, "a".to_string(), None).unwrap();
    let b = tree.create_idea(a, "b".to_string(), None).unwrap();
    let c = tree.create_idea(b, "c".to_string(), None).unwrap();

    assert_eq!(select_from_expression(&tree, 1, "a/b/c").unwrap(), c);
    assert_eq!(select_from_expression(&tree, c, "@/1/1/1").unwrap(), c);
    // An empty expression stays put; a failure ends the walk.
    assert_eq!(select_from_expression(&tree, b, "").unwrap(), b);
    assert_eq!(select_from_expression(&tree, 1, "a/zzz/c").unwrap_err(), Error::NoMatch);
}
