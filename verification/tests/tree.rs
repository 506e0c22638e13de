use davincibot::error::Error;
use davincibot::idea::IdeaArgs;
use davincibot::tree::IdeaTree;

#[test]
fn fresh_tree_layout() {
    let tree = IdeaTree::new();
    assert_eq!(tree.idea_count(), 4);
    assert_eq!(tree.get_name(2).unwrap(), ".ignore");
    assert_eq!(tree.get_name(3).unwrap(), ".settings");
    assert_eq!(tree.get_name(4).unwrap(), ".shortcuts");
    assert_eq!(tree.get_parent_id(1).unwrap(), None);
    assert_eq!(tree.get_parent_id(2).unwrap(), Some(1));
    assert_eq!(tree.get_child_ids(1, true).unwrap(), vec![2, 3, 4]);
    assert!(tree.get_description(3).unwrap().contains("max_description: 300"));
}

#[test]
fn create_assigns_sequential_ids() {
    let mut tree = IdeaTree::new();
    assert_eq!(tree.create_idea(1, "first".to_string(), None).unwrap(), 5);
    assert_eq!(tree.create_idea(1, "second".to_string(), None).unwrap(), 6);
    assert_eq!(tree.create_idea(6, "nested".to_string(), None).unwrap(), 7);
    assert_eq!(tree.get_child_ids(1, true).unwrap(), vec![2, 3, 4, 5, 6]);
    assert_eq!(tree.get_child_ids(6, true).unwrap(), vec![7]);
    assert_eq!(tree.get_parent_id(7).unwrap(), Some(6));
}

#[test]
fn create_rejects_duplicates_and_empty_names() {
    let mut tree = IdeaTree::new();
    tree.create_idea(1, "twin".to_string(), None).unwrap();
    assert_eq!(
        tree.create_idea(1, "twin".to_string(), None).unwrap_err(),
        Error::DuplicateName
    );
    assert_eq!(tree.create_idea(1, "   ".to_string(), None).unwrap_err(), Error::EmptyName);
    assert_eq!(tree.create_idea(99, "lost".to_string(), None).unwrap_err(), Error::NotFound);
    // Hidden meta children count for uniqueness too.
    assert_eq!(
        tree.create_idea(1, ".ignore".to_string(), None).unwrap_err(),
        Error::DuplicateName
    );
}

#[test]
fn names_are_stored_trimmed() {
    let mut tree = IdeaTree::new();
    let id = tree.create_idea(1, "  padded  ".to_string(), None).unwrap();
    assert_eq!(tree.get_name(id).unwrap(), "padded");
    tree.set_name(id, &"  shifted\t".to_string()).unwrap();
    assert_eq!(tree.get_name(id).unwrap(), "shifted");
}

#[test]
fn set_name_checks_siblings() {
    let mut tree = IdeaTree::new();
    let a = tree.create_idea(1, "a".to_string(), None).unwrap();
    let b = tree.create_idea(1, "b".to_string(), None).unwrap();
    assert_eq!(tree.set_name(b, &"a".to_string()).unwrap_err(), Error::DuplicateName);
    // Renaming to its own name is allowed.
    tree.set_name(a, &"a".to_string()).unwrap();
    assert_eq!(tree.set_name(a, &" ".to_string()).unwrap_err(), Error::EmptyName);
    assert_eq!(tree.set_name(99, &"x".to_string()).unwrap_err(), Error::NotFound);
    tree.set_name(b, &"c".to_string()).unwrap();
    assert_eq!(tree.get_name(b).unwrap(), "c");
}

#[test]
fn set_parent_moves_and_checks() {
    let mut tree = IdeaTree::new();
    let a = tree.create_idea(1, "a".to_string(), None).unwrap();
    let b = tree.create_idea(1, "b".to_string(), None).unwrap();
    let c = tree.create_idea(a, "c".to_string(), None).unwrap();

    tree.set_parent(c, b).unwrap();
    assert_eq!(tree.get_parent_id(c).unwrap(), Some(b));
    assert_eq!(tree.get_child_ids(a, true).unwrap(), Vec::<i64>::new());
    assert_eq!(tree.get_child_ids(b, true).unwrap(), vec![c]);

    assert_eq!(tree.set_parent(1, a).unwrap_err(), Error::CannotMoveRoot);
    assert_eq!(tree.set_parent(99, a).unwrap_err(), Error::NotFound);
    assert_eq!(tree.set_parent(a, 99).unwrap_err(), Error::NotFound);
    // Moving an idea into its own subtree is refused.
    assert_eq!(tree.set_parent(b, c).unwrap_err(), Error::WouldCreateCycle);
    assert_eq!(tree.set_parent(b, b).unwrap_err(), Error::WouldCreateCycle);
}

#[test]
fn failed_move_changes_nothing() {
    let mut tree = IdeaTree::new();
    let a = tree.create_idea(1, "a".to_string(), None).unwrap();
    let b = tree.create_idea(1, "b".to_string(), None).unwrap();
    let child_a = tree.create_idea(a, "same".to_string(), None).unwrap();
    let child_b = tree.create_idea(b, "same".to_string(), None).unwrap();

    let before_parent = tree.get_parent_id(child_a).unwrap();
    let before_a = tree.get_child_ids(a, true).unwrap();
    let before_b = tree.get_child_ids(b, true).unwrap();

    // The move collides on the name and must leave everything unchanged.
    assert_eq!(tree.set_parent(child_a, b).unwrap_err(), Error::DuplicateName);
    assert_eq!(tree.get_parent_id(child_a).unwrap(), before_parent);
    assert_eq!(tree.get_child_ids(a, true).unwrap(), before_a);
    assert_eq!(tree.get_child_ids(b, true).unwrap(), before_b);
    assert_eq!(tree.get_parent_id(child_b).unwrap(), Some(b));
}

#[test]
fn descriptions_and_presets() {
    let mut tree = IdeaTree::new();
    let id = tree
        .create_idea(
            1,
            "preset".to_string(),
            Some(IdeaArgs {
                description: Some("preset text".to_string()),
                tags: Some(vec!["t1".to_string()]),
            }),
        )
        .unwrap();
    assert_eq!(tree.get_description(id).unwrap(), "preset text");
    assert_eq!(tree.get_tags(id, false).unwrap(), vec!["t1"]);

    tree.set_description(id, &"new text".to_string()).unwrap();
    assert_eq!(tree.get_description(id).unwrap(), "new text");
    assert_eq!(tree.get_description(99).unwrap_err(), Error::NotFound);
}

#[test]
fn get_idea_returns_whole_records() {
    let mut tree = IdeaTree::new();
    let id = tree.create_idea(1, "whole".to_string(), None).unwrap();
    tree.add_tags(id, vec!["x".to_string()]).unwrap();
    let idea = tree.get_idea(id).unwrap();
    assert_eq!(idea.id, id);
    assert_eq!(idea.name, "whole");
    assert_eq!(idea.tags, vec!["x"]);
    assert_eq!(idea.parent_id, Some(1));
    assert!(idea.child_ids.is_empty());
    assert!(tree.get_idea(0).is_err());
}

#[test]
fn name_with_tags_formatting() {
    let mut tree = IdeaTree::new();
    let id = tree.create_idea(1, "task".to_string(), None).unwrap();
    tree.add_tags(id, vec!["done".to_string(), "urgent".to_string()]).unwrap();
    assert_eq!(tree.get_name_with_tags(id).unwrap(), "task [done] [urgent]");
    let idea = tree.get_idea(id).unwrap();
    assert_eq!(idea.format_name_with_tags(), "task [done] [urgent]");
}

#[test]
fn error_on_duplicate_child_reports() {
    let mut tree = IdeaTree::new();
    tree.create_idea(1, "here".to_string(), None).unwrap();
    assert!(tree.error_on_duplicate_child(1, "here".to_string()).is_err());
    assert!(tree.error_on_duplicate_child(1, "elsewhere".to_string()).is_ok());
    assert_eq!(
        tree.error_on_duplicate_child(42, "x".to_string()).unwrap_err(),
        Error::NotFound
    );
}

#[test]
fn records_round_trip() {
    let mut tree = IdeaTree::new();
    let a = tree.create_idea(1, "a".to_string(), None).unwrap();
    tree.add_tags(a, vec!["keep".to_string()]).unwrap();
    tree.create_idea(a, "b".to_string(), None).unwrap();

    let count = tree.idea_count();
    let mut records = Vec::new();
    for id in 1..=count {
        records.push(tree.get_idea(id).unwrap());
    }
    let rebuilt = IdeaTree::from_records(records).unwrap();
    assert_eq!(rebuilt.idea_count(), count);
    assert_eq!(rebuilt.get_tags(a, false).unwrap(), vec!["keep"]);
    assert_eq!(rebuilt.get_child_ids(a, true).unwrap(), tree.get_child_ids(a, true).unwrap());
}

#[test]
fn from_records_rejects_corrupt_stores() {
    // An empty store has no root.
    match IdeaTree::from_records(Vec::new()) {
        Err(e) => assert_eq!(e, Error::StorageIO),
        Ok(_) => panic!("an empty store must be refused"),
    }

    // A store whose child link points nowhere is refused.
    let tree = IdeaTree::new();
    let mut records = Vec::new();
    for id in 1..=tree.idea_count() {
        records.push(tree.get_idea(id).unwrap());
    }
    records[0].child_ids.push(99);
    match IdeaTree::from_records(records) {
        Err(e) => assert_eq!(e, Error::StorageIO),
        Ok(_) => panic!("a dangling child link must be refused"),
    }
}

#[test]
fn search_finds_by_name_description_and_tag() {
    let mut tree = IdeaTree::new();
    let a = tree
        .create_idea(
            1,
            "alpha wolf".to_string(),
            Some(IdeaArgs { description: Some("about nothing".to_string()), tags: None }),
        )
        .unwrap();
    let b = tree
        .create_idea(
            1,
            "beta".to_string(),
            Some(IdeaArgs { description: Some("the wolf howls".to_string()), tags: None }),
        )
        .unwrap();
    let c = tree.create_idea(1, "gamma".to_string(), None).unwrap();
    tree.add_tags(c, vec!["wolfpack".to_string()]).unwrap();

    let hits = tree.search_ideas(&"wolf".to_string()).unwrap();
    let ids: Vec<i64> = hits.iter().map(|i| i.id).collect();
    assert_eq!(ids, vec![a, b, c]);

    assert!(tree.search_ideas(&"no such text".to_string()).unwrap().is_empty());
}
