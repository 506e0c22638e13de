use davincibot::idea::IdeaArgs;
use davincibot::tree::IdeaTree;

// The root idea (id 1) gets tags "test1" and "test2"; a child idea without
// tags (id 5, after the three default meta children); and a second child
// (id 6) that overrides the inherited ignore tags with an empty `.ignore`
// child of its own (id 7).
fn test_tree() -> IdeaTree {
    let mut tree = IdeaTree::new();

    tree.clear_tags(1).unwrap();
    tree.add_tags(1, vec!["test1".to_string(), "test2".to_string()]).unwrap();

    let child1 = tree.create_idea(1, "child1".to_string(), None).unwrap();
    assert_eq!(child1, 5);

    let child2 = tree.create_idea(1, "child2".to_string(), None).unwrap();
    assert_eq!(child2, 6);
    let ignore = tree.create_idea(child2, ".ignore".to_string(), None).unwrap();
    assert_eq!(ignore, 7);

    tree
}

#[test]
fn get_tags_without_inheritance() {
    let test_tree = test_tree();
    // Prove that tagging works
    assert_eq!(test_tree.get_tags(1, false).unwrap(), vec!["test1", "test2"]);

    // Prove that children don't inherit tags by default
    let no_tags: Vec<String> = vec![];
    assert_eq!(test_tree.get_tags(5, false).unwrap(), no_tags);
}

#[test]
fn get_tags_with_inheritance() {
    let test_tree = test_tree();
    assert!(test_tree.get_tags(5, true).unwrap().contains(&"test1".to_string()));
}

#[test]
fn meta_tags() {
    let test_tree = test_tree();
    assert_eq!(
        test_tree.get_meta_tags(1, "ignore").unwrap(),
        vec!["done", "hidden", "archived", "paused"]
    );
    assert_eq!(
        test_tree.get_meta_tags(5, "ignore").unwrap(),
        vec!["done", "hidden", "archived", "paused"]
    );
    assert_eq!(test_tree.get_meta_tags(6, "ignore").unwrap(), Vec::<String>::new());
}

#[test]
fn inherited_tags_are_sorted_and_deduplicated() {
    let mut tree = IdeaTree::new();
    tree.clear_tags(1).unwrap();
    tree.add_tags(1, vec!["zeta".to_string(), "alpha".to_string()]).unwrap();
    let child = tree.create_idea(1, "kid".to_string(), None).unwrap();
    tree.add_tags(child, vec!["middle".to_string(), "alpha".to_string()]).unwrap();

    // Own tags keep insertion order and duplicates are tolerated.
    tree.add_tags(child, vec!["middle".to_string()]).unwrap();
    assert_eq!(tree.get_tags(child, false).unwrap(), vec!["middle", "alpha", "middle"]);

    // Inherited tags are the union, sorted, without duplicates.
    assert_eq!(
        tree.get_tags(child, true).unwrap(),
        vec!["alpha", "middle", "zeta"]
    );
}

#[test]
fn meta_idea_shadowing_nearest_ancestor_wins() {
    let mut tree = IdeaTree::new();
    let a = tree.create_idea(1, "A".to_string(), None).unwrap();
    let a_ignore = tree
        .create_idea(
            a,
            ".ignore".to_string(),
            Some(IdeaArgs { description: None, tags: Some(vec!["x".to_string()]) }),
        )
        .unwrap();
    let d = tree.create_idea(a, "D".to_string(), None).unwrap();

    // D has no .ignore child of its own, so A's applies.
    assert_eq!(tree.get_meta_tags(d, "ignore").unwrap(), vec!["x"]);
    let found = tree.get_meta_idea(d, "ignore").unwrap().unwrap();
    assert_eq!(found.id, a_ignore);

    // Once D has its own .ignore child, it shadows A's.
    tree.create_idea(
        d,
        ".ignore".to_string(),
        Some(IdeaArgs { description: None, tags: Some(vec!["y".to_string()]) }),
    )
    .unwrap();
    assert_eq!(tree.get_meta_tags(d, "ignore").unwrap(), vec!["y"]);
}

#[test]
fn remove_and_clear_and_set_tags() {
    let mut tree = IdeaTree::new();
    let id = tree.create_idea(1, "taggy".to_string(), None).unwrap();
    tree.add_tags(id, vec!["a".to_string(), "b".to_string(), "a".to_string()]).unwrap();
    assert_eq!(tree.get_tags(id, false).unwrap(), vec!["a", "b", "a"]);

    // Removing strips every occurrence; absent tags are passed over.
    tree.remove_tags(id, vec!["a".to_string(), "nope".to_string()]).unwrap();
    assert_eq!(tree.get_tags(id, false).unwrap(), vec!["b"]);

    tree.set_tags(id, vec!["z".to_string()]).unwrap();
    assert_eq!(tree.get_tags(id, false).unwrap(), vec!["z"]);

    tree.clear_tags(id).unwrap();
    assert_eq!(tree.get_tags(id, false).unwrap(), Vec::<String>::new());
}
