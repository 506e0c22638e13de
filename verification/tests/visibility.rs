use davincibot::command::CommandArgs;
use davincibot::idea::IdeaArgs;
use davincibot::tree::IdeaTree;

#[test]
fn meta_children_never_visible() {
    let mut tree = IdeaTree::new();
    let a = tree.create_idea(1, "a".to_string(), None).unwrap();
    tree.create_idea(a, ".settings".to_string(), None).unwrap();
    let b = tree.create_idea(a, "b".to_string(), None).unwrap();

    // The .settings child stays in the raw list but never shows.
    assert_eq!(tree.get_child_ids(a, true).unwrap().len(), 2);
    assert_eq!(tree.get_child_ids(a, false).unwrap(), vec![b]);

    // The root's own meta children are hidden the same way.
    assert_eq!(tree.get_child_ids(1, false).unwrap(), vec![a]);
}

#[test]
fn ignored_tags_hide_children_but_not_raw_lists() {
    let mut tree = IdeaTree::new();
    let a = tree.create_idea(1, "a".to_string(), None).unwrap();
    let b = tree.create_idea(1, "b".to_string(), None).unwrap();
    // "done" is in the default ignore set inherited from the root.
    tree.add_tags(a, vec!["done".to_string()]).unwrap();

    assert_eq!(tree.get_child_ids(1, false).unwrap(), vec![b]);
    assert!(tree.get_child_ids(1, true).unwrap().contains(&a));

    // The hiding goes by the child's own tags, not inherited ones: a child
    // of the "done"-tagged idea is still visible.
    let under = tree.create_idea(a, "under".to_string(), None).unwrap();
    assert_eq!(tree.get_child_ids(a, false).unwrap(), vec![under]);
}

#[test]
fn own_ignore_child_overrides_inherited_set() {
    let mut tree = IdeaTree::new();
    let a = tree.create_idea(1, "a".to_string(), None).unwrap();
    // An empty .ignore child of a: nothing is ignored below a.
    tree.create_idea(a, ".ignore".to_string(), None).unwrap();
    let kid = tree.create_idea(a, "kid".to_string(), None).unwrap();
    tree.add_tags(kid, vec!["done".to_string()]).unwrap();

    assert_eq!(tree.get_child_ids(a, false).unwrap(), vec![kid]);
}

#[test]
fn org_export_renders_subtree() {
    let mut tree = IdeaTree::new();
    let a = tree
        .create_idea(
            1,
            "Paper".to_string(),
            Some(IdeaArgs { description: Some("draft it".to_string()), tags: None }),
        )
        .unwrap();
    let b = tree.create_idea(a, "Outline".to_string(), None).unwrap();
    tree.add_tags(b, vec!["done".to_string()]).unwrap();

    let text = tree.org_string(a).unwrap();
    assert_eq!(text, "* Paper\n\ndraft it\n\n** DONE Outline\n");
    assert!(tree.org_string(99).is_err());
}

#[test]
fn command_arity_matching() {
    assert!(CommandArgs::Zero.matches(0));
    assert!(!CommandArgs::Zero.matches(1));
    assert!(CommandArgs::Amount(2).matches(2));
    assert!(!CommandArgs::Amount(2).matches(3));
    assert!(CommandArgs::Minimum(1).matches(5));
    assert!(!CommandArgs::Minimum(1).matches(0));
    assert!(CommandArgs::Maximum(2).matches(2));
    assert!(!CommandArgs::Maximum(2).matches(3));
    assert!(CommandArgs::Range { min: 1, max: 2 }.matches(1));
    assert!(CommandArgs::Range { min: 1, max: 2 }.matches(2));
    assert!(!CommandArgs::Range { min: 1, max: 2 }.matches(0));
    assert!(!CommandArgs::Range { min: 1, max: 2 }.matches(3));
    assert!(CommandArgs::VarArgs.matches(7));
}
