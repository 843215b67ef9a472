use cerium_framework::ast::{delete_onwards, insert_onwards, relations_match, Tree};
use cerium_framework::ddlog_interface::DeltaEngine;
use cerium_framework::definitions::AstRelation;
use cerium_framework::facts::tree_from_relations;
use cerium_framework::relation_set::RelationSet;

fn name(text: &str) -> String {
    String::from(text)
}

fn call(id: i32, args: Vec<i32>) -> AstRelation {
    AstRelation::FunCall { id, fun_name: name("f"), arg_ids: args }
}

/// A tree of the given nodes, each with the children that its relation names.
fn tree_of(relations: Vec<AstRelation>) -> Tree {
    let mut tree = Tree::new();
    for relation in relations {
        let id = cerium_framework::ast::get_relation_id(&relation);
        let children = relation.child_ids();
        tree.add_node(id, relation).unwrap();
        for child in children {
            tree.link_child(id, child);
        }
    }
    tree
}

#[test]
fn max_id_is_seated_on_a_negative_identity() {
    let mut tree = Tree::new();
    tree.add_node(-5, AstRelation::Int { id: -5 }).unwrap();
    assert_eq!(tree.max_id(), 0);
    tree.add_node(3, AstRelation::Int { id: 3 }).unwrap();
    assert_eq!(tree.max_id(), 3);
    assert_eq!(tree.delete_node(3), Ok(()));
    assert_eq!(tree.max_id(), -5);
    assert_eq!(tree.size(), 1);
    tree.add_node(-7, AstRelation::Int { id: -7 }).unwrap();
    assert_eq!(tree.max_id(), -5);
    assert_eq!(tree.delete_node(-5), Ok(()));
    assert_eq!(tree.max_id(), -7);
    assert_eq!(tree.delete_node(-7), Ok(()));
    assert_eq!(tree.max_id(), 0);
    assert_eq!(tree.size(), 0);
}

#[test]
fn deletion_of_a_node_that_is_not_the_largest_seats_max_id_too() {
    let mut tree = Tree::new();
    tree.add_node(-5, AstRelation::Int { id: -5 }).unwrap();
    tree.add_node(-3, AstRelation::Int { id: -3 }).unwrap();
    assert_eq!(tree.max_id(), 0);
    assert_eq!(tree.delete_node(-5), Ok(()));
    assert_eq!(tree.max_id(), -3);
}

#[test]
fn delete_onwards_leaves_max_id_on_the_largest_identity_left() {
    let tree = tree_of(vec![AstRelation::Int { id: -5 }, AstRelation::Int { id: 3 }]);
    let (deleted, rest) = delete_onwards(3, tree);
    assert_eq!(deleted.len(), 1);
    assert!(deleted.contains(&AstRelation::Int { id: 3 }));
    assert_eq!(rest.max_id(), -5);
    assert_eq!(rest.size(), 1);
}

#[test]
fn delete_onwards_takes_a_bare_call_with_its_argument() {
    let tree = tree_of(vec![
        AstRelation::Int { id: 1 },
        AstRelation::Int { id: 2 },
        call(3, vec![2]),
    ]);
    let (deleted, rest) = delete_onwards(3, tree);
    assert_eq!(deleted.len(), 2);
    assert!(deleted.contains(&call(3, vec![2])));
    assert!(deleted.contains(&AstRelation::Int { id: 2 }));
    assert_eq!(rest.size(), 1);
    assert_eq!(rest.max_id(), 1);
    assert_eq!(rest.get_relation(1), Ok(AstRelation::Int { id: 1 }));
}

#[test]
fn insert_onwards_numbers_a_parent_after_its_children() {
    let mut target = Tree::new();
    target.add_root_node(1, AstRelation::TransUnit { id: 1, body_ids: vec![] }).unwrap();
    let source = tree_of(vec![AstRelation::Int { id: 1 }, call(2, vec![1])]);
    let (inserted, tree, new_id) = insert_onwards(2, target, &source);
    assert_eq!(new_id, 3);
    assert_eq!(inserted.len(), 2);
    assert!(inserted.contains(&AstRelation::Int { id: 2 }));
    assert!(inserted.contains(&call(3, vec![2])));
    assert_eq!(tree.size(), 3);
    assert_eq!(tree.max_id(), 3);
    assert_eq!(tree.get_relation(2), Ok(AstRelation::Int { id: 2 }));
    assert_eq!(tree.get_root(), 1);
}

#[test]
fn insert_onwards_keeps_a_loop_a_loop() {
    let mut target = Tree::new();
    target.add_node(1, AstRelation::Int { id: 1 }).unwrap();
    let source = tree_of(vec![
        AstRelation::Int { id: 1 },
        AstRelation::Int { id: 2 },
        AstRelation::Return { id: 3, expr_id: 2 },
        AstRelation::EndItem { id: 4, stmt_id: 3 },
        AstRelation::Compound { id: 5, start_id: 4 },
        AstRelation::While { id: 6, cond_id: 1, body_id: 5 },
    ]);
    let (inserted, tree, new_id) = insert_onwards(6, target, &source);
    assert_eq!(new_id, 7);
    assert_eq!(inserted.len(), 6);
    assert_eq!(tree.get_relation(7), Ok(AstRelation::While { id: 7, cond_id: 2, body_id: 6 }));
    assert!(inserted.contains(&AstRelation::While { id: 7, cond_id: 2, body_id: 6 }));
    assert!(inserted.contains(&AstRelation::Compound { id: 6, start_id: 5 }));
    assert!(inserted.contains(&AstRelation::EndItem { id: 5, stmt_id: 4 }));
    assert!(inserted.contains(&AstRelation::Return { id: 4, expr_id: 3 }));
    assert!(inserted.contains(&AstRelation::Int { id: 3 }));
    assert!(inserted.contains(&AstRelation::Int { id: 2 }));
    assert_eq!(tree.size(), 7);
}

#[test]
fn insert_onwards_goes_on_above_a_negative_max_id() {
    let mut target = Tree::new();
    target.add_node(-5, AstRelation::Int { id: -5 }).unwrap();
    target.add_node(3, AstRelation::Int { id: 3 }).unwrap();
    target.delete_node(3).unwrap();
    let source = tree_of(vec![AstRelation::Int { id: 1 }, call(2, vec![1])]);
    let (inserted, tree, new_id) = insert_onwards(2, target, &source);
    assert_eq!(new_id, -3);
    assert!(inserted.contains(&AstRelation::Int { id: -4 }));
    assert!(inserted.contains(&call(-3, vec![-4])));
    assert_eq!(tree.max_id(), -3);
}

#[test]
fn calls_with_another_number_of_arguments_do_not_match() {
    let one = tree_of(vec![AstRelation::Int { id: 1 }, call(2, vec![1])]);
    let other = tree_of(vec![
        AstRelation::Int { id: 1 },
        AstRelation::Int { id: 2 },
        call(3, vec![1, 2]),
    ]);
    let ours = one.get_relation(2).unwrap();
    let theirs = other.get_relation(3).unwrap();
    assert!(!relations_match(&ours, &theirs, &one, &other));
    assert!(!relations_match(&theirs, &ours, &other, &one));
    assert!(relations_match(&ours, &ours, &one, &one));
}

#[test]
fn shape_matching_works_on_what_insert_onwards_returns() {
    let source = tree_of(vec![AstRelation::Int { id: 1 }, call(2, vec![1])]);
    let (_, tree, new_id) = insert_onwards(2, Tree::new(), &source);
    let copy = tree.get_relation(new_id).unwrap();
    let original = source.get_relation(2).unwrap();
    assert!(relations_match(&copy, &original, &tree, &source));
}

#[test]
fn relations_that_the_unit_does_not_reach_do_not_count() {
    let mut set = RelationSet::new();
    set.insert(AstRelation::TransUnit { id: 2, body_ids: vec![] });
    set.insert(AstRelation::Int { id: 1 });
    let tree = tree_from_relations(&set).unwrap();
    assert_eq!(tree.size(), 1);
    assert_eq!(tree.get_root(), 2);
    assert!(!tree.contains(1));
    let mut engine = DeltaEngine::new();
    assert!(engine.step(false, &set, &RelationSet::new()));
    // Two unreached relations of one identity take nothing from that either.
    let mut more = RelationSet::new();
    more.insert(AstRelation::Float { id: 1 });
    assert!(engine.step(true, &more, &RelationSet::new()));
    assert_eq!(engine.len(), 3);
    // A second translation unit does.
    let mut second = RelationSet::new();
    second.insert(AstRelation::TransUnit { id: 3, body_ids: vec![] });
    assert!(!engine.step(true, &second, &RelationSet::new()));
    assert!(engine.step(false, &RelationSet::new(), &second));
}

#[test]
fn a_reached_identity_with_two_relations_describes_no_tree() {
    let mut set = RelationSet::new();
    set.insert(AstRelation::TransUnit { id: 9, body_ids: vec![8] });
    set.insert(AstRelation::FunDef {
        id: 8,
        fun_name: name("f"),
        return_type_id: 1,
        arg_ids: vec![],
        body_id: 7,
    });
    set.insert(AstRelation::Compound { id: 7, start_id: 6 });
    set.insert(AstRelation::EndItem { id: 6, stmt_id: 5 });
    set.insert(AstRelation::Return { id: 5, expr_id: 4 });
    set.insert(AstRelation::Int { id: 4 });
    set.insert(AstRelation::Int { id: 1 });
    assert!(tree_from_relations(&set).is_some());
    set.insert(AstRelation::Float { id: 1 });
    assert!(tree_from_relations(&set).is_none());
    let mut engine = DeltaEngine::new();
    assert!(!engine.step(false, &set, &RelationSet::new()));
}
