use cerium_framework::ast::{
    delete_onwards, get_initial_relation_set, get_relation_id, insert_onwards, relations_match,
    Tree,
};
use cerium_framework::definitions::{AstRelation, InternalError, RelationKind};
use cerium_framework::parse_into_relation_tree;
use cerium_framework::parser_interface::AstBuilder;
use cerium_framework::relation_set::RelationSet;
use cerium_framework::syntax::{
    BinaryOperator, Constant, Expression, FunctionDefinition, Statement, TranslationUnit,
    TypeSpecifier,
};

fn name(text: &str) -> String {
    String::from(text)
}

#[test]
fn new_tree_is_empty() {
    let tree = Tree::new();
    assert_eq!(tree.size(), 0);
    assert_eq!(tree.max_id(), 0);
    assert_eq!(tree.get_root(), 0);
    assert!(!tree.contains(0));
    assert!(get_initial_relation_set(&tree).is_empty());
}

#[test]
fn add_node_takes_a_free_identity_only() {
    let mut tree = Tree::new();
    assert_eq!(tree.add_node(3, AstRelation::Int { id: 3 }), Ok(()));
    assert_eq!(tree.max_id(), 3);
    assert_eq!(tree.add_node(2, AstRelation::Float { id: 2 }), Ok(()));
    assert_eq!(tree.max_id(), 3);
    assert_eq!(tree.size(), 2);
    assert_eq!(tree.add_node(3, AstRelation::Char { id: 3 }), Err(InternalError::InvariantViolation));
    assert_eq!(tree.add_node(4, AstRelation::Char { id: 5 }), Err(InternalError::InvariantViolation));
    assert_eq!(tree.size(), 2);
    assert_eq!(tree.get_relation(3), Ok(AstRelation::Int { id: 3 }));
    assert_eq!(tree.get_root(), 0);
}

#[test]
fn add_root_node_sets_the_root() {
    let mut tree = Tree::new();
    assert_eq!(tree.add_root_node(7, AstRelation::TransUnit { id: 7, body_ids: vec![] }), Ok(()));
    assert_eq!(tree.get_root(), 7);
    assert_eq!(tree.max_id(), 7);
    assert_eq!(
        tree.add_root_node(7, AstRelation::TransUnit { id: 7, body_ids: vec![] }),
        Err(InternalError::InvariantViolation)
    );
    assert_eq!(tree.add_root_node(8, AstRelation::Int { id: 9 }), Err(InternalError::InvariantViolation));
    assert_eq!(tree.get_root(), 7);
}

#[test]
fn absent_node_is_an_error() {
    let mut tree = Tree::new();
    tree.add_node(1, AstRelation::Int { id: 1 }).unwrap();
    assert_eq!(tree.get_relation(2), Err(InternalError::InvariantViolation));
    assert!(matches!(tree.get_node(2), Err(InternalError::InvariantViolation)));
    assert!(tree.get_node(1).is_ok());
    assert_eq!(tree.link_child(1, 2), Err(InternalError::InvariantViolation));
    assert_eq!(tree.link_child(2, 1), Err(InternalError::InvariantViolation));
    assert_eq!(tree.replace_children(2, vec![]), Err(InternalError::InvariantViolation));
    assert_eq!(tree.update_relation(2, AstRelation::Int { id: 2 }), Err(InternalError::InvariantViolation));
    assert_eq!(tree.update_relation(1, AstRelation::Int { id: 2 }), Err(InternalError::InvariantViolation));
    assert_eq!(tree.delete_node(2), Err(InternalError::InvariantViolation));
    assert_eq!(tree.size(), 1);
}

#[test]
fn children_are_linked_and_replaced() {
    let mut tree = Tree::new();
    tree.add_node(1, AstRelation::Int { id: 1 }).unwrap();
    tree.add_node(2, AstRelation::Int { id: 2 }).unwrap();
    tree.add_node(3, AstRelation::BinaryOp { id: 3, arg1_id: 1, arg2_id: 2 }).unwrap();
    tree.add_root_node(4, AstRelation::TransUnit { id: 4, body_ids: vec![] }).unwrap();
    assert_eq!(tree.link_child(3, 1), Ok(()));
    assert_eq!(tree.link_child(3, 2), Ok(()));
    let lines = format!("{:?}", tree.get_node(3).unwrap());
    assert!(lines.contains("children: [1, 2]"));
    assert_eq!(tree.replace_children(3, vec![2]), Ok(()));
    let lines = format!("{:?}", tree.get_node(3).unwrap());
    assert!(lines.contains("children: [2]"));
}

#[test]
fn update_relation_keeps_the_children() {
    let mut tree = Tree::new();
    tree.add_node(1, AstRelation::Int { id: 1 }).unwrap();
    tree.add_node(2, AstRelation::Return { id: 2, expr_id: 1 }).unwrap();
    tree.link_child(2, 1).unwrap();
    assert_eq!(tree.update_relation(1, AstRelation::Float { id: 1 }), Ok(()));
    assert_eq!(tree.get_relation(1), Ok(AstRelation::Float { id: 1 }));
    assert_eq!(tree.update_relation(2, AstRelation::EndItem { id: 2, stmt_id: 1 }), Ok(()));
    assert!(format!("{:?}", tree.get_node(2).unwrap()).contains("children: [1]"));
    assert_eq!(tree.max_id(), 2);
}

#[test]
fn delete_node_seats_max_id_again() {
    let mut tree = Tree::new();
    for id in [1, 2, 5] {
        tree.add_node(id, AstRelation::Int { id }).unwrap();
    }
    assert_eq!(tree.max_id(), 5);
    assert_eq!(tree.delete_node(1), Ok(()));
    assert_eq!(tree.max_id(), 5);
    assert_eq!(tree.delete_node(5), Ok(()));
    assert_eq!(tree.max_id(), 2);
    assert_eq!(tree.size(), 1);
    assert_eq!(tree.delete_node(2), Ok(()));
    assert_eq!(tree.max_id(), 0);
    assert_eq!(tree.size(), 0);
}

#[test]
fn identities_below_one_do_not_raise_max_id() {
    let mut tree = Tree::new();
    tree.add_node(-4, AstRelation::Int { id: -4 }).unwrap();
    tree.add_node(0, AstRelation::Int { id: 0 }).unwrap();
    assert_eq!(tree.max_id(), 0);
    tree.add_node(3, AstRelation::Int { id: 3 }).unwrap();
    tree.delete_node(3).unwrap();
    assert_eq!(tree.max_id(), 0);
    assert_eq!(tree.size(), 2);
}

#[test]
fn clone_is_a_tree_of_its_own() {
    let mut tree = Tree::new();
    tree.add_node(1, AstRelation::Int { id: 1 }).unwrap();
    let copy = tree.clone();
    tree.delete_node(1).unwrap();
    assert_eq!(copy.size(), 1);
    assert_eq!(copy.get_relation(1), Ok(AstRelation::Int { id: 1 }));
}

fn number() -> Expression {
    Expression::Constant(Constant::Integer)
}

// int main(){ int x = 1; return x; }
fn simple_main() -> TranslationUnit {
    TranslationUnit {
        functions: vec![FunctionDefinition {
            specifier: TypeSpecifier::Int,
            name: name("main"),
            parameters: vec![],
            body: vec![
                Statement::Declaration(TypeSpecifier::Int, name("x"), number()),
                Statement::Return(Expression::Identifier(name("x"))),
            ],
        }],
    }
}

fn relations_of_simple_main() -> Vec<AstRelation> {
    vec![
        AstRelation::Int { id: 1 },
        AstRelation::Int { id: 2 },
        AstRelation::Int { id: 3 },
        AstRelation::Assign { id: 4, var_name: name("x"), type_id: 2, expr_id: 3 },
        AstRelation::Var { id: 5, var_name: name("x") },
        AstRelation::Return { id: 6, expr_id: 5 },
        AstRelation::EndItem { id: 7, stmt_id: 6 },
        AstRelation::Item { id: 8, stmt_id: 4, next_stmt_id: 7 },
        AstRelation::Compound { id: 9, start_id: 8 },
        AstRelation::FunDef {
            id: 10,
            fun_name: name("main"),
            return_type_id: 1,
            arg_ids: vec![],
            body_id: 9,
        },
        AstRelation::TransUnit { id: 11, body_ids: vec![10] },
    ]
}

#[test]
fn builder_gives_identities_from_the_leaves_up() {
    let tree = parse_into_relation_tree(&simple_main()).unwrap();
    assert_eq!(tree.size(), 11);
    assert_eq!(tree.max_id(), 11);
    assert_eq!(tree.get_root(), 11);
    for relation in relations_of_simple_main() {
        assert_eq!(tree.get_relation(get_relation_id(&relation)), Ok(relation));
    }
    let set = get_initial_relation_set(&tree);
    assert_eq!(set.len(), 11);
    for relation in relations_of_simple_main() {
        assert!(set.contains(&relation));
    }
}

#[test]
fn builder_starts_anew_with_each_unit() {
    let mut builder = AstBuilder::new();
    let first = builder.build_tree(&simple_main()).unwrap();
    let empty_block = TranslationUnit {
        functions: vec![FunctionDefinition {
            specifier: TypeSpecifier::Void,
            name: name("f"),
            parameters: vec![],
            body: vec![],
        }],
    };
    assert_eq!(builder.build_tree(&empty_block).err(), Some(InternalError::UnsupportedConstruct));
    let second = builder.build_tree(&simple_main()).unwrap();
    assert_eq!(second.size(), 11);
    assert_eq!(second.max_id(), 11);
    assert_eq!(second.get_root(), 11);
    for relation in relations_of_simple_main() {
        assert_eq!(first.get_relation(get_relation_id(&relation)), Ok(relation.clone()));
        assert_eq!(second.get_relation(get_relation_id(&relation)), Ok(relation));
    }
}

#[test]
fn pretty_print_goes_from_the_root_down() {
    let tree = parse_into_relation_tree(&simple_main()).unwrap();
    let all = relations_of_simple_main();
    let at = |id: usize| all[id - 1].clone();
    let expected = vec![
        (0, at(11)),
        (1, at(10)),
        (2, at(1)),
        (2, at(9)),
        (3, at(8)),
        (4, at(4)),
        (5, at(2)),
        (5, at(3)),
        (4, at(7)),
        (5, at(6)),
        (6, at(5)),
    ];
    assert_eq!(tree.pretty_print(), expected);
    let flat = tree.flat_print();
    assert_eq!(flat.len(), 11);
    for relation in all {
        assert!(flat.contains(&relation));
    }
}

#[test]
fn delete_onwards_takes_a_subtree_out() {
    let tree = parse_into_relation_tree(&simple_main()).unwrap();
    // The return statement and the variable in it.
    let (deleted, rest) = delete_onwards(6, tree);
    let mut expected = RelationSet::new();
    expected.insert(AstRelation::Return { id: 6, expr_id: 5 });
    expected.insert(AstRelation::Var { id: 5, var_name: name("x") });
    assert_eq!(deleted.len(), 2);
    for relation in expected.to_vec() {
        assert!(deleted.contains(&relation));
    }
    assert_eq!(rest.size(), 9);
    assert!(!rest.contains(5));
    assert!(!rest.contains(6));
    assert_eq!(rest.max_id(), 11);
    assert_eq!(rest.get_root(), 11);
}

#[test]
fn insert_onwards_copies_a_subtree_under_fresh_identities() {
    let source = parse_into_relation_tree(&simple_main()).unwrap();
    let target = parse_into_relation_tree(&simple_main()).unwrap();
    // The declaration: its type, its initialiser, the assignment.
    let (inserted, tree, new_id) = insert_onwards(4, target, &source);
    assert_eq!(new_id, 14);
    assert_eq!(tree.size(), 14);
    assert_eq!(tree.max_id(), 14);
    assert_eq!(inserted.len(), 3);
    assert!(inserted.contains(&AstRelation::Int { id: 12 }));
    assert!(inserted.contains(&AstRelation::Int { id: 13 }));
    assert!(inserted.contains(&AstRelation::Assign {
        id: 14,
        var_name: name("x"),
        type_id: 12,
        expr_id: 13
    }));
    assert_eq!(tree.get_relation(4), source.get_relation(4));
}

#[test]
fn shape_matching_ignores_identities() {
    let one = parse_into_relation_tree(&simple_main()).unwrap();
    let mut longer = simple_main();
    longer.functions[0].body.insert(0, Statement::Expression(number()));
    let other = parse_into_relation_tree(&longer).unwrap();
    // The declaration stands under other identities in the longer program.
    let ours = one.get_relation(4).unwrap();
    let theirs = other.get_relation(5).unwrap();
    assert_eq!(theirs, AstRelation::Assign { id: 5, var_name: name("x"), type_id: 3, expr_id: 4 });
    assert!(relations_match(&ours, &theirs, &one, &other));
    assert!(relations_match(&theirs, &ours, &other, &one));
    assert!(relations_match(&ours, &ours, &one, &one));
    // A return does not match a declaration, nor a variable of another name.
    let back = one.get_relation(6).unwrap();
    assert!(!relations_match(&ours, &back, &one, &one));
    assert!(!relations_match(&back, &ours, &one, &one));
    let mut renamed = simple_main();
    renamed.functions[0].body[1] = Statement::Return(Expression::Identifier(name("y")));
    let third = parse_into_relation_tree(&renamed).unwrap();
    assert!(!relations_match(&back, &third.get_relation(6).unwrap(), &one, &third));
    // Statement lists match as a whole.
    let cells = one.get_relation(8).unwrap();
    assert!(relations_match(&cells, &cells, &one, &one));
    assert!(!relations_match(&cells, &third.get_relation(8).unwrap(), &one, &third));
}

#[test]
fn relation_knows_its_parts() {
    let fun = AstRelation::FunDef {
        id: 9,
        fun_name: name("f"),
        return_type_id: 1,
        arg_ids: vec![3, 5],
        body_id: 8,
    };
    assert_eq!(get_relation_id(&fun), 9);
    assert_eq!(fun.kind(), RelationKind::FunDef);
    assert_eq!(fun.child_ids(), vec![1, 3, 5, 8]);
    assert_eq!(
        fun.with_ids(2, &vec![4, 6]),
        AstRelation::FunDef {
            id: 2,
            fun_name: name("f"),
            return_type_id: 4,
            arg_ids: vec![],
            body_id: 6
        }
    );
    assert_eq!(
        AstRelation::make(RelationKind::IfElse, name("unused"), 4, &vec![1, 2, 3]),
        AstRelation::IfElse { id: 4, cond_id: 1, then_id: 2, else_id: 3 }
    );
    assert_eq!(
        AstRelation::make(RelationKind::Arg, name("a"), 4, &vec![1]),
        AstRelation::Arg { id: 4, var_name: name("a"), type_id: 1 }
    );
    let call = AstRelation::FunCall { id: 1, fun_name: name("f"), arg_ids: vec![] };
    assert!(!fun.same_label(&call));
    assert!(call.same_label(&AstRelation::FunCall { id: 2, fun_name: name("f"), arg_ids: vec![7] }));
    assert!(!call.same_label(&AstRelation::FunCall { id: 1, fun_name: name("g"), arg_ids: vec![] }));
    assert_eq!(fun.clone(), fun);
    assert_ne!(fun, call);
    assert_ne!(AstRelation::Int { id: 1 }, AstRelation::Int { id: 2 });
    assert_ne!(AstRelation::Int { id: 1 }, AstRelation::Float { id: 1 });
}

#[test]
fn relation_set_is_a_set() {
    let mut set = RelationSet::new();
    assert!(set.is_empty());
    assert!(set.insert(AstRelation::Int { id: 1 }));
    assert!(!set.insert(AstRelation::Int { id: 1 }));
    assert!(set.insert(AstRelation::Float { id: 1 }));
    assert_eq!(set.len(), 2);
    assert!(set.contains(&AstRelation::Float { id: 1 }));
    assert!(!set.contains(&AstRelation::Char { id: 1 }));
    assert!(!set.remove(&AstRelation::Char { id: 1 }));
    assert!(set.remove(&AstRelation::Int { id: 1 }));
    assert_eq!(set.to_vec(), vec![AstRelation::Float { id: 1 }]);
    let copy = set.clone();
    set.remove(&AstRelation::Float { id: 1 });
    assert!(set.is_empty());
    assert_eq!(copy.len(), 1);
}

#[test]
fn unsupported_operator_in_an_argument_is_found() {
    let body = vec![Statement::Return(Expression::Call(
        name("f"),
        vec![Expression::BinaryOperator(
            BinaryOperator::ShiftLeft,
            Box::new(number()),
            Box::new(number()),
        )],
    ))];
    let program = TranslationUnit {
        functions: vec![FunctionDefinition {
            specifier: TypeSpecifier::Int,
            name: name("f"),
            parameters: vec![],
            body,
        }],
    };
    assert!(matches!(
        parse_into_relation_tree(&program),
        Err(InternalError::UnsupportedConstruct)
    ));
}

#[test]
fn well_formed_trees_are_told_from_others() {
    let tree = parse_into_relation_tree(&simple_main()).unwrap();
    assert!(tree.is_well_formed());
    assert!(!Tree::new().is_well_formed());
    // A node that nothing reaches.
    let mut orphan = tree.clone();
    orphan.add_node(12, AstRelation::Int { id: 12 }).unwrap();
    assert!(!orphan.is_well_formed());
    // A list of children that does not agree with the relation.
    let mut unlinked = tree.clone();
    unlinked.replace_children(6, vec![]).unwrap();
    assert!(!unlinked.is_well_formed());
    // A dangling identity.
    let mut dangling = tree.clone();
    dangling.delete_node(5).unwrap();
    assert!(!dangling.is_well_formed());
    // A child of a kind that does not fit: a return where a type stands.
    let mut unfit = tree.clone();
    unfit.update_relation(2, AstRelation::Var { id: 2, var_name: name("t") }).unwrap();
    assert!(!unfit.is_well_formed());
    // A subtree taken out leaves its parent dangling.
    let (_, rest) = delete_onwards(6, tree.clone());
    assert!(!rest.is_well_formed());
    // A root that is no root.
    let mut rooted = Tree::new();
    rooted.add_root_node(1, AstRelation::Int { id: 1 }).unwrap();
    assert!(!rooted.is_well_formed());
    let mut unit = Tree::new();
    unit.add_node(1, AstRelation::TransUnit { id: 1, body_ids: vec![] }).unwrap();
    assert!(!unit.is_well_formed());
    let mut unit = Tree::new();
    unit.add_root_node(1, AstRelation::TransUnit { id: 1, body_ids: vec![] }).unwrap();
    assert!(unit.is_well_formed());
}
