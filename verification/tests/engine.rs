use cerium_framework::ast::{get_initial_relation_set, Tree};
use cerium_framework::ddlog_interface::{
    run_ddlog_type_checker, verdict_after_changes, DeltaEngine, EquivRelId,
};
use cerium_framework::definitions::{AstRelation, RelationKind};
use cerium_framework::facts::tree_from_relations;
use cerium_framework::relation_set::RelationSet;
use cerium_framework::standard_type_checker::type_check;
use cerium_framework::syntax::{
    BinaryOperator, Constant, Expression, FunctionDefinition, ParameterDeclaration, Statement, TranslationUnit,
    TypeSpecifier,
};
use cerium_framework::{
    datalog_type_check_without_diff, incremental_type_check, parse_into_relation_tree,
    single_datalog_type_check,
};

fn number() -> Expression {
    Expression::Constant(Constant::Integer)
}

fn float_const() -> Expression {
    Expression::Constant(Constant::Float)
}

fn give(e: Expression) -> Statement {
    Statement::Return(e)
}

fn function(
    specifier: TypeSpecifier,
    name: &str,
    parameters: Vec<(TypeSpecifier, &str)>,
    body: Vec<Statement>,
) -> FunctionDefinition {
    FunctionDefinition {
        specifier,
        name: String::from(name),
        parameters: parameters
            .into_iter()
            .map(|(specifier, name)| ParameterDeclaration { specifier, name: String::from(name) })
            .collect(),
        body,
    }
}

fn unit(functions: Vec<FunctionDefinition>) -> TranslationUnit {
    TranslationUnit { functions }
}

fn main_with(init: Expression) -> TranslationUnit {
    unit(vec![function(
        TypeSpecifier::Int,
        "main",
        vec![],
        vec![
            Statement::Declaration(TypeSpecifier::Int, String::from("x"), init),
            give(Expression::Identifier(String::from("x"))),
        ],
    )])
}

fn f(specifier: TypeSpecifier) -> FunctionDefinition {
    function(
        specifier,
        "f",
        vec![(TypeSpecifier::Int, "a")],
        vec![give(Expression::BinaryOperator(
            BinaryOperator::Plus,
            Box::new(Expression::Identifier(String::from("a"))),
            Box::new(number()),
        ))],
    )
}

fn caller() -> FunctionDefinition {
    function(
        TypeSpecifier::Int,
        "main",
        vec![],
        vec![give(Expression::Call(String::from("f"), vec![number()]))],
    )
}

fn g() -> FunctionDefinition {
    function(TypeSpecifier::Int, "g", vec![], vec![give(number())])
}

fn sorted(relations: Vec<AstRelation>) -> Vec<String> {
    let mut lines: Vec<String> = relations.iter().map(|r| format!("{:?}", r)).collect();
    lines.sort();
    lines
}

/// Runs the programs through the engine one after the other and holds each
/// verdict against that of the baseline checker on the program itself.
fn verdicts(programs: Vec<TranslationUnit>) -> Vec<bool> {
    let mut out = vec![];
    let (ok, mut tree, mut engine) = single_datalog_type_check(&programs[0]).unwrap();
    assert_eq!(ok, type_check(&parse_into_relation_tree(&programs[0]).unwrap()));
    out.push(ok);
    let mut prev = ok;
    for program in &programs[1..] {
        let new = parse_into_relation_tree(program).unwrap();
        let (ok, updated) = incremental_type_check(&tree, &new, &mut engine, prev).unwrap();
        assert_eq!(ok, type_check(&new));
        assert_eq!(ok, type_check(&updated));
        assert_eq!(engine.len(), updated.size());
        assert!(engine.holds_relations_of(&updated));
        assert!(!engine.holds_relations_of(&Tree::new()));
        assert!(updated.is_well_formed());
        assert_eq!(ok, engine.verdict());
        tree = updated;
        prev = ok;
        out.push(ok);
    }
    out
}

#[test]
fn engine_sees_float_assigned_to_int() {
    assert_eq!(verdicts(vec![main_with(number()), main_with(float_const())]), vec![true, false]);
}

#[test]
fn engine_sees_return_type_changed_to_void() {
    let c = unit(vec![f(TypeSpecifier::Int), caller()]);
    let d = unit(vec![f(TypeSpecifier::Void), caller()]);
    assert_eq!(verdicts(vec![c, d]), vec![true, false]);
}

#[test]
fn engine_follows_function_appended_and_removed() {
    let c = || unit(vec![f(TypeSpecifier::Int), caller()]);
    let with_g = unit(vec![f(TypeSpecifier::Int), caller(), g()]);
    assert_eq!(verdicts(vec![c(), with_g, c()]), vec![true, true, true]);
}

#[test]
fn engine_agrees_with_baseline_over_a_sequence() {
    let programs = vec![
        main_with(number()),
        unit(vec![f(TypeSpecifier::Int), caller()]),
        unit(vec![caller(), f(TypeSpecifier::Int)]),
        unit(vec![caller()]),
        unit(vec![f(TypeSpecifier::Float), caller(), g()]),
        main_with(float_const()),
        main_with(number()),
    ];
    assert_eq!(verdicts(programs), vec![true, true, true, false, false, false, true]);
}

#[test]
fn functions_in_another_order_change_nothing() {
    let one = parse_into_relation_tree(&unit(vec![f(TypeSpecifier::Int), caller()])).unwrap();
    let other = parse_into_relation_tree(&unit(vec![caller(), f(TypeSpecifier::Int)])).unwrap();
    let (inserts, deletes, updated) = cerium_framework::compute_diff(one, other);
    assert!(inserts.is_empty());
    assert!(deletes.is_empty());
    assert!(type_check(&updated));
}

#[test]
fn tree_comes_back_from_its_relations() {
    let tree = parse_into_relation_tree(&unit(vec![f(TypeSpecifier::Int), caller()])).unwrap();
    let relations = get_initial_relation_set(&tree);
    let again: Tree = tree_from_relations(&relations).unwrap();
    assert_eq!(again.size(), tree.size());
    assert_eq!(again.get_root(), tree.get_root());
    assert_eq!(again.max_id(), tree.max_id());
    assert_eq!(sorted(get_initial_relation_set(&again).to_vec()), sorted(relations.to_vec()));
    assert!(type_check(&again));
}

#[test]
fn relations_that_are_no_tree_give_none() {
    // No translation unit.
    let mut set = RelationSet::new();
    set.insert(AstRelation::Int { id: 1 });
    assert!(tree_from_relations(&set).is_none());
    // A dangling identity.
    let mut set = RelationSet::new();
    set.insert(AstRelation::TransUnit { id: 2, body_ids: vec![1] });
    assert!(tree_from_relations(&set).is_none());
    // Two translation units.
    let mut set = RelationSet::new();
    set.insert(AstRelation::TransUnit { id: 2, body_ids: vec![] });
    set.insert(AstRelation::TransUnit { id: 2, body_ids: vec![2] });
    assert!(tree_from_relations(&set).is_none());
    // A cycle.
    let mut set = RelationSet::new();
    set.insert(AstRelation::TransUnit { id: 1, body_ids: vec![2] });
    set.insert(AstRelation::FunDef {
        id: 2,
        fun_name: String::from("f"),
        return_type_id: 3,
        arg_ids: vec![],
        body_id: 4,
    });
    set.insert(AstRelation::Int { id: 3 });
    set.insert(AstRelation::Compound { id: 4, start_id: 5 });
    set.insert(AstRelation::EndItem { id: 5, stmt_id: 4 });
    assert!(tree_from_relations(&set).is_none());
    // A child of a kind that does not fit.
    let mut set = RelationSet::new();
    set.insert(AstRelation::TransUnit { id: 2, body_ids: vec![1] });
    set.insert(AstRelation::Int { id: 1 });
    assert!(tree_from_relations(&set).is_none());
    // The empty program is a tree.
    let mut set = RelationSet::new();
    set.insert(AstRelation::TransUnit { id: 7, body_ids: vec![] });
    let tree = tree_from_relations(&set).unwrap();
    assert_eq!(tree.get_root(), 7);
    assert!(type_check(&tree));
}

#[test]
fn engine_takes_relations_without_a_diff() {
    let tree = parse_into_relation_tree(&main_with(number())).unwrap();
    let mut engine = DeltaEngine::new();
    assert!(!engine.verdict());
    let all = get_initial_relation_set(&tree);
    assert!(datalog_type_check_without_diff(false, &mut engine, all.clone(), RelationSet::new()));
    assert_eq!(engine.len(), 11);
    // Deleting wins over inserting.
    let mut one = RelationSet::new();
    one.insert(AstRelation::Int { id: 1 });
    assert!(!run_ddlog_type_checker(&mut engine, one.clone(), one, true));
    assert_eq!(engine.len(), 10);
    let mut back = RelationSet::new();
    back.insert(AstRelation::Int { id: 1 });
    assert!(run_ddlog_type_checker(&mut engine, back, RelationSet::new(), false));
}

#[test]
fn convert_int_to_relid() {
    let int_relation = AstRelation::Int { id: 0 };
    let converted_int_relation = int_relation.get_equiv_relid();
    let expected = RelationKind::Int;
    assert_eq!(converted_int_relation, expected);
}

#[test]
fn verdict_is_read_from_the_changes() {
    assert!(verdict_after_changes(true, &vec![]));
    assert!(!verdict_after_changes(true, &vec![-1]));
    assert!(!verdict_after_changes(true, &vec![1]));
    assert!(!verdict_after_changes(false, &vec![]));
    assert!(verdict_after_changes(false, &vec![1]));
    assert!(!verdict_after_changes(false, &vec![-1]));
    assert!(verdict_after_changes(false, &vec![-1, 1]));
}
