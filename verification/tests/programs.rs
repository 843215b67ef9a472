use cerium_framework::ast::{get_initial_relation_set, Tree};
use cerium_framework::definitions::{AstRelation, InternalError};
use cerium_framework::standard_type_checker::type_check;
use cerium_framework::syntax::{
    BinaryOperator, Constant, Expression, FunctionDefinition, ParameterDeclaration, Statement, TranslationUnit,
    TypeSpecifier,
};
use cerium_framework::{
    compute_diff, parse_into_relation_tree, single_standard_type_check,
    standard_type_check_without_parse,
};

fn var(name: &str) -> Expression {
    Expression::Identifier(String::from(name))
}

fn int_const() -> Expression {
    Expression::Constant(Constant::Integer)
}

fn float_const() -> Expression {
    Expression::Constant(Constant::Float)
}

fn plus(left: Expression, right: Expression) -> Expression {
    Expression::BinaryOperator(BinaryOperator::Plus, Box::new(left), Box::new(right))
}

fn call(name: &str, args: Vec<Expression>) -> Expression {
    Expression::Call(String::from(name), args)
}

fn declare(specifier: TypeSpecifier, name: &str, init: Expression) -> Statement {
    Statement::Declaration(specifier, String::from(name), init)
}

fn param(specifier: TypeSpecifier, name: &str) -> ParameterDeclaration {
    ParameterDeclaration { specifier, name: String::from(name) }
}

fn function(
    specifier: TypeSpecifier,
    name: &str,
    parameters: Vec<ParameterDeclaration>,
    body: Vec<Statement>,
) -> FunctionDefinition {
    FunctionDefinition { specifier, name: String::from(name), parameters, body }
}

fn unit(functions: Vec<FunctionDefinition>) -> TranslationUnit {
    TranslationUnit { functions }
}

// int main(){ int x = 1; return x; }
fn simple_main() -> TranslationUnit {
    unit(vec![function(
        TypeSpecifier::Int,
        "main",
        vec![],
        vec![declare(TypeSpecifier::Int, "x", int_const()), Statement::Return(var("x"))],
    )])
}

// int main(){ int x = 1.0; return x; }
fn float_main() -> TranslationUnit {
    unit(vec![function(
        TypeSpecifier::Int,
        "main",
        vec![],
        vec![declare(TypeSpecifier::Int, "x", float_const()), Statement::Return(var("x"))],
    )])
}

fn callee(specifier: TypeSpecifier, formal: &str) -> FunctionDefinition {
    function(
        specifier,
        "f",
        vec![param(TypeSpecifier::Int, formal)],
        vec![Statement::Return(plus(var("a"), int_const()))],
    )
}

fn caller() -> FunctionDefinition {
    function(TypeSpecifier::Int, "main", vec![], vec![Statement::Return(call("f", vec![int_const()]))])
}

// int f(int a){ return a+1; } int main(){ return f(2); }
fn caller_and_callee() -> TranslationUnit {
    unit(vec![callee(TypeSpecifier::Int, "a"), caller()])
}

fn tree_of(program: &TranslationUnit) -> Tree {
    parse_into_relation_tree(program).unwrap()
}

fn sorted(relations: Vec<AstRelation>) -> Vec<String> {
    let mut lines: Vec<String> = relations.iter().map(|r| format!("{:?}", r)).collect();
    lines.sort();
    lines
}

#[test]
fn declared_variable_returned_is_well_typed() {
    let (ok, tree) = single_standard_type_check(&simple_main()).unwrap();
    assert!(ok);
    assert_eq!(tree.size(), 11);
    assert_eq!(tree.get_root(), 11);
}

#[test]
fn float_assigned_to_int_is_a_typing_error() {
    let prev = tree_of(&simple_main());
    let new = tree_of(&float_main());
    assert!(!type_check(&new));
    let (inserts, deletes, updated) = compute_diff(prev, new);
    assert!(!standard_type_check_without_parse(updated));
    // The declaration does not match: the new one is inserted before it, and
    // the tail is rebuilt.
    assert!(!inserts.is_empty());
    assert!(!deletes.is_empty());
}

#[test]
fn call_of_a_function_is_well_typed() {
    let (ok, tree) = single_standard_type_check(&caller_and_callee()).unwrap();
    assert!(ok);
    assert_eq!(tree.size(), 18);
}

#[test]
fn return_type_changed_to_void_is_a_typing_error() {
    let prev = tree_of(&caller_and_callee());
    let changed = unit(vec![callee(TypeSpecifier::Void, "a"), caller()]);
    let new = tree_of(&changed);
    assert!(!type_check(&new));
    let (inserts, deletes, updated) = compute_diff(prev, new);
    assert_eq!(sorted(inserts.to_vec()), vec![String::from("Void { id: 1 }")]);
    assert_eq!(sorted(deletes.to_vec()), vec![String::from("Int { id: 1 }")]);
    assert!(!type_check(&updated));
}

#[test]
fn renamed_formal_changes_one_relation() {
    let prev = tree_of(&caller_and_callee());
    let changed = unit(vec![callee(TypeSpecifier::Int, "b"), caller()]);
    let new = tree_of(&changed);
    let (inserts, deletes, updated) = compute_diff(prev, new);
    assert_eq!(
        inserts.to_vec(),
        vec![AstRelation::Arg { id: 3, var_name: String::from("b"), type_id: 2 }]
    );
    assert_eq!(
        deletes.to_vec(),
        vec![AstRelation::Arg { id: 3, var_name: String::from("a"), type_id: 2 }]
    );
    assert_eq!(updated.size(), 18);
    assert_eq!(updated.get_root(), 18);
}

#[test]
fn renamed_formal_without_uses_stays_well_typed() {
    let f = |formal: &str| {
        function(
            TypeSpecifier::Int,
            "f",
            vec![param(TypeSpecifier::Int, formal)],
            vec![Statement::Return(plus(int_const(), int_const()))],
        )
    };
    let prev = tree_of(&unit(vec![f("a"), caller()]));
    assert!(type_check(&prev));
    let new = tree_of(&unit(vec![f("b"), caller()]));
    let (inserts, deletes, updated) = compute_diff(prev, new);
    assert_eq!(inserts.len(), 1);
    assert_eq!(deletes.len(), 1);
    assert!(type_check(&updated));
}

#[test]
fn appended_function_is_inserted_whole() {
    let prev = tree_of(&caller_and_callee());
    let g = function(TypeSpecifier::Int, "g", vec![], vec![Statement::Return(int_const())]);
    let new = tree_of(&unit(vec![callee(TypeSpecifier::Int, "a"), caller(), g]));
    let (inserts, deletes, updated) = compute_diff(prev, new);
    assert_eq!(deletes.to_vec(), vec![AstRelation::TransUnit { id: 18, body_ids: vec![10, 17] }]);
    let expected = vec![
        AstRelation::Int { id: 19 },
        AstRelation::Int { id: 20 },
        AstRelation::Return { id: 21, expr_id: 20 },
        AstRelation::EndItem { id: 22, stmt_id: 21 },
        AstRelation::Compound { id: 23, start_id: 22 },
        AstRelation::FunDef {
            id: 24,
            fun_name: String::from("g"),
            return_type_id: 19,
            arg_ids: vec![],
            body_id: 23,
        },
        AstRelation::TransUnit { id: 18, body_ids: vec![10, 17, 24] },
    ];
    assert_eq!(sorted(inserts.to_vec()), sorted(expected));
    assert!(updated.is_well_formed());
    assert!(type_check(&updated));
    assert_eq!(updated.size(), 24);
}

#[test]
fn diff_of_a_tree_with_itself_is_empty() {
    let prev = tree_of(&caller_and_callee());
    let same = tree_of(&caller_and_callee());
    let before = sorted(get_initial_relation_set(&prev).to_vec());
    let (inserts, deletes, updated) = compute_diff(prev, same);
    assert!(inserts.is_empty());
    assert!(deletes.is_empty());
    assert_eq!(sorted(get_initial_relation_set(&updated).to_vec()), before);
}

#[test]
fn delta_leads_from_previous_to_updated() {
    let prev = tree_of(&simple_main());
    let new = tree_of(&caller_and_callee());
    let mut store = get_initial_relation_set(&prev);
    let (inserts, deletes, updated) = compute_diff(prev, new);
    for r in inserts.to_vec() {
        assert!(!deletes.contains(&r));
        store.insert(r);
    }
    for r in deletes.to_vec() {
        store.remove(&r);
    }
    assert_eq!(sorted(store.to_vec()), sorted(get_initial_relation_set(&updated).to_vec()));
    assert!(type_check(&updated));
    assert_eq!(updated.size(), 18);
}

#[test]
fn empty_block_is_not_supported() {
    let program = unit(vec![function(TypeSpecifier::Void, "f", vec![], vec![])]);
    assert!(matches!(parse_into_relation_tree(&program), Err(InternalError::UnsupportedConstruct)));
}

#[test]
fn operator_outside_the_subset_is_not_supported() {
    let body = vec![Statement::Return(Expression::BinaryOperator(
        BinaryOperator::Modulo,
        Box::new(int_const()),
        Box::new(int_const()),
    ))];
    let program = unit(vec![function(TypeSpecifier::Int, "f", vec![], body)]);
    assert!(matches!(parse_into_relation_tree(&program), Err(InternalError::UnsupportedConstruct)));
    let body = vec![Statement::Return(Expression::BinaryOperator(
        BinaryOperator::LessOrEqual,
        Box::new(int_const()),
        Box::new(int_const()),
    ))];
    let program = unit(vec![function(TypeSpecifier::Int, "f", vec![], body)]);
    let (ok, tree) = single_standard_type_check(&program).unwrap();
    assert!(ok);
    assert_eq!(tree.size(), 9);
}

#[test]
fn statements_are_matched_in_order() {
    // int main(){ int x = 1; return x; } becomes
    // int main(){ int x = 1; int y = 2; return x; }
    let prev = tree_of(&simple_main());
    let new = tree_of(&unit(vec![function(
        TypeSpecifier::Int,
        "main",
        vec![],
        vec![
            declare(TypeSpecifier::Int, "x", int_const()),
            declare(TypeSpecifier::Int, "y", int_const()),
            Statement::Return(var("x")),
        ],
    )]));
    let (inserts, deletes, updated) = compute_diff(prev, new);
    // The first cell keeps its statement and gets a new successor; the cell
    // with the return statement stays as it is.
    assert_eq!(
        deletes.to_vec(),
        vec![AstRelation::Item { id: 8, stmt_id: 4, next_stmt_id: 7 }]
    );
    let expected = vec![
        AstRelation::Int { id: 12 },
        AstRelation::Int { id: 13 },
        AstRelation::Assign { id: 14, var_name: String::from("y"), type_id: 12, expr_id: 13 },
        AstRelation::Item { id: 15, stmt_id: 14, next_stmt_id: 7 },
        AstRelation::Item { id: 8, stmt_id: 4, next_stmt_id: 15 },
    ];
    assert_eq!(sorted(inserts.to_vec()), sorted(expected));
    assert_eq!(updated.size(), 15);
    assert!(type_check(&updated));
}

#[test]
fn shortened_statement_list_loses_its_tail() {
    // int main(){ int x = 1; return x; } becomes int main(){ int x = 1; }
    let prev = tree_of(&simple_main());
    let new = tree_of(&unit(vec![function(
        TypeSpecifier::Int,
        "main",
        vec![],
        vec![declare(TypeSpecifier::Int, "x", int_const())],
    )]));
    let (inserts, deletes, updated) = compute_diff(prev, new);
    assert_eq!(inserts.to_vec(), vec![AstRelation::EndItem { id: 8, stmt_id: 4 }]);
    let expected = vec![
        AstRelation::Var { id: 5, var_name: String::from("x") },
        AstRelation::Return { id: 6, expr_id: 5 },
        AstRelation::EndItem { id: 7, stmt_id: 6 },
        AstRelation::Item { id: 8, stmt_id: 4, next_stmt_id: 7 },
    ];
    assert_eq!(sorted(deletes.to_vec()), sorted(expected));
    assert_eq!(updated.size(), 8);
    assert_eq!(updated.max_id(), 11);
}

#[test]
fn parameters_are_matched_by_position() {
    let with = |parameters: Vec<ParameterDeclaration>| {
        tree_of(&unit(vec![function(
            TypeSpecifier::Int,
            "f",
            parameters,
            vec![Statement::Return(int_const())],
        )]))
    };
    // int f(int a, char b) becomes int f(float a)
    let prev = with(vec![param(TypeSpecifier::Int, "a"), param(TypeSpecifier::Char, "b")]);
    let new = with(vec![param(TypeSpecifier::Float, "a")]);
    let (inserts, deletes, updated) = compute_diff(prev, new);
    let gone = vec![
        AstRelation::Int { id: 2 },
        AstRelation::Char { id: 4 },
        AstRelation::Arg { id: 5, var_name: String::from("b"), type_id: 4 },
        AstRelation::FunDef {
            id: 10,
            fun_name: String::from("f"),
            return_type_id: 1,
            arg_ids: vec![3, 5],
            body_id: 9,
        },
    ];
    let come = vec![
        AstRelation::Float { id: 2 },
        AstRelation::FunDef {
            id: 10,
            fun_name: String::from("f"),
            return_type_id: 1,
            arg_ids: vec![3],
            body_id: 9,
        },
    ];
    assert_eq!(sorted(deletes.to_vec()), sorted(gone));
    assert_eq!(sorted(inserts.to_vec()), sorted(come));
    assert_eq!(updated.size(), 9);
    // And back: the second parameter is put in again.
    let back = with(vec![param(TypeSpecifier::Float, "a"), param(TypeSpecifier::Char, "b")]);
    let (inserts, deletes, updated) = compute_diff(updated, back);
    assert_eq!(deletes.len(), 1);
    assert_eq!(inserts.len(), 3);
    assert!(inserts.contains(&AstRelation::FunDef {
        id: 10,
        fun_name: String::from("f"),
        return_type_id: 1,
        arg_ids: vec![3, 13],
        body_id: 9,
    }));
    assert_eq!(updated.size(), 11);
}

#[test]
fn renamed_function_is_deleted_and_inserted() {
    let prev = tree_of(&caller_and_callee());
    let mut other = caller_and_callee();
    other.functions[0].name = String::from("h");
    let new = tree_of(&other);
    let (inserts, deletes, updated) = compute_diff(prev, new);
    // The ten nodes of `f` go, ten nodes of `h` come, and the root changes.
    assert_eq!(deletes.len(), 11);
    assert_eq!(inserts.len(), 11);
    assert!(deletes.contains(&AstRelation::TransUnit { id: 18, body_ids: vec![10, 17] }));
    assert!(inserts.contains(&AstRelation::TransUnit { id: 18, body_ids: vec![17, 28] }));
    assert_eq!(updated.size(), 18);
    // `main` calls `f`, which is no more.
    assert!(!type_check(&updated));
}

#[test]
fn check_correct_program() {
    let ast = tree_of(&caller_and_callee());
    assert_eq!(type_check(&ast), true);
}

#[test]
fn check_error_program() {
    let ast = tree_of(&float_main());
    assert_eq!(type_check(&ast), false);
}

#[test]
fn print_for_debug() {
    let tree = tree_of(&caller_and_callee());
    for (depth, relation) in tree.pretty_print() {
        println!("{}{:?}", "   ".repeat(depth), relation);
    }
    assert_eq!(tree.pretty_print().len(), 18);
}

fn one_return(name: &str, value: Expression) -> FunctionDefinition {
    function(TypeSpecifier::Int, name, vec![], vec![Statement::Return(value)])
}

fn relations(set: &cerium_framework::relation_set::RelationSet) -> Vec<String> {
    sorted(set.to_vec())
}

#[test]
fn appended_function_is_numbered_upward_from_max_id() {
    let prev = tree_of(&unit(vec![one_return("f", int_const())]));
    assert_eq!(prev.get_root(), 7);
    let new = tree_of(&unit(vec![one_return("f", int_const()), one_return("g", int_const())]));
    let (inserts, deletes, updated) = compute_diff(prev, new);
    assert_eq!(
        relations(&deletes),
        sorted(vec![AstRelation::TransUnit { id: 7, body_ids: vec![6] }])
    );
    assert_eq!(
        relations(&inserts),
        sorted(vec![
            AstRelation::Int { id: 8 },
            AstRelation::Int { id: 9 },
            AstRelation::Return { id: 10, expr_id: 9 },
            AstRelation::EndItem { id: 11, stmt_id: 10 },
            AstRelation::Compound { id: 12, start_id: 11 },
            AstRelation::FunDef {
                id: 13,
                fun_name: String::from("g"),
                return_type_id: 8,
                arg_ids: vec![],
                body_id: 12,
            },
            AstRelation::TransUnit { id: 7, body_ids: vec![6, 13] },
        ])
    );
    assert_eq!(updated.size(), 13);
    assert_eq!(updated.max_id(), 13);
    assert_eq!(updated.get_root(), 7);
}

#[test]
fn dropped_function_is_deleted_with_all_below_it() {
    let prev = tree_of(&unit(vec![one_return("f", int_const()), one_return("g", float_const())]));
    assert_eq!(prev.get_root(), 13);
    let new = tree_of(&unit(vec![one_return("f", int_const())]));
    let (inserts, deletes, updated) = compute_diff(prev, new);
    assert_eq!(
        relations(&deletes),
        sorted(vec![
            AstRelation::Int { id: 7 },
            AstRelation::Float { id: 8 },
            AstRelation::Return { id: 9, expr_id: 8 },
            AstRelation::EndItem { id: 10, stmt_id: 9 },
            AstRelation::Compound { id: 11, start_id: 10 },
            AstRelation::FunDef {
                id: 12,
                fun_name: String::from("g"),
                return_type_id: 7,
                arg_ids: vec![],
                body_id: 11,
            },
            AstRelation::TransUnit { id: 13, body_ids: vec![6, 12] },
        ])
    );
    assert_eq!(
        relations(&inserts),
        sorted(vec![AstRelation::TransUnit { id: 13, body_ids: vec![6] }])
    );
    for id in 7..=12 {
        assert!(!updated.contains(id));
    }
    assert_eq!(updated.size(), 7);
    assert_eq!(updated.max_id(), 13);
}

#[test]
fn replaced_statement_gets_fresh_identities() {
    let prev = tree_of(&unit(vec![one_return("f", int_const())]));
    let new = tree_of(&unit(vec![one_return("f", float_const())]));
    let (inserts, deletes, updated) = compute_diff(prev, new);
    assert_eq!(
        relations(&deletes),
        sorted(vec![
            AstRelation::Int { id: 2 },
            AstRelation::Return { id: 3, expr_id: 2 },
            AstRelation::EndItem { id: 4, stmt_id: 3 },
        ])
    );
    assert_eq!(
        relations(&inserts),
        sorted(vec![
            AstRelation::Float { id: 8 },
            AstRelation::Return { id: 9, expr_id: 8 },
            AstRelation::EndItem { id: 4, stmt_id: 9 },
        ])
    );
    assert_eq!(updated.size(), 7);
    assert_eq!(updated.max_id(), 9);
}

#[test]
fn appended_statements_are_numbered_after_each_other() {
    // int f(){ return 1; }  becomes  int f(){ return 1; return 1.0; }
    let prev = tree_of(&unit(vec![one_return("f", int_const())]));
    let new = tree_of(&unit(vec![function(
        TypeSpecifier::Int,
        "f",
        vec![],
        vec![Statement::Return(int_const()), Statement::Return(float_const())],
    )]));
    let (inserts, deletes, updated) = compute_diff(prev, new);
    assert_eq!(relations(&deletes), sorted(vec![AstRelation::EndItem { id: 4, stmt_id: 3 }]));
    assert_eq!(
        relations(&inserts),
        sorted(vec![
            AstRelation::Float { id: 8 },
            AstRelation::Return { id: 9, expr_id: 8 },
            AstRelation::EndItem { id: 10, stmt_id: 9 },
            AstRelation::Item { id: 4, stmt_id: 3, next_stmt_id: 10 },
        ])
    );
    assert_eq!(updated.max_id(), 10);
}

#[test]
fn statement_put_before_a_cell_gets_a_cell_of_its_own() {
    // int f(){ return 1; return 'c'; }  becomes
    // int f(){ return 1.0; return 1; return 'c'; }
    let prev = tree_of(&unit(vec![function(
        TypeSpecifier::Int,
        "f",
        vec![],
        vec![
            Statement::Return(int_const()),
            Statement::Return(Expression::Constant(Constant::Character)),
        ],
    )]));
    assert_eq!(prev.get_root(), 10);
    let first = prev.get_relation(7).unwrap();
    assert_eq!(first, AstRelation::Item { id: 7, stmt_id: 3, next_stmt_id: 6 });
    let new = tree_of(&unit(vec![function(
        TypeSpecifier::Int,
        "f",
        vec![],
        vec![
            Statement::Return(float_const()),
            Statement::Return(int_const()),
            Statement::Return(Expression::Constant(Constant::Character)),
        ],
    )]));
    let (inserts, deletes, updated) = compute_diff(prev, new);
    assert_eq!(relations(&deletes), sorted(vec![AstRelation::Compound { id: 8, start_id: 7 }]));
    assert_eq!(
        relations(&inserts),
        sorted(vec![
            AstRelation::Float { id: 11 },
            AstRelation::Return { id: 12, expr_id: 11 },
            AstRelation::Item { id: 13, stmt_id: 12, next_stmt_id: 7 },
            AstRelation::Compound { id: 8, start_id: 13 },
        ])
    );
    assert_eq!(updated.get_relation(7), Ok(first));
    assert_eq!(updated.size(), 13);
}
