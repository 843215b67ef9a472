use cerium_framework::single_standard_type_check;
use cerium_framework::standard_type_checker::{
    lookup_function, lookup_variable, type_check_literal, FunType, VarType,
};
use cerium_framework::definitions::AstRelation;
use cerium_framework::syntax::{
    BinaryOperator, Constant, Expression, FunctionDefinition, ParameterDeclaration, Statement,
    TranslationUnit, TypeSpecifier,
};
use cerium_framework::type_rules::Type;

fn var(name: &str) -> Expression {
    Expression::Identifier(String::from(name))
}

fn constant(c: Constant) -> Expression {
    Expression::Constant(c)
}

fn one() -> Expression {
    constant(Constant::Integer)
}

fn binary(left: Expression, right: Expression) -> Expression {
    Expression::BinaryOperator(BinaryOperator::Plus, Box::new(left), Box::new(right))
}

fn call(name: &str, args: Vec<Expression>) -> Expression {
    Expression::Call(String::from(name), args)
}

fn declare(specifier: TypeSpecifier, name: &str, init: Expression) -> Statement {
    Statement::Declaration(specifier, String::from(name), init)
}

fn function(
    specifier: TypeSpecifier,
    name: &str,
    parameters: Vec<(TypeSpecifier, &str)>,
    body: Vec<Statement>,
) -> FunctionDefinition {
    FunctionDefinition {
        specifier,
        name: String::from(name),
        parameters: parameters
            .into_iter()
            .map(|(specifier, name)| ParameterDeclaration { specifier, name: String::from(name) })
            .collect(),
        body,
    }
}

fn verdict(functions: Vec<FunctionDefinition>) -> bool {
    single_standard_type_check(&TranslationUnit { functions }).unwrap().0
}

fn int_main(body: Vec<Statement>) -> bool {
    verdict(vec![function(TypeSpecifier::Int, "main", vec![], body)])
}

#[test]
fn empty_program_is_well_typed() {
    assert!(verdict(vec![]));
}

#[test]
fn return_must_have_the_return_type() {
    assert!(int_main(vec![Statement::Return(one())]));
    assert!(!int_main(vec![Statement::Return(constant(Constant::Float))]));
    assert!(!int_main(vec![Statement::Return(constant(Constant::Character))]));
    assert!(verdict(vec![function(
        TypeSpecifier::Char,
        "c",
        vec![],
        vec![Statement::Return(constant(Constant::Character))],
    )]));
}

#[test]
fn assignment_must_have_the_declared_type() {
    assert!(int_main(vec![declare(TypeSpecifier::Int, "x", one()), Statement::Return(var("x"))]));
    assert!(!int_main(vec![
        declare(TypeSpecifier::Float, "x", one()),
        Statement::Return(one()),
    ]));
    assert!(int_main(vec![
        declare(TypeSpecifier::Float, "x", constant(Constant::Float)),
        Statement::Return(one()),
    ]));
}

#[test]
fn binary_operation_needs_equal_numeric_operands() {
    assert!(int_main(vec![Statement::Return(binary(one(), one()))]));
    assert!(!int_main(vec![Statement::Return(binary(one(), constant(Constant::Float)))]));
    assert!(int_main(vec![
        declare(
            TypeSpecifier::Float,
            "x",
            binary(constant(Constant::Float), constant(Constant::Float)),
        ),
        Statement::Return(one()),
    ]));
    assert!(!int_main(vec![
        declare(
            TypeSpecifier::Char,
            "x",
            binary(constant(Constant::Character), constant(Constant::Character)),
        ),
        Statement::Return(one()),
    ]));
}

#[test]
fn variable_must_be_bound_before_its_use() {
    assert!(!int_main(vec![Statement::Return(var("x"))]));
    assert!(!int_main(vec![
        Statement::Return(var("x")),
        declare(TypeSpecifier::Int, "x", one()),
    ]));
    assert!(verdict(vec![function(
        TypeSpecifier::Int,
        "f",
        vec![(TypeSpecifier::Int, "a")],
        vec![Statement::Return(var("a"))],
    )]));
}

#[test]
fn later_binding_of_a_name_wins() {
    assert!(int_main(vec![
        declare(TypeSpecifier::Float, "x", constant(Constant::Float)),
        declare(TypeSpecifier::Int, "x", one()),
        Statement::Return(var("x")),
    ]));
    assert!(!int_main(vec![
        declare(TypeSpecifier::Int, "x", one()),
        declare(TypeSpecifier::Float, "x", constant(Constant::Float)),
        Statement::Return(var("x")),
    ]));
}

#[test]
fn binding_in_a_block_stays_in_force_to_the_end_of_the_function() {
    assert!(int_main(vec![
        Statement::If(
            one(),
            Box::new(Statement::Compound(vec![declare(TypeSpecifier::Int, "y", one())])),
        ),
        Statement::Return(var("y")),
    ]));
}

#[test]
fn condition_must_be_an_int() {
    let then = || Box::new(Statement::Compound(vec![Statement::Return(one())]));
    assert!(int_main(vec![Statement::If(one(), then())]));
    assert!(!int_main(vec![Statement::If(constant(Constant::Float), then())]));
    assert!(int_main(vec![Statement::While(one(), then())]));
    assert!(!int_main(vec![Statement::While(constant(Constant::Character), then())]));
    assert!(int_main(vec![Statement::IfElse(one(), then(), then())]));
    assert!(!int_main(vec![Statement::IfElse(constant(Constant::Float), then(), then())]));
}

#[test]
fn branches_must_be_well_typed() {
    let good = || Box::new(Statement::Return(one()));
    let bad = || Box::new(Statement::Return(constant(Constant::Float)));
    assert!(!int_main(vec![Statement::If(one(), bad())]));
    assert!(!int_main(vec![Statement::While(one(), bad())]));
    assert!(!int_main(vec![Statement::IfElse(one(), good(), bad())]));
    assert!(!int_main(vec![Statement::IfElse(one(), bad(), good())]));
}

#[test]
fn call_must_fit_the_function() {
    let callee = || {
        function(
            TypeSpecifier::Float,
            "f",
            vec![(TypeSpecifier::Int, "a"), (TypeSpecifier::Char, "b")],
            vec![Statement::Return(constant(Constant::Float))],
        )
    };
    let caller = |args: Vec<Expression>| {
        function(
            TypeSpecifier::Int,
            "main",
            vec![],
            vec![declare(TypeSpecifier::Float, "x", call("f", args)), Statement::Return(one())],
        )
    };
    assert!(verdict(vec![callee(), caller(vec![one(), constant(Constant::Character)])]));
    // A function may be called before it is defined.
    assert!(verdict(vec![caller(vec![one(), constant(Constant::Character)]), callee()]));
    // Too few and too many arguments.
    assert!(!verdict(vec![callee(), caller(vec![one()])]));
    assert!(!verdict(vec![callee(), caller(vec![one(), constant(Constant::Character), one()])]));
    // An argument of another type.
    assert!(!verdict(vec![callee(), caller(vec![one(), one()])]));
    // No function of the name.
    assert!(!verdict(vec![caller(vec![one(), constant(Constant::Character)])]));
    // Two functions of the name.
    assert!(!verdict(vec![callee(), callee(), caller(vec![one(), constant(Constant::Character)])]));
}

#[test]
fn expression_is_a_statement_where_it_has_a_type() {
    assert!(int_main(vec![Statement::Expression(binary(one(), one())), Statement::Return(one())]));
    assert!(!int_main(vec![
        Statement::Expression(binary(one(), constant(Constant::Float))),
        Statement::Return(one()),
    ]));
    assert!(!int_main(vec![Statement::Expression(call("g", vec![])), Statement::Return(one())]));
}

#[test]
fn one_ill_typed_function_spoils_the_program() {
    let good = function(TypeSpecifier::Int, "g", vec![], vec![Statement::Return(one())]);
    let bad = function(TypeSpecifier::Void, "b", vec![], vec![Statement::Return(one())]);
    assert!(!verdict(vec![good, bad]));
}

#[test]
fn literal_types() {
    assert_eq!(type_check_literal(&AstRelation::Void { id: 1 }), Type::VoidType);
    assert_eq!(type_check_literal(&AstRelation::Int { id: 1 }), Type::IntType);
    assert_eq!(type_check_literal(&AstRelation::Float { id: 1 }), Type::FloatType);
    assert_eq!(type_check_literal(&AstRelation::Char { id: 1 }), Type::CharType);
    assert_eq!(
        type_check_literal(&AstRelation::Var { id: 1, var_name: String::from("x") }),
        Type::ErrorType
    );
}

#[test]
fn lookups() {
    let env = vec![
        VarType { name: String::from("x"), ty: Type::IntType },
        VarType { name: String::from("y"), ty: Type::CharType },
        VarType { name: String::from("x"), ty: Type::FloatType },
    ];
    assert_eq!(lookup_variable(&env, &String::from("x")), Type::FloatType);
    assert_eq!(lookup_variable(&env, &String::from("y")), Type::CharType);
    assert_eq!(lookup_variable(&env, &String::from("z")), Type::ErrorType);
    let fun = |name: &str| FunType {
        name: String::from(name),
        return_type: Type::IntType,
        arg_types: vec![],
    };
    let funs = vec![fun("f"), fun("g"), fun("f")];
    assert_eq!(lookup_function(&funs, &String::from("g")), Some(1));
    assert_eq!(lookup_function(&funs, &String::from("f")), None);
    assert_eq!(lookup_function(&funs, &String::from("h")), None);
}
