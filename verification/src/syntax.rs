//! The syntax that a parser hands over: the supported subset of C as plain
//! values, and the shape of the tree that stands for it.

use crate::definitions::RelationKind;
use crate::term::Shape;
use vstd::prelude::*;

verus! {

/// A type specifier.
#[derive(Debug, Clone, Copy, PartialEq, Eq, Structural)]
pub enum TypeSpecifier {
    Void,
    Int,
    Float,
    Char,
}

/// A constant. Its value does not matter to its type.
#[derive(Debug, Clone, Copy, PartialEq, Eq, Structural)]
pub enum Constant {
    Integer,
    Float,
    Character,
}

/// A binary operator.
#[derive(Debug, Clone, Copy, PartialEq, Eq, Structural)]
pub enum BinaryOperator {
    Index,
    Multiply,
    Divide,
    Modulo,
    Plus,
    Minus,
    ShiftLeft,
    ShiftRight,
    Less,
    Greater,
    LessOrEqual,
    GreaterOrEqual,
    Equals,
    NotEquals,
    BitwiseAnd,
    BitwiseXor,
    BitwiseOr,
    LogicalAnd,
    LogicalOr,
    Assign,
    AssignMultiply,
    AssignDivide,
    AssignModulo,
    AssignPlus,
    AssignMinus,
    AssignShiftLeft,
    AssignShiftRight,
    AssignBitwiseAnd,
    AssignBitwiseXor,
    AssignBitwiseOr,
}

/// An expression.
#[derive(Debug)]
pub enum Expression {
    Identifier(String),
    Constant(Constant),
    Call(String, Vec<Expression>),
    BinaryOperator(BinaryOperator, Box<Expression>, Box<Expression>),
}

/// A statement. A declaration declares one variable and initialises it.
#[derive(Debug)]
pub enum Statement {
    Compound(Vec<Statement>),
    Declaration(TypeSpecifier, String, Expression),
    Expression(Expression),
    Return(Expression),
    If(Expression, Box<Statement>),
    IfElse(Expression, Box<Statement>, Box<Statement>),
    While(Expression, Box<Statement>),
}

/// A formal parameter.
#[derive(Debug)]
pub struct ParameterDeclaration {
    pub specifier: TypeSpecifier,
    pub name: String,
}

/// A function definition. `body` holds the statements of its block.
#[derive(Debug)]
pub struct FunctionDefinition {
    pub specifier: TypeSpecifier,
    pub name: String,
    pub parameters: Vec<ParameterDeclaration>,
    pub body: Vec<Statement>,
}

/// A translation unit: function definitions in order.
#[derive(Debug)]
pub struct TranslationUnit {
    pub functions: Vec<FunctionDefinition>,
}

/// The kind of the leaf that stands for a type specifier.
pub open spec fn specifier_kind(specifier: TypeSpecifier) -> RelationKind {
    match specifier {
        TypeSpecifier::Void => RelationKind::Void,
        TypeSpecifier::Int => RelationKind::Int,
        TypeSpecifier::Float => RelationKind::Float,
        TypeSpecifier::Char => RelationKind::Char,
    }
}

/// The kind of the leaf that stands for a constant.
pub open spec fn constant_kind(constant: Constant) -> RelationKind {
    match constant {
        Constant::Integer => RelationKind::Int,
        Constant::Float => RelationKind::Float,
        Constant::Character => RelationKind::Char,
    }
}

/// The shape of the tree of an expression.
pub open spec fn expression_shape(e: Expression) -> Shape
    decreases e,
{
    match e {
        Expression::Identifier(name) => Shape {
            kind: RelationKind::Var,
            name: name@,
            kids: Seq::empty(),
        },
        Expression::Constant(constant) => Shape::leaf(constant_kind(constant)),
        Expression::Call(name, args) => Shape {
            kind: RelationKind::FunCall,
            name: name@,
            kids: Seq::new(
                args@.len(),
                |i: int|
                    if 0 <= i < args@.len() {
                        expression_shape(args@[i])
                    } else {
                        Shape::leaf(RelationKind::Void)
                    },
            ),
        },
        Expression::BinaryOperator(_, left, right) => Shape {
            kind: RelationKind::BinaryOp,
            name: Seq::empty(),
            kids: seq![expression_shape(*left), expression_shape(*right)],
        },
    }
}

/// The shape of the tree of a statement.
pub open spec fn statement_shape(s: Statement) -> Shape
    decreases s, 0nat,
{
    match s {
        Statement::Compound(items) => Shape {
            kind: RelationKind::Compound,
            name: Seq::empty(),
            kids: seq![items_shape(items@, 0)],
        },
        Statement::Declaration(specifier, name, init) => Shape {
            kind: RelationKind::Assign,
            name: name@,
            kids: seq![Shape::leaf(specifier_kind(specifier)), expression_shape(init)],
        },
        Statement::Expression(e) => expression_shape(e),
        Statement::Return(e) => Shape {
            kind: RelationKind::Return,
            name: Seq::empty(),
            kids: seq![expression_shape(e)],
        },
        Statement::If(cond, then) => Shape {
            kind: RelationKind::If,
            name: Seq::empty(),
            kids: seq![expression_shape(cond), statement_shape(*then)],
        },
        Statement::IfElse(cond, then, other) => Shape {
            kind: RelationKind::IfElse,
            name: Seq::empty(),
            kids: seq![expression_shape(cond), statement_shape(*then), statement_shape(*other)],
        },
        Statement::While(cond, body) => Shape {
            kind: RelationKind::While,
            name: Seq::empty(),
            kids: seq![expression_shape(cond), statement_shape(*body)],
        },
    }
}

/// The shape of the statement list that holds the statements from `from`
/// on: one cell for each statement, the last one an end cell.
pub open spec fn items_shape(items: Seq<Statement>, from: int) -> Shape
    decreases items, items.len() - from,
{
    if from < 0 || from >= items.len() {
        Shape::leaf(RelationKind::EndItem)
    } else if from == items.len() - 1 {
        Shape {
            kind: RelationKind::EndItem,
            name: Seq::empty(),
            kids: seq![statement_shape(items[from])],
        }
    } else {
        Shape {
            kind: RelationKind::Item,
            name: Seq::empty(),
            kids: seq![statement_shape(items[from]), items_shape(items, from + 1)],
        }
    }
}

/// The shape of the tree of a formal parameter.
pub open spec fn parameter_shape(p: ParameterDeclaration) -> Shape {
    Shape {
        kind: RelationKind::Arg,
        name: p.name@,
        kids: seq![Shape::leaf(specifier_kind(p.specifier))],
    }
}

/// The shape of the tree of a function definition: the return type, the
/// parameters, the body.
pub open spec fn function_shape(f: FunctionDefinition) -> Shape {
    Shape {
        kind: RelationKind::FunDef,
        name: f.name@,
        kids: seq![Shape::leaf(specifier_kind(f.specifier))] + Seq::new(
            f.parameters@.len(),
            |i: int| parameter_shape(f.parameters@[i]),
        ) + seq![
            Shape {
                kind: RelationKind::Compound,
                name: Seq::empty(),
                kids: seq![items_shape(f.body@, 0)],
            },
        ],
    }
}

/// The shape of the tree of a translation unit.
pub open spec fn unit_shape(unit: TranslationUnit) -> Shape {
    Shape {
        kind: RelationKind::TransUnit,
        name: Seq::empty(),
        kids: Seq::new(unit.functions@.len(), |i: int| function_shape(unit.functions@[i])),
    }
}

/// The operators that a tree can stand for: the four of arithmetic, the
/// comparisons but `!=`, the two of logic, and the plain assignment. The tree
/// does not tell them apart.
pub open spec fn operator_supported(operator: BinaryOperator) -> bool {
    match operator {
        BinaryOperator::Plus | BinaryOperator::Minus | BinaryOperator::Multiply
        | BinaryOperator::Divide | BinaryOperator::Greater | BinaryOperator::GreaterOrEqual
        | BinaryOperator::Less | BinaryOperator::LessOrEqual | BinaryOperator::Equals
        | BinaryOperator::LogicalAnd | BinaryOperator::LogicalOr | BinaryOperator::Assign => true,
        _ => false,
    }
}

/// An expression that a tree can stand for: every operator in it is
/// supported.
pub open spec fn expression_supported(e: Expression) -> bool
    decreases e,
{
    match e {
        Expression::Call(_, args) => forall|i: int|
            0 <= i < args@.len() ==> expression_supported(#[trigger] args@[i]),
        Expression::BinaryOperator(operator, left, right) => operator_supported(operator)
            && expression_supported(*left) && expression_supported(*right),
        _ => true,
    }
}

/// A statement that a tree can stand for: no block in it is empty, and
/// every operator in it is supported.
pub open spec fn statement_supported(s: Statement) -> bool
    decreases s,
{
    match s {
        Statement::Compound(items) => items@.len() > 0 && forall|i: int|
            0 <= i < items@.len() ==> statement_supported(#[trigger] items@[i]),
        Statement::Declaration(_, _, init) => expression_supported(init),
        Statement::Expression(e) => expression_supported(e),
        Statement::Return(e) => expression_supported(e),
        Statement::If(cond, then) => expression_supported(cond) && statement_supported(*then),
        Statement::IfElse(cond, then, other) => expression_supported(cond) && statement_supported(
            *then,
        ) && statement_supported(*other),
        Statement::While(cond, body) => expression_supported(cond) && statement_supported(*body),
    }
}

/// A function that a tree can stand for: no block in it is empty, and every
/// operator in it is supported.
pub open spec fn function_supported(f: FunctionDefinition) -> bool {
    f.body@.len() > 0 && forall|i: int|
        0 <= i < f.body@.len() ==> statement_supported(#[trigger] f.body@[i])
}

/// A translation unit that a tree can stand for.
pub open spec fn unit_supported(unit: TranslationUnit) -> bool {
    forall|i: int|
        0 <= i < unit.functions@.len() ==> function_supported(#[trigger] unit.functions@[i])
}

/// Whether a tree can stand for the operator.
pub fn is_operator_supported(operator: BinaryOperator) -> (ok: bool)
    ensures
        ok == operator_supported(operator),
{
    match operator {
        BinaryOperator::Plus => true,
        BinaryOperator::Minus => true,
        BinaryOperator::Multiply => true,
        BinaryOperator::Divide => true,
        BinaryOperator::Greater => true,
        BinaryOperator::GreaterOrEqual => true,
        BinaryOperator::Less => true,
        BinaryOperator::LessOrEqual => true,
        BinaryOperator::Equals => true,
        BinaryOperator::LogicalAnd => true,
        BinaryOperator::LogicalOr => true,
        BinaryOperator::Assign => true,
        _ => false,
    }
}

/// Whether every operator in an expression is supported.
pub fn is_expression_supported(e: &Expression) -> (ok: bool)
    ensures
        ok == expression_supported(*e),
    decreases e,
{
    match e {
        Expression::Call(_, args) => are_expressions_supported(args),
        Expression::BinaryOperator(operator, left, right) => is_operator_supported(*operator)
            && is_expression_supported(left) && is_expression_supported(right),
        _ => true,
    }
}

/// Whether every operator in a list of expressions is supported.
pub fn are_expressions_supported(args: &Vec<Expression>) -> (ok: bool)
    ensures
        ok == forall|i: int| 0 <= i < args@.len() ==> expression_supported(#[trigger] args@[i]),
    decreases args,
{
    let mut i: usize = 0;
    while i < args.len()
        invariant
            0 <= i <= args.len(),
            forall|j: int| 0 <= j < i ==> expression_supported(#[trigger] args@[j]),
        decreases args.len() - i,
    {
        if !is_expression_supported(&args[i]) {
            return false;
        }
        i += 1;
    }
    true
}

/// Whether no block in a statement is empty and every operator in it is
/// supported.
pub fn is_statement_supported(s: &Statement) -> (ok: bool)
    ensures
        ok == statement_supported(*s),
    decreases s,
{
    match s {
        Statement::Compound(items) => are_statements_supported(items),
        Statement::Declaration(_, _, init) => is_expression_supported(init),
        Statement::Expression(e) => is_expression_supported(e),
        Statement::Return(e) => is_expression_supported(e),
        Statement::If(cond, then) => is_expression_supported(cond) && is_statement_supported(then),
        Statement::IfElse(cond, then, other) => is_expression_supported(cond)
            && is_statement_supported(then) && is_statement_supported(other),
        Statement::While(cond, body) => is_expression_supported(cond) && is_statement_supported(
            body,
        ),
    }
}

/// Whether a block is not empty and every statement in it is supported.
pub fn are_statements_supported(items: &Vec<Statement>) -> (ok: bool)
    ensures
        ok == (items@.len() > 0 && forall|i: int|
            0 <= i < items@.len() ==> statement_supported(#[trigger] items@[i])),
    decreases items,
{
    if items.len() == 0 {
        return false;
    }
    let mut i: usize = 0;
    while i < items.len()
        invariant
            0 <= i <= items.len(),
            forall|j: int| 0 <= j < i ==> statement_supported(#[trigger] items@[j]),
        decreases items.len() - i,
    {
        if !is_statement_supported(&items[i]) {
            return false;
        }
        i += 1;
    }
    true
}

/// Whether a tree can stand for a translation unit.
pub fn is_unit_supported(unit: &TranslationUnit) -> (ok: bool)
    ensures
        ok == unit_supported(*unit),
{
    let mut i: usize = 0;
    while i < unit.functions.len()
        invariant
            0 <= i <= unit.functions.len(),
            forall|j: int| 0 <= j < i ==> function_supported(#[trigger] unit.functions@[j]),
        decreases unit.functions.len() - i,
    {
        if !are_statements_supported(&unit.functions[i].body) {
            return false;
        }
        i += 1;
    }
    true
}

} // verus!
