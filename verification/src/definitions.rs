//! The relation model: one flat record for each kind of node of the program
//! tree, and the mathematical view that the contracts of this crate speak of.

use vstd::prelude::*;
use vstd::std_specs::cmp::PartialEqSpecImpl;

verus! {

/// Identity of a node. It is unique within a tree; `0` stands for "unset".
pub type ID = i32;

/// What can go wrong in one round of the pipeline.
#[derive(Clone, Copy, PartialEq, Eq, Structural, Debug)]
pub enum InternalError {
    /// The parser could not produce a tree.
    ParseError,
    /// The program holds a construct outside the supported node kinds.
    UnsupportedConstruct,
    /// A tree invariant is found broken, such as a dangling identity.
    InvariantViolation,
    /// The program is not well typed. This is the ordinary negative verdict;
    /// no function of this crate returns it as a failure.
    TypingError,
}

/// The tag of a relation.
#[derive(Clone, Copy, PartialEq, Eq, Structural, Debug, Hash)]
pub enum RelationKind {
    TransUnit,
    FunDef,
    FunCall,
    Assign,
    Return,
    If,
    IfElse,
    While,
    Compound,
    Item,
    EndItem,
    BinaryOp,
    Var,
    Arg,
    Void,
    Int,
    Float,
    Char,
}

/// The permitted language constructs, each as a flat record.
#[derive(Debug, Hash)]
pub enum AstRelation {
    TransUnit { id: ID, body_ids: Vec<ID> },
    // Declarations.
    FunDef { id: ID, fun_name: String, return_type_id: ID, arg_ids: Vec<ID>, body_id: ID },
    // Statements.
    FunCall { id: ID, fun_name: String, arg_ids: Vec<ID> },
    Assign { id: ID, var_name: String, type_id: ID, expr_id: ID },
    Return { id: ID, expr_id: ID },
    If { id: ID, cond_id: ID, then_id: ID },
    IfElse { id: ID, cond_id: ID, then_id: ID, else_id: ID },
    While { id: ID, cond_id: ID, body_id: ID },
    // Items in a compound, which represent a sequence of statements.
    Compound { id: ID, start_id: ID },
    Item { id: ID, stmt_id: ID, next_stmt_id: ID },
    EndItem { id: ID, stmt_id: ID },
    // Expressions.
    BinaryOp { id: ID, arg1_id: ID, arg2_id: ID },
    // Values.
    Var { id: ID, var_name: String },
    Arg { id: ID, var_name: String, type_id: ID },
    // Leaf types.
    Void { id: ID },
    Int { id: ID },
    Float { id: ID },
    Char { id: ID },
}

/// A relation as a mathematical value: its tag, its identity, its name (empty
/// where the kind has none) and its identity-valued fields in field order.
/// Two relations are equal exactly when their views are.
pub struct RelationView {
    pub kind: RelationKind,
    pub id: ID,
    pub name: Seq<char>,
    pub children: Seq<ID>,
}

/// The four leaf types.
pub open spec fn is_type_kind(kind: RelationKind) -> bool {
    kind == RelationKind::Void || kind == RelationKind::Int || kind == RelationKind::Float
        || kind == RelationKind::Char
}

/// The two cells of a statement list.
pub open spec fn is_cell_kind(kind: RelationKind) -> bool {
    kind == RelationKind::Item || kind == RelationKind::EndItem
}

/// The kinds that may stand where a statement or an expression is expected.
pub open spec fn is_statement_kind(kind: RelationKind) -> bool {
    kind != RelationKind::TransUnit && kind != RelationKind::FunDef && kind != RelationKind::Arg
        && !is_cell_kind(kind)
}

/// The kinds that carry a name.
pub open spec fn is_named_kind(kind: RelationKind) -> bool {
    kind == RelationKind::FunDef || kind == RelationKind::FunCall || kind == RelationKind::Assign
        || kind == RelationKind::Var || kind == RelationKind::Arg
}

/// Whether `n` identity-valued fields fit a relation of this kind.
pub open spec fn arity_fits(kind: RelationKind, n: nat) -> bool {
    match kind {
        RelationKind::TransUnit | RelationKind::FunCall => true,
        RelationKind::FunDef => n >= 2,
        RelationKind::IfElse => n == 3,
        RelationKind::Assign | RelationKind::If | RelationKind::While | RelationKind::Item
        | RelationKind::BinaryOp => n == 2,
        RelationKind::Return | RelationKind::Compound | RelationKind::EndItem
        | RelationKind::Arg => n == 1,
        RelationKind::Var | RelationKind::Void | RelationKind::Int | RelationKind::Float
        | RelationKind::Char => n == 0,
    }
}

impl RelationView {
    /// What holds of the view of every relation: the number of its children
    /// fits its kind, and only a named kind has a name.
    pub open spec fn well_formed(self) -> bool {
        &&& arity_fits(self.kind, self.children.len())
        &&& !is_named_kind(self.kind) ==> self.name == Seq::<char>::empty()
    }
}

impl View for AstRelation {
    type V = RelationView;

    open spec fn view(&self) -> RelationView {
        match *self {
            AstRelation::TransUnit { id, body_ids } => RelationView {
                kind: RelationKind::TransUnit,
                id,
                name: Seq::empty(),
                children: body_ids@,
            },
            AstRelation::FunDef { id, fun_name, return_type_id, arg_ids, body_id } => RelationView {
                kind: RelationKind::FunDef,
                id,
                name: fun_name@,
                children: seq![return_type_id] + arg_ids@ + seq![body_id],
            },
            AstRelation::FunCall { id, fun_name, arg_ids } => RelationView {
                kind: RelationKind::FunCall,
                id,
                name: fun_name@,
                children: arg_ids@,
            },
            AstRelation::Assign { id, var_name, type_id, expr_id } => RelationView {
                kind: RelationKind::Assign,
                id,
                name: var_name@,
                children: seq![type_id, expr_id],
            },
            AstRelation::Return { id, expr_id } => RelationView {
                kind: RelationKind::Return,
                id,
                name: Seq::empty(),
                children: seq![expr_id],
            },
            AstRelation::If { id, cond_id, then_id } => RelationView {
                kind: RelationKind::If,
                id,
                name: Seq::empty(),
                children: seq![cond_id, then_id],
            },
            AstRelation::IfElse { id, cond_id, then_id, else_id } => RelationView {
                kind: RelationKind::IfElse,
                id,
                name: Seq::empty(),
                children: seq![cond_id, then_id, else_id],
            },
            AstRelation::While { id, cond_id, body_id } => RelationView {
                kind: RelationKind::While,
                id,
                name: Seq::empty(),
                children: seq![cond_id, body_id],
            },
            AstRelation::Compound { id, start_id } => RelationView {
                kind: RelationKind::Compound,
                id,
                name: Seq::empty(),
                children: seq![start_id],
            },
            AstRelation::Item { id, stmt_id, next_stmt_id } => RelationView {
                kind: RelationKind::Item,
                id,
                name: Seq::empty(),
                children: seq![stmt_id, next_stmt_id],
            },
            AstRelation::EndItem { id, stmt_id } => RelationView {
                kind: RelationKind::EndItem,
                id,
                name: Seq::empty(),
                children: seq![stmt_id],
            },
            AstRelation::BinaryOp { id, arg1_id, arg2_id } => RelationView {
                kind: RelationKind::BinaryOp,
                id,
                name: Seq::empty(),
                children: seq![arg1_id, arg2_id],
            },
            AstRelation::Var { id, var_name } => RelationView {
                kind: RelationKind::Var,
                id,
                name: var_name@,
                children: Seq::empty(),
            },
            AstRelation::Arg { id, var_name, type_id } => RelationView {
                kind: RelationKind::Arg,
                id,
                name: var_name@,
                children: seq![type_id],
            },
            AstRelation::Void { id } => RelationView {
                kind: RelationKind::Void,
                id,
                name: Seq::empty(),
                children: Seq::empty(),
            },
            AstRelation::Int { id } => RelationView {
                kind: RelationKind::Int,
                id,
                name: Seq::empty(),
                children: Seq::empty(),
            },
            AstRelation::Float { id } => RelationView {
                kind: RelationKind::Float,
                id,
                name: Seq::empty(),
                children: Seq::empty(),
            },
            AstRelation::Char { id } => RelationView {
                kind: RelationKind::Char,
                id,
                name: Seq::empty(),
                children: Seq::empty(),
            },
        }
    }
}

/// A copy of a list of identities.
pub fn copy_ids(ids: &Vec<ID>) -> (out: Vec<ID>)
    ensures
        out@ == ids@,
{
    let mut out: Vec<ID> = Vec::new();
    let mut i: usize = 0;
    while i < ids.len()
        invariant
            i <= ids.len(),
            out@ == ids@.subrange(0, i as int),
        decreases ids.len() - i,
    {
        out.push(ids[i]);
        assert(out@ == ids@.subrange(0, i + 1));
        i += 1;
    }
    assert(out@ == ids@);
    out
}

/// Whether two lists of identities are equal.
pub fn same_ids(a: &Vec<ID>, b: &Vec<ID>) -> (same: bool)
    ensures
        same == (a@ == b@),
{
    if a.len() != b.len() {
        return false;
    }
    let mut i: usize = 0;
    while i < a.len()
        invariant
            a.len() == b.len(),
            i <= a.len(),
            a@.subrange(0, i as int) == b@.subrange(0, i as int),
        decreases a.len() - i,
    {
        if a[i] != b[i] {
            return false;
        }
        assert(a@.subrange(0, i + 1) == a@.subrange(0, i as int).push(a@[i as int]));
        assert(b@.subrange(0, i + 1) == b@.subrange(0, i as int).push(b@[i as int]));
        i += 1;
    }
    assert(a@ == a@.subrange(0, a.len() as int));
    assert(b@ == b@.subrange(0, b.len() as int));
    true
}

impl Clone for AstRelation {
    fn clone(&self) -> (out: Self)
        ensures
            out@ == self@,
    {
        match self {
            AstRelation::TransUnit { id, body_ids } => AstRelation::TransUnit {
                id: *id,
                body_ids: copy_ids(body_ids),
            },
            AstRelation::FunDef { id, fun_name, return_type_id, arg_ids, body_id } => AstRelation::FunDef {
                id: *id,
                fun_name: fun_name.clone(),
                return_type_id: *return_type_id,
                arg_ids: copy_ids(arg_ids),
                body_id: *body_id,
            },
            AstRelation::FunCall { id, fun_name, arg_ids } => AstRelation::FunCall {
                id: *id,
                fun_name: fun_name.clone(),
                arg_ids: copy_ids(arg_ids),
            },
            AstRelation::Assign { id, var_name, type_id, expr_id } => AstRelation::Assign {
                id: *id,
                var_name: var_name.clone(),
                type_id: *type_id,
                expr_id: *expr_id,
            },
            AstRelation::Return { id, expr_id } => AstRelation::Return { id: *id, expr_id: *expr_id },
            AstRelation::If { id, cond_id, then_id } => AstRelation::If {
                id: *id,
                cond_id: *cond_id,
                then_id: *then_id,
            },
            AstRelation::IfElse { id, cond_id, then_id, else_id } => AstRelation::IfElse {
                id: *id,
                cond_id: *cond_id,
                then_id: *then_id,
                else_id: *else_id,
            },
            AstRelation::While { id, cond_id, body_id } => AstRelation::While {
                id: *id,
                cond_id: *cond_id,
                body_id: *body_id,
            },
            AstRelation::Compound { id, start_id } => AstRelation::Compound {
                id: *id,
                start_id: *start_id,
            },
            AstRelation::Item { id, stmt_id, next_stmt_id } => AstRelation::Item {
                id: *id,
                stmt_id: *stmt_id,
                next_stmt_id: *next_stmt_id,
            },
            AstRelation::EndItem { id, stmt_id } => AstRelation::EndItem { id: *id, stmt_id: *stmt_id },
            AstRelation::BinaryOp { id, arg1_id, arg2_id } => AstRelation::BinaryOp {
                id: *id,
                arg1_id: *arg1_id,
                arg2_id: *arg2_id,
            },
            AstRelation::Var { id, var_name } => AstRelation::Var {
                id: *id,
                var_name: var_name.clone(),
            },
            AstRelation::Arg { id, var_name, type_id } => AstRelation::Arg {
                id: *id,
                var_name: var_name.clone(),
                type_id: *type_id,
            },
            AstRelation::Void { id } => AstRelation::Void { id: *id },
            AstRelation::Int { id } => AstRelation::Int { id: *id },
            AstRelation::Float { id } => AstRelation::Float { id: *id },
            AstRelation::Char { id } => AstRelation::Char { id: *id },
        }
    }
}

impl PartialEq for AstRelation {
    fn eq(&self, other: &Self) -> (same: bool) {
        match (self, other) {
            (
                AstRelation::TransUnit { id: a, body_ids: ka },
                AstRelation::TransUnit { id: b, body_ids: kb },
            ) => *a == *b && same_ids(ka, kb),
            (
                AstRelation::FunDef { id: a, fun_name: na, return_type_id: ra, arg_ids: ka, body_id: ba },
                AstRelation::FunDef { id: b, fun_name: nb, return_type_id: rb, arg_ids: kb, body_id: bb },
            ) => {
                let same = *a == *b && *na == *nb && *ra == *rb && same_ids(ka, kb) && *ba == *bb;
                proof {
                    lemma_fun_def_children(*ra, ka@, *ba, *rb, kb@, *bb);
                }
                same
            },
            (
                AstRelation::FunCall { id: a, fun_name: na, arg_ids: ka },
                AstRelation::FunCall { id: b, fun_name: nb, arg_ids: kb },
            ) => *a == *b && *na == *nb && same_ids(ka, kb),
            (
                AstRelation::Assign { id: a, var_name: na, type_id: ta, expr_id: ea },
                AstRelation::Assign { id: b, var_name: nb, type_id: tb, expr_id: eb },
            ) => {
                assert(seq![*ta, *ea][0] == *ta && seq![*ta, *ea][1] == *ea);
                assert(seq![*tb, *eb][0] == *tb && seq![*tb, *eb][1] == *eb);
                *a == *b && *na == *nb && *ta == *tb && *ea == *eb
            },
            (
                AstRelation::Return { id: a, expr_id: ea },
                AstRelation::Return { id: b, expr_id: eb },
            ) => {
                assert(seq![*ea][0] == *ea && seq![*eb][0] == *eb);
                *a == *b && *ea == *eb
            },
            (
                AstRelation::If { id: a, cond_id: ca, then_id: ta },
                AstRelation::If { id: b, cond_id: cb, then_id: tb },
            ) => {
                assert(seq![*ca, *ta][0] == *ca && seq![*ca, *ta][1] == *ta);
                assert(seq![*cb, *tb][0] == *cb && seq![*cb, *tb][1] == *tb);
                *a == *b && *ca == *cb && *ta == *tb
            },
            (
                AstRelation::IfElse { id: a, cond_id: ca, then_id: ta, else_id: ea },
                AstRelation::IfElse { id: b, cond_id: cb, then_id: tb, else_id: eb },
            ) => {
                assert(seq![*ca, *ta, *ea][0] == *ca && seq![*ca, *ta, *ea][1] == *ta
                    && seq![*ca, *ta, *ea][2] == *ea);
                assert(seq![*cb, *tb, *eb][0] == *cb && seq![*cb, *tb, *eb][1] == *tb
                    && seq![*cb, *tb, *eb][2] == *eb);
                *a == *b && *ca == *cb && *ta == *tb && *ea == *eb
            },
            (
                AstRelation::While { id: a, cond_id: ca, body_id: ta },
                AstRelation::While { id: b, cond_id: cb, body_id: tb },
            ) => {
                assert(seq![*ca, *ta][0] == *ca && seq![*ca, *ta][1] == *ta);
                assert(seq![*cb, *tb][0] == *cb && seq![*cb, *tb][1] == *tb);
                *a == *b && *ca == *cb && *ta == *tb
            },
            (
                AstRelation::Compound { id: a, start_id: sa },
                AstRelation::Compound { id: b, start_id: sb },
            ) => {
                assert(seq![*sa][0] == *sa && seq![*sb][0] == *sb);
                *a == *b && *sa == *sb
            },
            (
                AstRelation::Item { id: a, stmt_id: sa, next_stmt_id: xa },
                AstRelation::Item { id: b, stmt_id: sb, next_stmt_id: xb },
            ) => {
                assert(seq![*sa, *xa][0] == *sa && seq![*sa, *xa][1] == *xa);
                assert(seq![*sb, *xb][0] == *sb && seq![*sb, *xb][1] == *xb);
                *a == *b && *sa == *sb && *xa == *xb
            },
            (
                AstRelation::EndItem { id: a, stmt_id: sa },
                AstRelation::EndItem { id: b, stmt_id: sb },
            ) => {
                assert(seq![*sa][0] == *sa && seq![*sb][0] == *sb);
                *a == *b && *sa == *sb
            },
            (
                AstRelation::BinaryOp { id: a, arg1_id: sa, arg2_id: xa },
                AstRelation::BinaryOp { id: b, arg1_id: sb, arg2_id: xb },
            ) => {
                assert(seq![*sa, *xa][0] == *sa && seq![*sa, *xa][1] == *xa);
                assert(seq![*sb, *xb][0] == *sb && seq![*sb, *xb][1] == *xb);
                *a == *b && *sa == *sb && *xa == *xb
            },
            (
                AstRelation::Var { id: a, var_name: na },
                AstRelation::Var { id: b, var_name: nb },
            ) => *a == *b && *na == *nb,
            (
                AstRelation::Arg { id: a, var_name: na, type_id: ta },
                AstRelation::Arg { id: b, var_name: nb, type_id: tb },
            ) => {
                assert(seq![*ta][0] == *ta && seq![*tb][0] == *tb);
                *a == *b && *na == *nb && *ta == *tb
            },
            (AstRelation::Void { id: a }, AstRelation::Void { id: b }) => *a == *b,
            (AstRelation::Int { id: a }, AstRelation::Int { id: b }) => *a == *b,
            (AstRelation::Float { id: a }, AstRelation::Float { id: b }) => *a == *b,
            (AstRelation::Char { id: a }, AstRelation::Char { id: b }) => *a == *b,
            (_, _) => false,
        }
    }
}

impl PartialEqSpecImpl for AstRelation {
    open spec fn obeys_eq_spec() -> bool {
        true
    }

    open spec fn eq_spec(&self, other: &AstRelation) -> bool {
        self@ == other@
    }
}

impl Eq for AstRelation {

}

impl AstRelation {
    /// The tag of this relation.
    pub fn kind(&self) -> (kind: RelationKind)
        ensures
            kind == self@.kind,
    {
        match self {
            AstRelation::TransUnit { .. } => RelationKind::TransUnit,
            AstRelation::FunDef { .. } => RelationKind::FunDef,
            AstRelation::FunCall { .. } => RelationKind::FunCall,
            AstRelation::Assign { .. } => RelationKind::Assign,
            AstRelation::Return { .. } => RelationKind::Return,
            AstRelation::If { .. } => RelationKind::If,
            AstRelation::IfElse { .. } => RelationKind::IfElse,
            AstRelation::While { .. } => RelationKind::While,
            AstRelation::Compound { .. } => RelationKind::Compound,
            AstRelation::Item { .. } => RelationKind::Item,
            AstRelation::EndItem { .. } => RelationKind::EndItem,
            AstRelation::BinaryOp { .. } => RelationKind::BinaryOp,
            AstRelation::Var { .. } => RelationKind::Var,
            AstRelation::Arg { .. } => RelationKind::Arg,
            AstRelation::Void { .. } => RelationKind::Void,
            AstRelation::Int { .. } => RelationKind::Int,
            AstRelation::Float { .. } => RelationKind::Float,
            AstRelation::Char { .. } => RelationKind::Char,
        }
    }

    /// The identity-valued fields of this relation, in field order.
    pub fn child_ids(&self) -> (ids: Vec<ID>)
        ensures
            ids@ == self@.children,
    {
        let mut ids: Vec<ID> = Vec::new();
        match self {
            AstRelation::TransUnit { body_ids, .. } => {
                ids = copy_ids(body_ids);
            },
            AstRelation::FunDef { return_type_id, arg_ids, body_id, .. } => {
                ids.push(*return_type_id);
                let mut i: usize = 0;
                while i < arg_ids.len()
                    invariant
                        i <= arg_ids.len(),
                        ids@ == seq![*return_type_id] + arg_ids@.subrange(0, i as int),
                    decreases arg_ids.len() - i,
                {
                    ids.push(arg_ids[i]);
                    assert(arg_ids@.subrange(0, i + 1) == arg_ids@.subrange(0, i as int).push(
                        arg_ids@[i as int],
                    ));
                    i += 1;
                }
                assert(arg_ids@.subrange(0, arg_ids.len() as int) == arg_ids@);
                ids.push(*body_id);
            },
            AstRelation::FunCall { arg_ids, .. } => {
                ids = copy_ids(arg_ids);
            },
            AstRelation::Assign { type_id, expr_id, .. } => {
                ids.push(*type_id);
                ids.push(*expr_id);
            },
            AstRelation::Return { expr_id, .. } => {
                ids.push(*expr_id);
            },
            AstRelation::If { cond_id, then_id, .. } => {
                ids.push(*cond_id);
                ids.push(*then_id);
            },
            AstRelation::IfElse { cond_id, then_id, else_id, .. } => {
                ids.push(*cond_id);
                ids.push(*then_id);
                ids.push(*else_id);
            },
            AstRelation::While { cond_id, body_id, .. } => {
                ids.push(*cond_id);
                ids.push(*body_id);
            },
            AstRelation::Compound { start_id, .. } => {
                ids.push(*start_id);
            },
            AstRelation::Item { stmt_id, next_stmt_id, .. } => {
                ids.push(*stmt_id);
                ids.push(*next_stmt_id);
            },
            AstRelation::EndItem { stmt_id, .. } => {
                ids.push(*stmt_id);
            },
            AstRelation::BinaryOp { arg1_id, arg2_id, .. } => {
                ids.push(*arg1_id);
                ids.push(*arg2_id);
            },
            AstRelation::Arg { type_id, .. } => {
                ids.push(*type_id);
            },
            AstRelation::Var { .. } | AstRelation::Void { .. } | AstRelation::Int { .. }
            | AstRelation::Float { .. } | AstRelation::Char { .. } => {},
        }
        assert(ids@ =~= self@.children);
        ids
    }

    /// Whether two relations have the same tag and the same name.
    pub fn same_label(&self, other: &AstRelation) -> (same: bool)
        ensures
            same == (self@.kind == other@.kind && self@.name == other@.name),
    {
        match (self, other) {
            (AstRelation::TransUnit { .. }, AstRelation::TransUnit { .. }) => true,
            (
                AstRelation::FunDef { fun_name: a, .. },
                AstRelation::FunDef { fun_name: b, .. },
            ) => *a == *b,
            (
                AstRelation::FunCall { fun_name: a, .. },
                AstRelation::FunCall { fun_name: b, .. },
            ) => *a == *b,
            (
                AstRelation::Assign { var_name: a, .. },
                AstRelation::Assign { var_name: b, .. },
            ) => *a == *b,
            (AstRelation::Return { .. }, AstRelation::Return { .. }) => true,
            (AstRelation::If { .. }, AstRelation::If { .. }) => true,
            (AstRelation::IfElse { .. }, AstRelation::IfElse { .. }) => true,
            (AstRelation::While { .. }, AstRelation::While { .. }) => true,
            (AstRelation::Compound { .. }, AstRelation::Compound { .. }) => true,
            (AstRelation::Item { .. }, AstRelation::Item { .. }) => true,
            (AstRelation::EndItem { .. }, AstRelation::EndItem { .. }) => true,
            (AstRelation::BinaryOp { .. }, AstRelation::BinaryOp { .. }) => true,
            (AstRelation::Var { var_name: a, .. }, AstRelation::Var { var_name: b, .. }) => *a
                == *b,
            (AstRelation::Arg { var_name: a, .. }, AstRelation::Arg { var_name: b, .. }) => *a
                == *b,
            (AstRelation::Void { .. }, AstRelation::Void { .. }) => true,
            (AstRelation::Int { .. }, AstRelation::Int { .. }) => true,
            (AstRelation::Float { .. }, AstRelation::Float { .. }) => true,
            (AstRelation::Char { .. }, AstRelation::Char { .. }) => true,
            (_, _) => false,
        }
    }

    /// The relation of the same tag and name with another identity and other
    /// identity-valued fields, given in field order.
    pub fn with_ids(&self, id: ID, children: &Vec<ID>) -> (out: AstRelation)
        requires
            arity_fits(self@.kind, children@.len()),
        ensures
            out@ == (RelationView {
                kind: self@.kind,
                id,
                name: self@.name,
                children: children@,
            }),
    {
        let out = match self {
            AstRelation::TransUnit { .. } => AstRelation::TransUnit {
                id,
                body_ids: copy_ids(children),
            },
            AstRelation::FunDef { fun_name, .. } => {
                let last = children.len() - 1;
                let mut arg_ids: Vec<ID> = Vec::new();
                let mut i: usize = 1;
                while i < last
                    invariant
                        1 <= i <= last,
                        last == children.len() - 1,
                        arg_ids@ == children@.subrange(1, i as int),
                    decreases last - i,
                {
                    arg_ids.push(children[i]);
                    assert(children@.subrange(1, i + 1) == children@.subrange(1, i as int).push(
                        children@[i as int],
                    ));
                    i += 1;
                }
                assert(seq![children@[0]] + children@.subrange(1, last as int) + seq![
                    children@[last as int],
                ] =~= children@);
                AstRelation::FunDef {
                    id,
                    fun_name: fun_name.clone(),
                    return_type_id: children[0],
                    arg_ids,
                    body_id: children[last],
                }
            },
            AstRelation::FunCall { fun_name, .. } => AstRelation::FunCall {
                id,
                fun_name: fun_name.clone(),
                arg_ids: copy_ids(children),
            },
            AstRelation::Assign { var_name, .. } => AstRelation::Assign {
                id,
                var_name: var_name.clone(),
                type_id: children[0],
                expr_id: children[1],
            },
            AstRelation::Return { .. } => AstRelation::Return { id, expr_id: children[0] },
            AstRelation::If { .. } => AstRelation::If {
                id,
                cond_id: children[0],
                then_id: children[1],
            },
            AstRelation::IfElse { .. } => AstRelation::IfElse {
                id,
                cond_id: children[0],
                then_id: children[1],
                else_id: children[2],
            },
            AstRelation::While { .. } => AstRelation::While {
                id,
                cond_id: children[0],
                body_id: children[1],
            },
            AstRelation::Compound { .. } => AstRelation::Compound { id, start_id: children[0] },
            AstRelation::Item { .. } => AstRelation::Item {
                id,
                stmt_id: children[0],
                next_stmt_id: children[1],
            },
            AstRelation::EndItem { .. } => AstRelation::EndItem { id, stmt_id: children[0] },
            AstRelation::BinaryOp { .. } => AstRelation::BinaryOp {
                id,
                arg1_id: children[0],
                arg2_id: children[1],
            },
            AstRelation::Var { var_name, .. } => AstRelation::Var {
                id,
                var_name: var_name.clone(),
            },
            AstRelation::Arg { var_name, .. } => AstRelation::Arg {
                id,
                var_name: var_name.clone(),
                type_id: children[0],
            },
            AstRelation::Void { .. } => AstRelation::Void { id },
            AstRelation::Int { .. } => AstRelation::Int { id },
            AstRelation::Float { .. } => AstRelation::Float { id },
            AstRelation::Char { .. } => AstRelation::Char { id },
        };
        assert(out@.children =~= children@);
        out
    }

    /// The relation of a kind, with a name where the kind has one, an
    /// identity and identity-valued fields in field order.
    pub fn make(kind: RelationKind, name: String, id: ID, children: &Vec<ID>) -> (out: AstRelation)
        requires
            arity_fits(kind, children@.len()),
        ensures
            out@ == (RelationView {
                kind,
                id,
                name: if is_named_kind(kind) {
                    name@
                } else {
                    Seq::empty()
                },
                children: children@,
            }),
    {
        let pattern = match kind {
            RelationKind::TransUnit => AstRelation::TransUnit { id, body_ids: Vec::new() },
            RelationKind::FunDef => AstRelation::FunDef {
                id,
                fun_name: name,
                return_type_id: id,
                arg_ids: Vec::new(),
                body_id: id,
            },
            RelationKind::FunCall => AstRelation::FunCall {
                id,
                fun_name: name,
                arg_ids: Vec::new(),
            },
            RelationKind::Assign => AstRelation::Assign {
                id,
                var_name: name,
                type_id: id,
                expr_id: id,
            },
            RelationKind::Return => AstRelation::Return { id, expr_id: id },
            RelationKind::If => AstRelation::If { id, cond_id: id, then_id: id },
            RelationKind::IfElse => AstRelation::IfElse {
                id,
                cond_id: id,
                then_id: id,
                else_id: id,
            },
            RelationKind::While => AstRelation::While { id, cond_id: id, body_id: id },
            RelationKind::Compound => AstRelation::Compound { id, start_id: id },
            RelationKind::Item => AstRelation::Item { id, stmt_id: id, next_stmt_id: id },
            RelationKind::EndItem => AstRelation::EndItem { id, stmt_id: id },
            RelationKind::BinaryOp => AstRelation::BinaryOp { id, arg1_id: id, arg2_id: id },
            RelationKind::Var => AstRelation::Var { id, var_name: name },
            RelationKind::Arg => AstRelation::Arg { id, var_name: name, type_id: id },
            RelationKind::Void => AstRelation::Void { id },
            RelationKind::Int => AstRelation::Int { id },
            RelationKind::Float => AstRelation::Float { id },
            RelationKind::Char => AstRelation::Char { id },
        };
        pattern.with_ids(id, children)
    }

    /// The view of every relation is well formed.
    pub proof fn lemma_view_well_formed(&self)
        ensures
            self@.well_formed(),
    {
    }
}

/// The children of a function definition determine its three parts.
pub proof fn lemma_fun_def_children(r1: ID, a1: Seq<ID>, b1: ID, r2: ID, a2: Seq<ID>, b2: ID)
    ensures
        (seq![r1] + a1 + seq![b1] == seq![r2] + a2 + seq![b2]) <==> (r1 == r2 && a1 == a2 && b1
            == b2),
{
    let s1 = seq![r1] + a1 + seq![b1];
    let s2 = seq![r2] + a2 + seq![b2];
    if s1 == s2 {
        assert(s1.len() == a1.len() + 2);
        assert(s2.len() == a2.len() + 2);
        assert(s1[0] == r1 && s2[0] == r2);
        assert(s1[a1.len() as int + 1] == b1 && s2[a2.len() as int + 1] == b2);
        assert forall|i: int| 0 <= i < a1.len() implies a1[i] == a2[i] by {
            assert(s1[i + 1] == a1[i]);
            assert(s2[i + 1] == a2[i]);
        }
        assert(a1 =~= a2);
    }
}

} // verus!
