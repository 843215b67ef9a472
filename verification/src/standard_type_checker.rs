//! The baseline checker: one recursive walk of the tree that applies the
//! typing rules from scratch.

use crate::ast::{NodeView, Tree};
use crate::definitions::{AstRelation, RelationKind, RelationView, ID};
use crate::term::Term;
use crate::type_rules::{
    arg_bindings, arg_type, arg_types, args_fit, defined_once, fun_ok, literal_type, lookup_fun,
    lookup_var, program_ok, signature, signatures, stmt_env, type_of, Binding, Signature, Type,
};
use vstd::prelude::*;

verus! {

/// A variable and its type.
pub struct VarType {
    pub name: String,
    pub ty: Type,
}

/// A function, as far as a call has to know it.
pub struct FunType {
    pub name: String,
    pub return_type: Type,
    pub arg_types: Vec<Type>,
}

impl View for VarType {
    type V = Binding;

    open spec fn view(&self) -> Binding {
        Binding { name: self.name@, ty: self.ty }
    }
}

impl View for FunType {
    type V = Signature;

    open spec fn view(&self) -> Signature {
        Signature { name: self.name@, return_type: self.return_type, arg_types: self.arg_types@ }
    }
}

/// The bindings that a list of variables stands for.
pub open spec fn bindings_of(env: Seq<VarType>) -> Seq<Binding> {
    env.map_values(|v: VarType| v@)
}

/// The signatures that a list of functions stands for.
pub open spec fn signatures_of(funs: Seq<FunType>) -> Seq<Signature> {
    funs.map_values(|f: FunType| f@)
}

/// What the relation of the node at the top of an embedded term says of the
/// term and of its shape.
proof fn lemma_node_kids(t: Term, nodes: Map<ID, NodeView>, relation: RelationView)
    requires
        t.embeds(nodes),
        relation == nodes[t.id].relation,
    ensures
        relation.kind == t.kind,
        relation.name == t.name,
        t.shape().kind == t.kind,
        t.shape().name == t.name,
        relation.children.len() == t.kids.len(),
        t.shape().kids.len() == t.kids.len(),
        forall|i: int|
            0 <= i < t.kids.len() ==> relation.children[i] == (#[trigger] t.kids[i]).id
                && t.kids[i].embeds(nodes) && nodes.contains_key(t.kids[i].id)
                && t.shape().kids[i] == t.kids[i].shape(),
{
    assert(relation.children == t.kid_ids());
    assert forall|i: int| 0 <= i < t.kids.len() implies relation.children[i] == (
    #[trigger] t.kids[i]).id && t.kids[i].embeds(nodes) && nodes.contains_key(t.kids[i].id)
        && t.shape().kids[i] == t.kids[i].shape() by {
        assert(t.kid_ids()[i] == t.kids[i].id);
        crate::term::lemma_embeds_dom(t.kids[i], nodes);
    }
}

/// The type that a leaf relation stands for.
pub fn type_check_literal(node: &AstRelation) -> (ty: Type)
    ensures
        ty == literal_type(node@.kind),
{
    match node {
        AstRelation::Void { .. } => Type::VoidType,
        AstRelation::Int { .. } => Type::IntType,
        AstRelation::Float { .. } => Type::FloatType,
        AstRelation::Char { .. } => Type::CharType,
        _ => Type::ErrorType,
    }
}

/// The type that a variable is bound to.
pub fn lookup_variable(env: &Vec<VarType>, name: &String) -> (ty: Type)
    ensures
        ty == lookup_var(bindings_of(env@), name@),
{
    let mut i: usize = env.len();
    assert(bindings_of(env@).subrange(0, i as int) =~= bindings_of(env@));
    while i > 0
        invariant
            0 <= i <= env.len(),
            lookup_var(bindings_of(env@), name@) == lookup_var(
                bindings_of(env@).subrange(0, i as int),
                name@,
            ),
        decreases i,
    {
        let ghost front = bindings_of(env@).subrange(0, i as int);
        assert(front.last() == env@[i - 1]@);
        assert(front.drop_last() =~= bindings_of(env@).subrange(0, i - 1));
        if env[i - 1].name == *name {
            return env[i - 1].ty;
        }
        i -= 1;
    }
    proof {
        assert(bindings_of(env@).subrange(0, 0).len() == 0);
    }
    Type::ErrorType
}

/// The place of the function of this name, where exactly one has it.
pub fn lookup_function(funs: &Vec<FunType>, name: &String) -> (at: Option<usize>)
    ensures
        match at {
            Some(i) => i < funs.len() && lookup_fun(signatures_of(funs@), name@) == Some(
                funs@[i as int]@,
            ),
            None => lookup_fun(signatures_of(funs@), name@) is None,
        },
{
    let ghost sigs = signatures_of(funs@);
    let mut found: Option<usize> = None;
    let mut twice = false;
    let mut i: usize = 0;
    while i < funs.len()
        invariant
            0 <= i <= funs.len(),
            sigs == signatures_of(funs@),
            match found {
                Some(k) => k < i && sigs[k as int].name == name@ && (!twice ==> forall|j: int|
                    0 <= j < i && j != k ==> (#[trigger] sigs[j]).name != name@),
                None => !twice && forall|j: int| 0 <= j < i ==> (#[trigger] sigs[j]).name != name@,
            },
            twice ==> exists|a: int, b: int|
                0 <= a < b < i && (#[trigger] sigs[a]).name == name@ && (#[trigger] sigs[b]).name
                    == name@,
        decreases funs.len() - i,
    {
        assert(sigs[i as int] == funs@[i as int]@);
        if funs[i].name == *name {
            match found {
                Some(k) => {
                    twice = true;
                    assert(sigs[k as int].name == name@ && sigs[i as int].name == name@);
                },
                None => {
                    found = Some(i);
                },
            }
        }
        i += 1;
    }
    proof {
        if twice {
            let (a, b) = choose|a: int, b: int|
                0 <= a < b < funs.len() && (#[trigger] sigs[a]).name == name@ && (
                #[trigger] sigs[b]).name == name@;
            assert forall|k: int| !defined_once(sigs, name@, k) by {
                if defined_once(sigs, name@, k) {
                    if k == a {
                        assert(sigs[b].name != name@);
                    } else {
                        assert(sigs[a].name != name@);
                    }
                }
            }
        } else {
            match found {
                Some(k) => {
                    assert(defined_once(sigs, name@, k as int));
                    let c = choose|c: int| defined_once(sigs, name@, c);
                    if c != k {
                        assert(sigs[c].name != name@);
                    }
                    assert(sigs[k as int] == funs@[k as int]@);
                },
                None => {
                    assert forall|k: int| !defined_once(sigs, name@, k) by {
                        if defined_once(sigs, name@, k) {
                            assert(sigs[k].name != name@);
                        }
                    }
                },
            }
        }
    }
    if twice {
        None
    } else {
        found
    }
}

/// The type of the expression under `id`.
fn type_check_expression(
    ast: &Tree,
    id: ID,
    env: &Vec<VarType>,
    funs: &Vec<FunType>,
    Ghost(t): Ghost<Term>,
) -> (ty: Type)
    requires
        t.embeds(ast@.nodes),
        t.id == id,
    ensures
        ty == type_of(t.shape(), bindings_of(env@), signatures_of(funs@)),
    decreases t,
{
    let ghost shape = t.shape();
    let ghost bindings = bindings_of(env@);
    let ghost sigs = signatures_of(funs@);
    let relation = ast.relation(id);
    proof {
        lemma_node_kids(t, ast@.nodes, relation@);
    }
    match relation {
        AstRelation::Var { var_name, .. } => lookup_variable(env, var_name),
        AstRelation::BinaryOp { arg1_id, arg2_id, .. } => {
            assert(relation@.children[0] == *arg1_id && relation@.children[1] == *arg2_id);
            let left = type_check_expression(ast, *arg1_id, env, funs, Ghost(t.kids[0]));
            let right = type_check_expression(ast, *arg2_id, env, funs, Ghost(t.kids[1]));
            if left == right && (left == Type::IntType || left == Type::FloatType) {
                left
            } else {
                Type::ErrorType
            }
        },
        AstRelation::FunCall { fun_name, arg_ids, .. } => {
            match lookup_function(funs, fun_name) {
                Some(at) => {
                    let fun_type = &funs[at];
                    assert(relation@.children == arg_ids@);
                    assert(lookup_fun(sigs, shape.name) == Some(fun_type@));
                    if fun_type.arg_types.len() != arg_ids.len() {
                        assert(!args_fit(shape, bindings, sigs, fun_type.arg_types@));
                        return Type::ErrorType;
                    }
                    let mut i: usize = 0;
                    while i < arg_ids.len()
                        invariant
                            t.embeds(ast@.nodes),
                            shape == t.shape(),
                            bindings == bindings_of(env@),
                            sigs == signatures_of(funs@),
                            arg_ids@ == t.kid_ids(),
                            arg_ids@ == relation@.children,
                            lookup_fun(sigs, shape.name) == Some(fun_type@),
                            forall|i: int|
                                0 <= i < t.kids.len() ==> relation@.children[i] == (
                                #[trigger] t.kids[i]).id && t.kids[i].embeds(ast@.nodes)
                                    && t.shape().kids[i] == t.kids[i].shape(),
                            shape.kids.len() == t.kids.len(),
                            shape.kind == RelationKind::FunCall,
                            fun_type.arg_types.len() == arg_ids.len(),
                            0 <= i <= arg_ids.len(),
                            forall|j: int|
                                0 <= j < i ==> type_of(#[trigger] shape.kids[j], bindings, sigs)
                                    == fun_type.arg_types@[j],
                        decreases arg_ids.len() - i,
                    {
                        proof {
                            assert(t.kids[i as int].embeds(ast@.nodes));
                            assert(shape.kids[i as int] == t.kids[i as int].shape());
                        }
                        let arg_type = type_check_expression(
                            ast,
                            arg_ids[i],
                            env,
                            funs,
                            Ghost(t.kids[i as int]),
                        );
                        if arg_type != fun_type.arg_types[i] {
                            assert(type_of(shape.kids[i as int], bindings, sigs)
                                != fun_type.arg_types@[i as int]);
                            assert(!args_fit(shape, bindings, sigs, fun_type.arg_types@));
                            return Type::ErrorType;
                        }
                        i += 1;
                    }
                    assert(args_fit(shape, bindings, sigs, fun_type.arg_types@));
                    fun_type.return_type
                },
                None => Type::ErrorType,
            }
        },
        other => type_check_literal(other),
    }
}

/// Whether the statement under `id` is well typed. Where it is, `env` holds
/// the bindings in force after it.
fn type_check_statement(
    ast: &Tree,
    id: ID,
    env: &mut Vec<VarType>,
    funs: &Vec<FunType>,
    return_type: Type,
    Ghost(t): Ghost<Term>,
) -> (ok: bool)
    requires
        t.embeds(ast@.nodes),
        t.id == id,
    ensures
        match stmt_env(t.shape(), bindings_of(old(env)@), signatures_of(funs@), return_type) {
            Some(after) => ok && bindings_of(final(env)@) == after,
            None => !ok,
        },
    decreases t,
{
    let ghost shape = t.shape();
    let ghost sigs = signatures_of(funs@);
    let relation = ast.relation(id);
    proof {
        lemma_node_kids(t, ast@.nodes, relation@);
    }
    match relation {
        AstRelation::Assign { var_name, type_id, expr_id, .. } => {
            assert(relation@.children[0] == *type_id && relation@.children[1] == *expr_id);
            let declared = type_check_literal(ast.relation(*type_id));
            let found = type_check_expression(ast, *expr_id, env, funs, Ghost(t.kids[1]));
            if declared != Type::ErrorType && found == declared {
                let ghost before = bindings_of(env@);
                env.push(VarType { name: var_name.clone(), ty: declared });
                assert(bindings_of(env@) =~= before.push(Binding { name: t.name, ty: declared }));
                true
            } else {
                false
            }
        },
        AstRelation::Return { expr_id, .. } => {
            assert(relation@.children[0] == *expr_id);
            let found = type_check_expression(ast, *expr_id, env, funs, Ghost(t.kids[0]));
            return_type != Type::ErrorType && found == return_type
        },
        AstRelation::If { cond_id, then_id, .. } => {
            assert(relation@.children[0] == *cond_id && relation@.children[1] == *then_id);
            let cond = type_check_expression(ast, *cond_id, env, funs, Ghost(t.kids[0]));
            if cond == Type::IntType {
                type_check_statement(ast, *then_id, env, funs, return_type, Ghost(t.kids[1]))
            } else {
                false
            }
        },
        AstRelation::While { cond_id, body_id, .. } => {
            assert(relation@.children[0] == *cond_id && relation@.children[1] == *body_id);
            let cond = type_check_expression(ast, *cond_id, env, funs, Ghost(t.kids[0]));
            if cond == Type::IntType {
                type_check_statement(ast, *body_id, env, funs, return_type, Ghost(t.kids[1]))
            } else {
                false
            }
        },
        AstRelation::IfElse { cond_id, then_id, else_id, .. } => {
            assert(relation@.children[0] == *cond_id && relation@.children[1] == *then_id
                && relation@.children[2] == *else_id);
            let cond = type_check_expression(ast, *cond_id, env, funs, Ghost(t.kids[0]));
            if cond == Type::IntType {
                if type_check_statement(ast, *then_id, env, funs, return_type, Ghost(t.kids[1])) {
                    type_check_statement(ast, *else_id, env, funs, return_type, Ghost(t.kids[2]))
                } else {
                    false
                }
            } else {
                false
            }
        },
        AstRelation::Compound { .. } => type_check_compound(
            ast,
            id,
            env,
            funs,
            return_type,
            Ghost(t),
        ),
        AstRelation::Item { .. } | AstRelation::EndItem { .. } => type_check_item(
            ast,
            id,
            env,
            funs,
            return_type,
            Ghost(t),
        ),
        AstRelation::TransUnit { .. } | AstRelation::FunDef { .. } | AstRelation::Arg { .. } => false,
        _ => {
            let found = type_check_expression(ast, id, env, funs, Ghost(t));
            found != Type::ErrorType
        },
    }
}

/// Whether the compound statement under `id` is well typed.
fn type_check_compound(
    ast: &Tree,
    id: ID,
    env: &mut Vec<VarType>,
    funs: &Vec<FunType>,
    return_type: Type,
    Ghost(t): Ghost<Term>,
) -> (ok: bool)
    requires
        t.embeds(ast@.nodes),
        t.id == id,
        t.kind == RelationKind::Compound,
    ensures
        match stmt_env(t.shape(), bindings_of(old(env)@), signatures_of(funs@), return_type) {
            Some(after) => ok && bindings_of(final(env)@) == after,
            None => !ok,
        },
    decreases t, 0nat,
{
    let relation = ast.relation(id);
    proof {
        lemma_node_kids(t, ast@.nodes, relation@);
    }
    match relation {
        AstRelation::Compound { start_id, .. } => {
            assert(relation@.children[0] == *start_id);
            type_check_statement(ast, *start_id, env, funs, return_type, Ghost(t.kids[0]))
        },
        _ => false,
    }
}

/// Whether the statement list that starts with the cell under `id` is well
/// typed.
fn type_check_item(
    ast: &Tree,
    id: ID,
    env: &mut Vec<VarType>,
    funs: &Vec<FunType>,
    return_type: Type,
    Ghost(t): Ghost<Term>,
) -> (ok: bool)
    requires
        t.embeds(ast@.nodes),
        t.id == id,
        t.kind == RelationKind::Item || t.kind == RelationKind::EndItem,
    ensures
        match stmt_env(t.shape(), bindings_of(old(env)@), signatures_of(funs@), return_type) {
            Some(after) => ok && bindings_of(final(env)@) == after,
            None => !ok,
        },
    decreases t, 0nat,
{
    let relation = ast.relation(id);
    proof {
        lemma_node_kids(t, ast@.nodes, relation@);
    }
    match relation {
        AstRelation::Item { stmt_id, next_stmt_id, .. } => {
            assert(relation@.children[0] == *stmt_id && relation@.children[1] == *next_stmt_id);
            if type_check_statement(ast, *stmt_id, env, funs, return_type, Ghost(t.kids[0])) {
                type_check_statement(ast, *next_stmt_id, env, funs, return_type, Ghost(t.kids[1]))
            } else {
                false
            }
        },
        AstRelation::EndItem { stmt_id, .. } => {
            assert(relation@.children[0] == *stmt_id);
            type_check_statement(ast, *stmt_id, env, funs, return_type, Ghost(t.kids[0]))
        },
        _ => false,
    }
}

/// The type of the formal parameter under `id`, `ErrorType` where the node
/// is none.
fn type_check_argument(ast: &Tree, id: ID, Ghost(t): Ghost<Term>) -> (out: (Type, String))
    requires
        t.embeds(ast@.nodes),
        t.id == id,
    ensures
        out.0 == arg_type(t.shape()),
        out.1@ == t.name,
{
    let relation = ast.relation(id);
    proof {
        lemma_node_kids(t, ast@.nodes, relation@);
    }
    match relation {
        AstRelation::Arg { var_name, type_id, .. } => {
            assert(relation@.children[0] == *type_id);
            (type_check_literal(ast.relation(*type_id)), var_name.clone())
        },
        AstRelation::FunDef { fun_name, .. } => (Type::ErrorType, fun_name.clone()),
        AstRelation::FunCall { fun_name, .. } => (Type::ErrorType, fun_name.clone()),
        AstRelation::Assign { var_name, .. } => (Type::ErrorType, var_name.clone()),
        AstRelation::Var { var_name, .. } => (Type::ErrorType, var_name.clone()),
        _ => (Type::ErrorType, String::new()),
    }
}

/// The bindings and the types of the formal parameters of the function
/// under `id`.
fn bind_arguments(ast: &Tree, id: ID, Ghost(t): Ghost<Term>) -> (out: (Vec<VarType>, Vec<Type>))
    requires
        t.embeds(ast@.nodes),
        t.id == id,
        t.kind == RelationKind::FunDef,
        t.kids.len() >= 2,
    ensures
        bindings_of(out.0@) == arg_bindings(t.shape(), t.kids.len() - 2),
        out.1@ == arg_types(t.shape(), t.kids.len() - 2),
{
    let children = ast.children(id);
    let count = children.len() - 2;
    let mut env: Vec<VarType> = Vec::new();
    let mut types: Vec<Type> = Vec::new();
    let ghost shape = t.shape();
    let mut i: usize = 0;
    while i < count
        invariant
            t.embeds(ast@.nodes),
            shape == t.shape(),
            children@ == t.kid_ids(),
            count == children.len() - 2,
            0 <= i <= count,
            bindings_of(env@) == arg_bindings(shape, i as int),
            types@ == arg_types(shape, i as int),
        decreases count - i,
    {
        proof {
            assert(t.kid_ids()[i + 1] == t.kids[i + 1].id);
            assert(shape.kids[i + 1] == t.kids[i + 1].shape());
        }
        let (ty, name) = type_check_argument(ast, children[i + 1], Ghost(t.kids[i + 1]));
        let ghost before = bindings_of(env@);
        env.push(VarType { name, ty });
        types.push(ty);
        proof {
            assert(bindings_of(env@) =~= before.push(
                Binding { name: shape.kids[i + 1].name, ty },
            ));
            assert(bindings_of(env@) =~= arg_bindings(shape, i + 1));
            assert(types@ =~= arg_types(shape, i + 1));
        }
        i += 1;
    }
    (env, types)
}

/// What a call has to know of the function under `id`.
fn function_type(ast: &Tree, id: ID, Ghost(t): Ghost<Term>) -> (fun_type: FunType)
    requires
        t.embeds(ast@.nodes),
        t.id == id,
        t.kind == RelationKind::FunDef,
        t.kids.len() >= 2,
    ensures
        fun_type@ == signature(t.shape()),
{
    let relation = ast.relation(id);
    proof {
        lemma_node_kids(t, ast@.nodes, relation@);
    }
    let (_, arg_types) = bind_arguments(ast, id, Ghost(t));
    match relation {
        AstRelation::FunDef { fun_name, return_type_id, .. } => {
            assert(*return_type_id == relation@.children[0]);
            FunType {
                name: fun_name.clone(),
                return_type: type_check_literal(ast.relation(*return_type_id)),
                arg_types,
            }
        },
        _ => vstd::pervasive::unreached(),
    }
}

/// Whether the function under `id` is well typed.
fn type_check_fun_def(ast: &Tree, id: ID, funs: &Vec<FunType>, Ghost(t): Ghost<Term>) -> (ok:
    bool)
    requires
        t.embeds(ast@.nodes),
        t.id == id,
        t.kind == RelationKind::FunDef,
        t.kids.len() >= 2,
    ensures
        ok == fun_ok(t.shape(), signatures_of(funs@)),
{
    let ghost shape = t.shape();
    let relation = ast.relation(id);
    proof {
        lemma_node_kids(t, ast@.nodes, relation@);
    }
    let children = ast.children(id);
    let last = children.len() - 1;
    let return_type = type_check_literal(ast.relation(children[0]));
    if return_type == Type::ErrorType {
        return false;
    }
    let (mut env, formal_types) = bind_arguments(ast, id, Ghost(t));
    let mut i: usize = 0;
    while i < formal_types.len()
        invariant
            shape == t.shape(),
            formal_types@ == arg_types(shape, t.kids.len() - 2),
            0 <= i <= formal_types.len(),
            forall|j: int| 0 < j < i + 1 ==> arg_type(#[trigger] shape.kids[j]) != Type::ErrorType,
        decreases formal_types.len() - i,
    {
        if formal_types[i] == Type::ErrorType {
            assert(arg_type(shape.kids[i + 1]) == Type::ErrorType);
            return false;
        }
        i += 1;
    }
    if ast.relation(children[last]).kind() != RelationKind::Compound {
        return false;
    }
    assert(shape.kids.last() == t.kids[last as int].shape());
    type_check_compound(ast, children[last], &mut env, funs, return_type, Ghost(t.kids[last as int]))
}

/// Whether the translation unit under `id` is well typed.
fn type_check_trans_unit(ast: &Tree, id: ID, Ghost(t): Ghost<Term>) -> (ok: bool)
    requires
        t.embeds(ast@.nodes),
        t.id == id,
    ensures
        ok == program_ok(t.shape()),
{
    let ghost shape = t.shape();
    let relation = ast.relation(id);
    proof {
        lemma_node_kids(t, ast@.nodes, relation@);
    }
    if relation.kind() != RelationKind::TransUnit {
        return false;
    }
    let children = ast.children(id);
    let mut funs: Vec<FunType> = Vec::new();
    let mut i: usize = 0;
    while i < children.len()
        invariant
            t.embeds(ast@.nodes),
            shape == t.shape(),
            children@ == t.kid_ids(),
            0 <= i <= children.len(),
            funs.len() == i,
            forall|j: int| 0 <= j < i ==> (#[trigger] funs@[j])@ == signature(shape.kids[j]),
            forall|j: int|
                0 <= j < i ==> (#[trigger] shape.kids[j]).kind == RelationKind::FunDef,
        decreases children.len() - i,
    {
        proof {
            assert(t.kid_ids()[i as int] == t.kids[i as int].id);
            assert(shape.kids[i as int] == t.kids[i as int].shape());
            assert(t.kids[i as int].embeds(ast@.nodes));
        }
        let function = ast.relation(children[i]);
        if function.kind() != RelationKind::FunDef {
            assert(!fun_ok(shape.kids[i as int], signatures(shape)));
            return false;
        }
        proof {
            assert(t.kids[i as int].kid_ids().len() == t.kids[i as int].kids.len());
        }
        funs.push(function_type(ast, children[i], Ghost(t.kids[i as int])));
        i += 1;
    }
    proof {
        assert(signatures_of(funs@) =~= signatures(shape));
    }
    let mut ok = true;
    let mut k: usize = 0;
    while k < children.len()
        invariant
            t.embeds(ast@.nodes),
            shape == t.shape(),
            children@ == t.kid_ids(),
            0 <= k <= children.len(),
            signatures_of(funs@) == signatures(shape),
            forall|j: int|
                0 <= j < children.len() ==> (#[trigger] shape.kids[j]).kind
                    == RelationKind::FunDef,
            ok == forall|j: int| 0 <= j < k ==> fun_ok(#[trigger] shape.kids[j], signatures(shape)),
        decreases children.len() - k,
    {
        proof {
            assert(t.kid_ids()[k as int] == t.kids[k as int].id);
            assert(shape.kids[k as int] == t.kids[k as int].shape());
            assert(t.kids[k as int].embeds(ast@.nodes));
            assert(t.kids[k as int].kid_ids().len() == t.kids[k as int].kids.len());
            assert(shape.kids[k as int].kind == RelationKind::FunDef);
        }
        let function = ast.relation(children[k]);
        if !type_check_fun_def(ast, children[k], &funs, Ghost(t.kids[k as int])) {
            ok = false;
        }
        k += 1;
    }
    ok
}

/// Type-checks a whole program from scratch.
pub fn type_check(ast: &Tree) -> (ok: bool)
    requires
        ast@.wf(),
    ensures
        ok == program_ok(ast@.term().shape()),
{
    type_check_trans_unit(ast, ast.get_root(), Ghost(ast@.term()))
}

} // verus!
