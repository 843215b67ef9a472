//! The typing rules, stated over the shape of a program.

use crate::definitions::RelationKind;
use crate::term::Shape;
use vstd::prelude::*;

verus! {

/// The type of an expression. `ErrorType` is the type of what has none.
#[derive(Clone, Copy, PartialEq, Eq, Structural, Debug)]
pub enum Type {
    VoidType,
    IntType,
    FloatType,
    CharType,
    ErrorType,
}

/// A name and the type it is bound to.
pub struct Binding {
    pub name: Seq<char>,
    pub ty: Type,
}

/// What a call has to know of a function.
pub struct Signature {
    pub name: Seq<char>,
    pub return_type: Type,
    pub arg_types: Seq<Type>,
}

/// The type that a leaf of this kind stands for.
pub open spec fn literal_type(kind: RelationKind) -> Type {
    match kind {
        RelationKind::Void => Type::VoidType,
        RelationKind::Int => Type::IntType,
        RelationKind::Float => Type::FloatType,
        RelationKind::Char => Type::CharType,
        _ => Type::ErrorType,
    }
}

/// The type of a variable: that of the last binding of its name.
pub open spec fn lookup_var(env: Seq<Binding>, name: Seq<char>) -> Type
    decreases env.len(),
{
    if env.len() == 0 {
        Type::ErrorType
    } else if env.last().name == name {
        env.last().ty
    } else {
        lookup_var(env.drop_last(), name)
    }
}

/// The function at `i` has this name, and no other function has it.
pub open spec fn defined_once(funs: Seq<Signature>, name: Seq<char>, i: int) -> bool {
    &&& 0 <= i < funs.len()
    &&& funs[i].name == name
    &&& forall|j: int| 0 <= j < funs.len() && j != i ==> (#[trigger] funs[j]).name != name
}

/// The function of this name, where exactly one function has it.
pub open spec fn lookup_fun(funs: Seq<Signature>, name: Seq<char>) -> Option<Signature> {
    if exists|i: int| defined_once(funs, name, i) {
        Some(funs[choose|i: int| defined_once(funs, name, i)])
    } else {
        None
    }
}

/// The type of an expression. A leaf has the type it stands for, a variable
/// the type it is bound to. A binary operation has the type of its operands,
/// which must be the same numeric type. A call has the return type of the
/// function of its name, whose parameters must be as many as the arguments
/// and of their types.
pub open spec fn type_of(e: Shape, env: Seq<Binding>, funs: Seq<Signature>) -> Type
    decreases e,
{
    match e.kind {
        RelationKind::Void | RelationKind::Int | RelationKind::Float | RelationKind::Char => literal_type(
            e.kind,
        ),
        RelationKind::Var => lookup_var(env, e.name),
        RelationKind::BinaryOp => if e.kids.len() == 2 {
            let left = type_of(e.kids[0], env, funs);
            let right = type_of(e.kids[1], env, funs);
            if left == right && (left == Type::IntType || left == Type::FloatType) {
                left
            } else {
                Type::ErrorType
            }
        } else {
            Type::ErrorType
        },
        RelationKind::FunCall => match lookup_fun(funs, e.name) {
            Some(sig) => if args_fit(e, env, funs, sig.arg_types) {
                sig.return_type
            } else {
                Type::ErrorType
            },
            None => Type::ErrorType,
        },
        _ => Type::ErrorType,
    }
}

/// The arguments of a call are as many as the parameters and have their
/// types.
pub open spec fn args_fit(
    e: Shape,
    env: Seq<Binding>,
    funs: Seq<Signature>,
    arg_types: Seq<Type>,
) -> bool
    decreases e, 0nat,
{
    &&& arg_types.len() == e.kids.len()
    &&& forall|i: int|
        0 <= i < e.kids.len() ==> type_of(#[trigger] e.kids[i], env, funs) == arg_types[i]
}

/// The bindings in force after a statement, or `None` where the statement is
/// not well typed. An assignment binds its name to its declared type, which
/// its expression must have. A return must give the return type of the
/// function. The condition of a branch or a loop must be an `int`. A
/// statement list is checked in order. Bindings stay in force to the end of
/// the function. An expression is a statement where it has a type.
pub open spec fn stmt_env(
    s: Shape,
    env: Seq<Binding>,
    funs: Seq<Signature>,
    ret: Type,
) -> Option<Seq<Binding>>
    decreases s,
{
    match s.kind {
        RelationKind::Assign => if s.kids.len() == 2 && literal_type(s.kids[0].kind)
            != Type::ErrorType && type_of(s.kids[1], env, funs) == literal_type(s.kids[0].kind) {
            Some(env.push(Binding { name: s.name, ty: literal_type(s.kids[0].kind) }))
        } else {
            None
        },
        RelationKind::Return => if s.kids.len() == 1 && ret != Type::ErrorType && type_of(
            s.kids[0],
            env,
            funs,
        ) == ret {
            Some(env)
        } else {
            None
        },
        RelationKind::If | RelationKind::While => if s.kids.len() == 2 && type_of(
            s.kids[0],
            env,
            funs,
        ) == Type::IntType {
            stmt_env(s.kids[1], env, funs, ret)
        } else {
            None
        },
        RelationKind::IfElse => if s.kids.len() == 3 && type_of(s.kids[0], env, funs)
            == Type::IntType {
            match stmt_env(s.kids[1], env, funs, ret) {
                Some(after) => stmt_env(s.kids[2], after, funs, ret),
                None => None,
            }
        } else {
            None
        },
        RelationKind::Compound | RelationKind::EndItem => if s.kids.len() == 1 {
            stmt_env(s.kids[0], env, funs, ret)
        } else {
            None
        },
        RelationKind::Item => if s.kids.len() == 2 {
            match stmt_env(s.kids[0], env, funs, ret) {
                Some(after) => stmt_env(s.kids[1], after, funs, ret),
                None => None,
            }
        } else {
            None
        },
        RelationKind::TransUnit | RelationKind::FunDef | RelationKind::Arg => None,
        _ => if type_of(s, env, funs) != Type::ErrorType {
            Some(env)
        } else {
            None
        },
    }
}

/// The type of a formal parameter, `ErrorType` where the shape is none.
pub open spec fn arg_type(arg: Shape) -> Type {
    if arg.kind == RelationKind::Arg && arg.kids.len() == 1 {
        literal_type(arg.kids[0].kind)
    } else {
        Type::ErrorType
    }
}

/// The bindings of the first `n` formal parameters of a function.
pub open spec fn arg_bindings(f: Shape, n: int) -> Seq<Binding> {
    Seq::new(n as nat, |i: int| Binding { name: f.kids[i + 1].name, ty: arg_type(f.kids[i + 1]) })
}

/// The types of the first `n` formal parameters of a function.
pub open spec fn arg_types(f: Shape, n: int) -> Seq<Type> {
    Seq::new(n as nat, |i: int| arg_type(f.kids[i + 1]))
}

/// What a call has to know of this function.
pub open spec fn signature(f: Shape) -> Signature {
    Signature {
        name: f.name,
        return_type: literal_type(f.kids[0].kind),
        arg_types: arg_types(f, f.kids.len() - 2),
    }
}

/// A function is well typed: it has a return type, parameters with types and
/// a body, and the body is well typed under the bindings of the parameters.
pub open spec fn fun_ok(f: Shape, funs: Seq<Signature>) -> bool {
    &&& f.kind == RelationKind::FunDef
    &&& f.kids.len() >= 2
    &&& literal_type(f.kids[0].kind) != Type::ErrorType
    &&& forall|i: int| 0 < i < f.kids.len() - 1 ==> arg_type(#[trigger] f.kids[i]) != Type::ErrorType
    &&& f.kids.last().kind == RelationKind::Compound
    &&& stmt_env(
        f.kids.last(),
        arg_bindings(f, f.kids.len() - 2),
        funs,
        literal_type(f.kids[0].kind),
    ) is Some
}

/// The signatures of the functions of a program, in order.
pub open spec fn signatures(p: Shape) -> Seq<Signature> {
    Seq::new(p.kids.len(), |i: int| signature(p.kids[i]))
}

/// The program is well typed: it is a translation unit, and every function
/// in it is well typed.
pub open spec fn program_ok(p: Shape) -> bool {
    &&& p.kind == RelationKind::TransUnit
    &&& forall|i: int| 0 <= i < p.kids.len() ==> fun_ok(#[trigger] p.kids[i], signatures(p))
}

/// Two lists of functions know the same functions by name.
pub open spec fn same_lookup(a: Seq<Signature>, b: Seq<Signature>) -> bool {
    forall|name: Seq<char>| #[trigger] lookup_fun(a, name) == lookup_fun(b, name)
}

/// How the places of one list go over to the places of another list of the
/// same length: to each place of the one exactly one place of the other.
pub open spec fn is_pairing(pairing: Seq<int>, n: int) -> bool {
    &&& pairing.len() == n
    &&& pairing.no_duplicates()
    &&& forall|k: int| 0 <= k < n ==> 0 <= #[trigger] pairing[k] < n
    &&& forall|j: int| 0 <= j < n ==> pairing.contains(j)
}

/// A list of functions and the same list in another order know the same
/// functions by name.
pub proof fn lemma_lookup_pairing(a: Seq<Signature>, b: Seq<Signature>, pairing: Seq<int>)
    requires
        a.len() == b.len(),
        is_pairing(pairing, a.len() as int),
        forall|k: int| 0 <= k < a.len() ==> a[k] == b[#[trigger] pairing[k]],
    ensures
        same_lookup(a, b),
{
    assert forall|name: Seq<char>| #[trigger] lookup_fun(a, name) == lookup_fun(b, name) by {
        assert forall|i: int| defined_once(a, name, i) implies defined_once(
            b,
            name,
            pairing[i],
        ) by {
            assert(a[i] == b[pairing[i]]);
            assert forall|j: int| 0 <= j < b.len() && j != pairing[i] implies (#[trigger] b[j]).name
                != name by {
                assert(pairing.contains(j));
                let k = choose|k: int| 0 <= k < pairing.len() && pairing[k] == j;
                assert(a[k] == b[pairing[k]]);
                assert(k != i);
                assert(a[k].name != name);
            }
        }
        assert forall|j: int| defined_once(b, name, j) implies exists|i: int|
            defined_once(a, name, i) && pairing[i] == j by {
            assert(pairing.contains(j));
            let i = choose|i: int| 0 <= i < pairing.len() && pairing[i] == j;
            assert(a[i] == b[pairing[i]]);
            assert forall|k: int| 0 <= k < a.len() && k != i implies (#[trigger] a[k]).name
                != name by {
                assert(a[k] == b[pairing[k]]);
                assert(pairing[k] != pairing[i]);
                assert(b[pairing[k]].name != name);
            }
            assert(defined_once(a, name, i));
        }
        if exists|i: int| defined_once(a, name, i) {
            let i = choose|i: int| defined_once(a, name, i);
            assert(defined_once(b, name, pairing[i]));
            let j = choose|j: int| defined_once(b, name, j);
            if j != pairing[i] {
                assert(b[j].name != name);
            }
            assert(a[i] == b[pairing[i]]);
        } else {
            if exists|j: int| defined_once(b, name, j) {
                let j = choose|j: int| defined_once(b, name, j);
                let i = choose|i: int| defined_once(a, name, i) && pairing[i] == j;
                assert(defined_once(a, name, i));
            }
        }
    }
}

/// The type of an expression depends on the list of functions only through
/// what it knows by name.
pub proof fn lemma_type_of_lookup(
    e: Shape,
    env: Seq<Binding>,
    a: Seq<Signature>,
    b: Seq<Signature>,
)
    requires
        same_lookup(a, b),
    ensures
        type_of(e, env, a) == type_of(e, env, b),
    decreases e,
{
    match e.kind {
        RelationKind::BinaryOp => {
            if e.kids.len() == 2 {
                lemma_type_of_lookup(e.kids[0], env, a, b);
                lemma_type_of_lookup(e.kids[1], env, a, b);
            }
        },
        RelationKind::FunCall => {
            assert(lookup_fun(a, e.name) == lookup_fun(b, e.name));
            match lookup_fun(a, e.name) {
                Some(sig) => {
                    assert forall|i: int| 0 <= i < e.kids.len() implies type_of(
                        #[trigger] e.kids[i],
                        env,
                        a,
                    ) == type_of(e.kids[i], env, b) by {
                        lemma_type_of_lookup(e.kids[i], env, a, b);
                    }
                    assert(args_fit(e, env, a, sig.arg_types) == args_fit(e, env, b, sig.arg_types));
                },
                None => {},
            }
        },
        _ => {},
    }
}

/// The bindings after a statement depend on the list of functions only
/// through what it knows by name.
pub proof fn lemma_stmt_env_lookup(
    s: Shape,
    env: Seq<Binding>,
    a: Seq<Signature>,
    b: Seq<Signature>,
    ret: Type,
)
    requires
        same_lookup(a, b),
    ensures
        stmt_env(s, env, a, ret) == stmt_env(s, env, b, ret),
    decreases s,
{
    match s.kind {
        RelationKind::Assign => {
            if s.kids.len() == 2 {
                lemma_type_of_lookup(s.kids[1], env, a, b);
            }
        },
        RelationKind::Return => {
            if s.kids.len() == 1 {
                lemma_type_of_lookup(s.kids[0], env, a, b);
            }
        },
        RelationKind::If | RelationKind::While => {
            if s.kids.len() == 2 {
                lemma_type_of_lookup(s.kids[0], env, a, b);
                lemma_stmt_env_lookup(s.kids[1], env, a, b, ret);
            }
        },
        RelationKind::IfElse => {
            if s.kids.len() == 3 {
                lemma_type_of_lookup(s.kids[0], env, a, b);
                lemma_stmt_env_lookup(s.kids[1], env, a, b, ret);
                match stmt_env(s.kids[1], env, a, ret) {
                    Some(after) => lemma_stmt_env_lookup(s.kids[2], after, a, b, ret),
                    None => {},
                }
            }
        },
        RelationKind::Compound | RelationKind::EndItem => {
            if s.kids.len() == 1 {
                lemma_stmt_env_lookup(s.kids[0], env, a, b, ret);
            }
        },
        RelationKind::Item => {
            if s.kids.len() == 2 {
                lemma_stmt_env_lookup(s.kids[0], env, a, b, ret);
                match stmt_env(s.kids[0], env, a, ret) {
                    Some(after) => lemma_stmt_env_lookup(s.kids[1], after, a, b, ret),
                    None => {},
                }
            }
        },
        RelationKind::TransUnit | RelationKind::FunDef | RelationKind::Arg => {},
        _ => {
            lemma_type_of_lookup(s, env, a, b);
        },
    }
}

/// Whether a program is well typed does not depend on the order of its
/// functions.
pub proof fn lemma_program_ok_pairing(p: Shape, q: Shape, pairing: Seq<int>)
    requires
        p.kind == q.kind,
        p.kids.len() == q.kids.len(),
        is_pairing(pairing, p.kids.len() as int),
        forall|k: int| 0 <= k < p.kids.len() ==> p.kids[k] == q.kids[#[trigger] pairing[k]],
    ensures
        program_ok(p) == program_ok(q),
{
    let a = signatures(p);
    let b = signatures(q);
    assert forall|k: int| 0 <= k < a.len() implies a[k] == b[#[trigger] pairing[k]] by {
        assert(p.kids[k] == q.kids[pairing[k]]);
    }
    lemma_lookup_pairing(a, b, pairing);
    assert forall|f: Shape| fun_ok(f, a) == fun_ok(f, b) by {
        if f.kids.len() >= 2 {
            lemma_stmt_env_lookup(
                f.kids.last(),
                arg_bindings(f, f.kids.len() - 2),
                a,
                b,
                literal_type(f.kids[0].kind),
            );
        }
    }
    if program_ok(p) {
        assert forall|j: int| 0 <= j < q.kids.len() implies fun_ok(#[trigger] q.kids[j], b) by {
            assert(pairing.contains(j));
            let k = choose|k: int| 0 <= k < pairing.len() && pairing[k] == j;
            assert(p.kids[k] == q.kids[pairing[k]]);
            assert(fun_ok(p.kids[k], a));
        }
    }
    if program_ok(q) {
        assert forall|k: int| 0 <= k < p.kids.len() implies fun_ok(#[trigger] p.kids[k], a) by {
            assert(p.kids[k] == q.kids[pairing[k]]);
            assert(fun_ok(q.kids[pairing[k]], b));
        }
    }
}

} // verus!
