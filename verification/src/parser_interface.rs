//! Builds the relational tree of a parsed program. Identities are given out
//! from 1 on, to the children of a node before the node itself.

use crate::ast::{NodeView, Tree, TreeView};
use crate::definitions::{
    arity_fits, is_named_kind, is_statement_kind, is_type_kind, AstRelation,
    InternalError, RelationKind, ID,
};
use crate::rebuild::among;
use crate::syntax::{
    constant_kind, expression_shape, function_shape, is_unit_supported, items_shape,
    parameter_shape, specifier_kind, statement_shape, statement_supported, unit_shape,
    unit_supported, Constant, Expression, FunctionDefinition, ParameterDeclaration, Statement,
    TranslationUnit, TypeSpecifier,
};
use crate::term::{
    lemma_embeds_dom, lemma_embeds_frame, lemma_shape_size, lemma_sizes_push,
    lemma_term_unique, shape_sizes, sizes, Shape, Term,
};
use vstd::prelude::*;

verus! {

/// The identities of a list of terms, in order.
pub open spec fn ids_of(kids: Seq<Term>) -> Seq<ID> {
    Seq::new(kids.len(), |i: int| kids[i].id)
}

/// The identities of the term are given out from `base` on, from the leaves
/// up and from the first child to the last.
#[verifier::opaque]
pub open spec fn numbered(term: Term, base: int) -> bool {
    term == term.renumbered(base)
}

/// What holds while the children of a node are built one after the other:
/// each is in the tree, under identities given out since `base`, apart from
/// the others and in the shape that is wanted at its place; nothing else
/// changed.
pub open spec fn batch(base: TreeView, cur: TreeView, kids: Seq<Term>, want: Seq<Shape>) -> bool {
    &&& cur.root_id == base.root_id
    &&& cur.max_id == base.max_id + sizes(kids)
    &&& sizes(kids) == shape_sizes(want.subrange(0, kids.len() as int))
    &&& kids.len() <= want.len()
    &&& forall|j: int|
        0 <= j < kids.len() ==> (#[trigger] kids[j]).embeds(cur.nodes) && kids[j].sound()
            && kids[j].conforms() && kids[j].within(base.max_id as int, cur.max_id as int)
            && kids[j].shape() == want[j] && numbered(
            kids[j],
            base.max_id + sizes(kids.subrange(0, j)),
        )
    &&& forall|j: int, k: int|
        0 <= j < k < kids.len() ==> (#[trigger] kids[j]).apart(#[trigger] kids[k])
    &&& forall|x: ID| #[trigger]
        base.nodes.contains_key(x) ==> cur.nodes.contains_key(x) && cur.nodes[x] == base.nodes[x]
    &&& forall|x: ID| #[trigger]
        cur.nodes.contains_key(x) ==> base.nodes.contains_key(x) || among(kids, x)
}

/// What holds when a subtree was built: it is in the tree in the wanted
/// shape, under the identities given out since `before`, the largest of them
/// at its top; nothing else changed.
#[verifier::opaque]
pub open spec fn built(before: TreeView, after: TreeView, term: Term, shape: Shape) -> bool {
    &&& after.root_id == before.root_id || after.root_id == term.id
    &&& after.max_id == before.max_id + term.size()
    &&& term.id == after.max_id
    &&& term.shape() == shape
    &&& term.embeds(after.nodes)
    &&& term.sound()
    &&& term.conforms()
    &&& term.within(before.max_id as int, after.max_id as int)
    &&& numbered(term, before.max_id as int)
    &&& forall|x: ID| #[trigger]
        before.nodes.contains_key(x) ==> after.nodes.contains_key(x) && after.nodes[x]
            == before.nodes[x]
    &&& forall|x: ID| #[trigger]
        after.nodes.contains_key(x) ==> before.nodes.contains_key(x) || term.has(x)
}

/// The sizes of a part of a list of shapes are bounded by those of the list.
pub proof fn lemma_shape_sizes_prefix(shapes: Seq<Shape>, n: int)
    requires
        0 <= n <= shapes.len(),
    ensures
        shape_sizes(shapes.subrange(0, n)) <= shape_sizes(shapes),
        n < shapes.len() ==> shape_sizes(shapes.subrange(0, n)) + shapes[n].size() <= shape_sizes(
            shapes,
        ),
        n < shapes.len() ==> shape_sizes(shapes.subrange(0, n + 1)) == shape_sizes(
            shapes.subrange(0, n),
        ) + shapes[n].size(),
    decreases shapes.len(),
{
    if n == shapes.len() {
        assert(shapes.subrange(0, n) == shapes);
    } else {
        let shorter = shapes.drop_last();
        assert(shorter.subrange(0, n) == shapes.subrange(0, n));
        lemma_shape_sizes_prefix(shorter, n);
        assert(shapes.subrange(0, n + 1) =~= shapes.subrange(0, n).push(shapes[n]));
        crate::term::lemma_shape_sizes_push(shapes.subrange(0, n), shapes[n]);
        if n < shorter.len() {
            assert(shorter[n] == shapes[n]);
        } else {
            assert(shorter.subrange(0, n) == shorter);
        }
    }
}

/// Nothing is built yet.
proof fn lemma_batch_start(base: TreeView, want: Seq<Shape>)
    ensures
        batch(base, base, Seq::<Term>::empty(), want),
{
    assert(want.subrange(0, 0) =~= Seq::<Shape>::empty());
}

/// One more child is built.
#[verifier::spinoff_prover]
proof fn lemma_batch_push(
    base: TreeView,
    mid: TreeView,
    after: TreeView,
    kids: Seq<Term>,
    want: Seq<Shape>,
    term: Term,
)
    requires
        batch(base, mid, kids, want),
        mid.store_inv(),
        kids.len() < want.len(),
        built(mid, after, term, want[kids.len() as int]),
        after.root_id == mid.root_id,
    ensures
        batch(base, after, kids.push(term), want),
{
    reveal(built);
    let grown = kids.push(term);
    lemma_sizes_push(kids, term);
    lemma_shape_size(term);
    lemma_shape_sizes_prefix(want, kids.len() as int);
    assert forall|j: int| 0 <= j < grown.len() implies (#[trigger] grown[j]).embeds(after.nodes)
        && grown[j].sound() && grown[j].conforms() && grown[j].within(
        base.max_id as int,
        after.max_id as int,
    ) && grown[j].shape() == want[j] && numbered(
        grown[j],
        base.max_id + sizes(grown.subrange(0, j)),
    ) by {
        if j < kids.len() {
            assert(grown[j] == kids[j]);
            assert(grown.subrange(0, j) =~= kids.subrange(0, j));
            lemma_embeds_dom(kids[j], mid.nodes);
            lemma_embeds_frame(kids[j], mid.nodes, after.nodes);
        } else {
            assert(grown.subrange(0, j) =~= kids);
        }
    }
    assert forall|j: int, k: int| 0 <= j < k < grown.len() implies (#[trigger] grown[j]).apart(
        #[trigger] grown[k],
    ) by {
        if k == kids.len() {
            assert(grown[j] == kids[j]);
            assert(kids[j].within(base.max_id as int, mid.max_id as int));
        } else {
            assert(grown[j] == kids[j] && grown[k] == kids[k]);
        }
    }
    assert forall|x: ID| #[trigger] after.nodes.contains_key(x) implies base.nodes.contains_key(x)
        || among(grown, x) by {
        if mid.nodes.contains_key(x) {
            if !base.nodes.contains_key(x) {
                let j = choose|j: int| 0 <= j < kids.len() && (#[trigger] kids[j]).has(x);
                assert(grown[j].has(x));
            }
        } else {
            assert(grown[kids.len() as int].has(x));
        }
    }
}

/// A child that does not fit makes the node not fit.
proof fn lemma_batch_full(
    base: TreeView,
    cur: TreeView,
    kids: Seq<Term>,
    want: Seq<Shape>,
    whole: Shape,
)
    requires
        batch(base, cur, kids, want),
        whole.kids == want,
        kids.len() < want.len(),
        cur.max_id + want[kids.len() as int].size() > i32::MAX,
    ensures
        base.max_id + whole.size() > i32::MAX,
{
    lemma_shape_sizes_prefix(want, kids.len() as int);
}

/// Adds a node above the children that were built.
#[verifier::spinoff_prover]
fn emit(
    tree: &mut Tree,
    kind: RelationKind,
    name: String,
    children: Vec<ID>,
    root: bool,
    Ghost(kids): Ghost<Seq<Term>>,
    Ghost(base): Ghost<TreeView>,
    Ghost(whole): Ghost<Shape>,
) -> (out: Option<(ID, Ghost<Term>)>)
    requires
        batch(base, old(tree)@, kids, whole.kids),
        kids.len() == whole.kids.len(),
        base.store_inv(),
        children@ == ids_of(kids),
        whole.kind == kind,
        whole.name == if is_named_kind(kind) {
            name@
        } else {
            Seq::<char>::empty()
        },
        arity_fits(kind, kids.len()),
        (Term { kind, id: 0, name: Seq::empty(), kids }).kids_fit(),
    ensures
        match out {
            Some((id, term)) => id == term@.id && built(base, final(tree)@, term@, whole) && (root
                ==> final(tree)@.root_id == id) && (!root ==> final(tree)@.root_id
                == base.root_id),
            None => base.max_id + whole.size() > i32::MAX,
        },
{
    tree.store_invariant();
    let ghost before = tree@;
    proof {
        assert(whole.kids.subrange(0, kids.len() as int) =~= whole.kids);
    }
    if tree.max_id() == i32::MAX {
        return None;
    }
    let new_id = tree.max_id() + 1;
    proof {
        if before.nodes.contains_key(new_id) {
            assert(before.nodes.dom().contains(new_id));
        }
    }
    let relation = AstRelation::make(kind, name, new_id, &children);
    let done = if root {
        tree.add_root_node(new_id, relation)
    } else {
        tree.add_node(new_id, relation)
    };
    assert(done is Ok);
    let done = tree.replace_children(new_id, children);
    assert(done is Ok);
    let ghost term = Term { kind, id: new_id, name: whole.name, kids };
    proof {
        assert(term.kid_ids() =~= ids_of(kids));
        assert(tree@.nodes =~= before.nodes.insert(new_id, term.node()));
        lemma_emitted(base, before, tree@, kids, whole, term);
    }
    Some((new_id, Ghost(term)))
}

/// The node above the children that were built completes a subtree.
#[verifier::spinoff_prover]
proof fn lemma_emitted(
    base: TreeView,
    before: TreeView,
    after: TreeView,
    kids: Seq<Term>,
    whole: Shape,
    term: Term,
)
    requires
        batch(base, before, kids, whole.kids),
        kids.len() == whole.kids.len(),
        base.store_inv(),
        before.store_inv(),
        term.kids == kids,
        term.kind == whole.kind,
        term.name == whole.name,
        term.id == before.max_id + 1,
        term.id <= i32::MAX,
        arity_fits(term.kind, kids.len()),
        !is_named_kind(term.kind) ==> term.name == Seq::<char>::empty(),
        (Term { kind: term.kind, id: 0, name: Seq::empty(), kids }).kids_fit(),
        after.nodes == before.nodes.insert(term.id, term.node()),
        after.max_id == term.id,
        after.root_id == before.root_id || after.root_id == term.id,
    ensures
        built(base, after, term, whole),
{
    reveal(built);
    assert(whole.kids.subrange(0, kids.len() as int) =~= whole.kids);
    assert(kids.subrange(0, kids.len() as int) =~= kids);
    if before.nodes.contains_key(term.id) {
        assert(before.nodes.dom().contains(term.id));
    }
    assert forall|j: int| 0 <= j < kids.len() implies (#[trigger] term.kids[j]).embeds(
        after.nodes,
    ) && !term.kids[j].has(term.id) by {
        lemma_embeds_dom(kids[j], before.nodes);
        lemma_embeds_frame(kids[j], before.nodes, after.nodes);
        assert(kids[j].within(base.max_id as int, before.max_id as int));
    }
    assert(term.embeds(after.nodes));
    assert(term.sound());
    assert(term.kids_fit());
    assert(term.conforms());
    lemma_shape_eq_shape(term, whole);
    assert(term.within(base.max_id as int, after.max_id as int)) by {
        assert forall|x: ID| #[trigger] term.has(x) implies base.max_id < x <= after.max_id by {
            if x != term.id {
                let j = choose|j: int| 0 <= j < kids.len() && (#[trigger] term.kids[j]).has(x);
                assert(kids[j].within(base.max_id as int, before.max_id as int));
            }
        }
    }
    assert(numbered(term, base.max_id as int)) by {
        reveal(numbered);
        assert forall|j: int| 0 <= j < kids.len() implies kids[j] == (#[trigger] kids[j]).renumbered(
            base.max_id + sizes(kids.subrange(0, j)),
        ) by {
            assert(numbered(kids[j], base.max_id + sizes(kids.subrange(0, j))));
        }
        assert(term.renumbered(base.max_id as int).kids =~= kids);
    }
    assert forall|x: ID| #[trigger] after.nodes.contains_key(x) implies base.nodes.contains_key(x)
        || term.has(x) by {
        if x != term.id && !base.nodes.contains_key(x) {
            assert(before.nodes.contains_key(x));
            let j = choose|j: int| 0 <= j < kids.len() && (#[trigger] kids[j]).has(x);
            assert(term.kids[j].has(x));
        }
    }
}

/// A term whose children have the shapes of the children of a shape, and
/// whose tag and name are those of the shape, has the shape.
proof fn lemma_shape_eq_shape(term: Term, whole: Shape)
    requires
        term.kind == whole.kind,
        term.name == whole.name,
        term.kids.len() == whole.kids.len(),
        forall|j: int| 0 <= j < term.kids.len() ==> (#[trigger] term.kids[j]).shape() == whole.kids[j],
    ensures
        term.shape() == whole,
{
    assert(term.shape().kids =~= whole.kids);
}

/// A leaf of this kind.
fn emit_leaf(tree: &mut Tree, kind: RelationKind, name: String, Ghost(whole): Ghost<Shape>) -> (out:
    Option<(ID, Ghost<Term>)>)
    requires
        whole.kind == kind,
        whole.kids.len() == 0,
        arity_fits(kind, 0),
        whole.name == if is_named_kind(kind) {
            name@
        } else {
            Seq::<char>::empty()
        },
    ensures
        match out {
            Some((id, term)) => id == term@.id && built(old(tree)@, final(tree)@, term@, whole)
                && final(tree)@.root_id == old(tree)@.root_id,
            None => old(tree)@.max_id + whole.size() > i32::MAX,
        },
{
    tree.store_invariant();
    proof {
        lemma_batch_start(tree@, whole.kids);
        assert(ids_of(Seq::<Term>::empty()) =~= Seq::<ID>::empty());
    }
    emit(
        tree,
        kind,
        name,
        Vec::new(),
        false,
        Ghost(Seq::empty()),
        Ghost(tree@),
        Ghost(whole),
    )
}

/// The kind of the leaf that stands for a type specifier.
fn specifier_to_kind(specifier: TypeSpecifier) -> (kind: RelationKind)
    ensures
        kind == specifier_kind(specifier),
        is_type_kind(kind),
{
    match specifier {
        TypeSpecifier::Void => RelationKind::Void,
        TypeSpecifier::Int => RelationKind::Int,
        TypeSpecifier::Float => RelationKind::Float,
        TypeSpecifier::Char => RelationKind::Char,
    }
}

/// The kind of the leaf that stands for a constant.
fn constant_to_kind(constant: Constant) -> (kind: RelationKind)
    ensures
        kind == constant_kind(constant),
        is_type_kind(kind),
{
    match constant {
        Constant::Integer => RelationKind::Int,
        Constant::Float => RelationKind::Float,
        Constant::Character => RelationKind::Char,
    }
}

/// An expression stands where a statement may stand.
proof fn lemma_expression_kind(e: Expression)
    ensures
        is_statement_kind(expression_shape(e).kind),
{
}

/// A statement stands where a statement may stand.
proof fn lemma_statement_kind(s: Statement)
    ensures
        is_statement_kind(statement_shape(s).kind),
{
    match s {
        Statement::Expression(e) => lemma_expression_kind(e),
        _ => {},
    }
}

/// Builds the leaf of a type specifier.
fn visit_type_specifier(tree: &mut Tree, specifier: TypeSpecifier) -> (out: Option<
    (ID, Ghost<Term>),
>)
    ensures
        match out {
            Some((id, term)) => id == term@.id && built(
                old(tree)@,
                final(tree)@,
                term@,
                Shape::leaf(specifier_kind(specifier)),
            ) && final(tree)@.root_id == old(tree)@.root_id,
            None => old(tree)@.max_id + Shape::leaf(specifier_kind(specifier)).size() > i32::MAX,
        },
{
    emit_leaf(
        tree,
        specifier_to_kind(specifier),
        String::new(),
        Ghost(Shape::leaf(specifier_kind(specifier))),
    )
}

/// Builds the subtree of an expression.
#[verifier::spinoff_prover]
fn visit_expression(tree: &mut Tree, node: &Expression) -> (out: Option<(ID, Ghost<Term>)>)
    ensures
        match out {
            Some((id, term)) => id == term@.id && built(
                old(tree)@,
                final(tree)@,
                term@,
                expression_shape(*node),
            ) && final(tree)@.root_id == old(tree)@.root_id,
            None => old(tree)@.max_id + expression_shape(*node).size() > i32::MAX,
        },
    decreases node,
{
    tree.store_invariant();
    let ghost base = tree@;
    let ghost whole = expression_shape(*node);
    match node {
        Expression::Identifier(name) => emit_leaf(
            tree,
            RelationKind::Var,
            name.clone(),
            Ghost(whole),
        ),
        Expression::Constant(constant) => emit_leaf(
            tree,
            constant_to_kind(*constant),
            String::new(),
            Ghost(whole),
        ),
        Expression::Call(name, args) => {
            let mut children: Vec<ID> = Vec::new();
            let ghost mut kids: Seq<Term> = Seq::empty();
            proof {
                lemma_batch_start(base, whole.kids);
                assert(ids_of(kids) =~= children@);
            }
            let mut i: usize = 0;
            while i < args.len()
                invariant
                    0 <= i <= args.len(),
                    base.store_inv(),
                    base == old(tree)@,
                    whole == expression_shape(*node),
                    *node == Expression::Call(*name, *args),
                    batch(base, tree@, kids, whole.kids),
                    kids.len() == i,
                    children@ == ids_of(kids),
                    forall|j: int| 0 <= j < i ==> is_statement_kind((#[trigger] kids[j]).kind),
                decreases args.len() - i,
            {
                tree.store_invariant();
                let ghost mid = tree@;
                assert(whole.kids[i as int] == expression_shape(args@[i as int]));
                match visit_expression(tree, &args[i]) {
                    Some((id, made)) => {
                        let ghost term = made@;
                        children.push(id);
                        proof {
                            lemma_batch_push(base, mid, tree@, kids, whole.kids, term);
                            lemma_expression_kind(args@[i as int]);
                            kids = kids.push(term);
                            assert(ids_of(kids) =~= children@);
                        }
                    },
                    None => {
                        proof {
                            lemma_batch_full(base, mid, kids, whole.kids, whole);
                        }
                        return None;
                    },
                }
                i += 1;
            }
            emit(
                tree,
                RelationKind::FunCall,
                name.clone(),
                children,
                false,
                Ghost(kids),
                Ghost(base),
                Ghost(whole),
            )
        },
        Expression::BinaryOperator(_, left, right) => {
            let ghost mut kids: Seq<Term> = Seq::empty();
            proof {
                lemma_batch_start(base, whole.kids);
            }
            let mut children: Vec<ID> = Vec::new();
            match visit_expression(tree, left) {
                Some((id, made)) => {
                    let ghost term = made@;
                    children.push(id);
                    proof {
                        lemma_batch_push(base, base, tree@, kids, whole.kids, term);
                        lemma_expression_kind(**left);
                        kids = kids.push(term);
                    }
                },
                None => {
                    proof {
                        lemma_batch_full(base, base, kids, whole.kids, whole);
                    }
                    return None;
                },
            }
            tree.store_invariant();
            let ghost mid = tree@;
            match visit_expression(tree, right) {
                Some((id, made)) => {
                    let ghost term = made@;
                    children.push(id);
                    proof {
                        lemma_batch_push(base, mid, tree@, kids, whole.kids, term);
                        lemma_expression_kind(**right);
                        kids = kids.push(term);
                        assert(ids_of(kids) =~= children@);
                    }
                },
                None => {
                    proof {
                        lemma_batch_full(base, mid, kids, whole.kids, whole);
                    }
                    return None;
                },
            }
            emit(
                tree,
                RelationKind::BinaryOp,
                String::new(),
                children,
                false,
                Ghost(kids),
                Ghost(base),
                Ghost(whole),
            )
        },
    }
}


/// Builds the subtree of a statement.
#[verifier::spinoff_prover]
fn visit_statement(tree: &mut Tree, node: &Statement) -> (out: Option<(ID, Ghost<Term>)>)
    requires
        statement_supported(*node),
    ensures
        match out {
            Some((id, term)) => id == term@.id && built(
                old(tree)@,
                final(tree)@,
                term@,
                statement_shape(*node),
            ) && final(tree)@.root_id == old(tree)@.root_id,
            None => old(tree)@.max_id + statement_shape(*node).size() > i32::MAX,
        },
    decreases node, 0nat,
{
    match node {
        Statement::Compound(items) => visit_compound(tree, items),
        Statement::Declaration(specifier, name, init) => visit_declaration(
            tree,
            *specifier,
            name,
            init,
        ),
        Statement::Expression(e) => visit_expression(tree, e),
        Statement::Return(e) => visit_return(tree, e),
        Statement::If(cond, then) => {
            tree.store_invariant();
            let ghost base = tree@;
            let ghost whole = statement_shape(*node);
            let mut children: Vec<ID> = Vec::new();
            let ghost mut kids: Seq<Term> = Seq::empty();
            proof {
                lemma_batch_start(base, whole.kids);
            }
            match visit_expression(tree, cond) {
                Some((id, made)) => {
                    let ghost term = made@;
                    children.push(id);
                    proof {
                        lemma_batch_push(base, base, tree@, kids, whole.kids, term);
                        lemma_expression_kind(*cond);
                        kids = kids.push(term);
                        assert(ids_of(kids) =~= children@);
                    }
                },
                None => {
                    proof {
                        lemma_batch_full(base, base, kids, whole.kids, whole);
                    }
                    return None;
                },
            }
            tree.store_invariant();
            let ghost mid = tree@;
            match visit_statement(tree, then) {
                Some((id, made)) => {
                    let ghost term = made@;
                    children.push(id);
                    proof {
                        lemma_batch_push(base, mid, tree@, kids, whole.kids, term);
                        lemma_statement_kind(**then);
                        kids = kids.push(term);
                        assert(ids_of(kids) =~= children@);
                    }
                },
                None => {
                    proof {
                        lemma_batch_full(base, mid, kids, whole.kids, whole);
                    }
                    return None;
                },
            }
            emit(tree, RelationKind::If, String::new(), children, false, Ghost(kids), Ghost(base), Ghost(whole))

        },
        Statement::IfElse(cond, then, other) => {
            tree.store_invariant();
            let ghost base = tree@;
            let ghost whole = statement_shape(*node);
            let mut children: Vec<ID> = Vec::new();
            let ghost mut kids: Seq<Term> = Seq::empty();
            proof {
                lemma_batch_start(base, whole.kids);
            }
            match visit_expression(tree, cond) {
                Some((id, made)) => {
                    let ghost term = made@;
                    children.push(id);
                    proof {
                        lemma_batch_push(base, base, tree@, kids, whole.kids, term);
                        lemma_expression_kind(*cond);
                        kids = kids.push(term);
                        assert(ids_of(kids) =~= children@);
                    }
                },
                None => {
                    proof {
                        lemma_batch_full(base, base, kids, whole.kids, whole);
                    }
                    return None;
                },
            }
            tree.store_invariant();
            let ghost mid = tree@;
            match visit_statement(tree, then) {
                Some((id, made)) => {
                    let ghost term = made@;
                    children.push(id);
                    proof {
                        lemma_batch_push(base, mid, tree@, kids, whole.kids, term);
                        lemma_statement_kind(**then);
                        kids = kids.push(term);
                        assert(ids_of(kids) =~= children@);
                    }
                },
                None => {
                    proof {
                        lemma_batch_full(base, mid, kids, whole.kids, whole);
                    }
                    return None;
                },
            }
            tree.store_invariant();
            let ghost mid = tree@;
            match visit_statement(tree, other) {
                Some((id, made)) => {
                    let ghost term = made@;
                    children.push(id);
                    proof {
                        lemma_batch_push(base, mid, tree@, kids, whole.kids, term);
                        lemma_statement_kind(**other);
                        kids = kids.push(term);
                        assert(ids_of(kids) =~= children@);
                    }
                },
                None => {
                    proof {
                        lemma_batch_full(base, mid, kids, whole.kids, whole);
                    }
                    return None;
                },
            }
            emit(tree, RelationKind::IfElse, String::new(), children, false, Ghost(kids), Ghost(base), Ghost(whole))

        },
        Statement::While(cond, body) => {
            tree.store_invariant();
            let ghost base = tree@;
            let ghost whole = statement_shape(*node);
            let mut children: Vec<ID> = Vec::new();
            let ghost mut kids: Seq<Term> = Seq::empty();
            proof {
                lemma_batch_start(base, whole.kids);
            }
            match visit_expression(tree, cond) {
                Some((id, made)) => {
                    let ghost term = made@;
                    children.push(id);
                    proof {
                        lemma_batch_push(base, base, tree@, kids, whole.kids, term);
                        lemma_expression_kind(*cond);
                        kids = kids.push(term);
                        assert(ids_of(kids) =~= children@);
                    }
                },
                None => {
                    proof {
                        lemma_batch_full(base, base, kids, whole.kids, whole);
                    }
                    return None;
                },
            }
            tree.store_invariant();
            let ghost mid = tree@;
            match visit_statement(tree, body) {
                Some((id, made)) => {
                    let ghost term = made@;
                    children.push(id);
                    proof {
                        lemma_batch_push(base, mid, tree@, kids, whole.kids, term);
                        lemma_statement_kind(**body);
                        kids = kids.push(term);
                        assert(ids_of(kids) =~= children@);
                    }
                },
                None => {
                    proof {
                        lemma_batch_full(base, mid, kids, whole.kids, whole);
                    }
                    return None;
                },
            }
            emit(tree, RelationKind::While, String::new(), children, false, Ghost(kids), Ghost(base), Ghost(whole))

        },
    }
}

/// Builds the subtree of a return statement.
fn visit_return(tree: &mut Tree, e: &Expression) -> (out: Option<(ID, Ghost<Term>)>)
    ensures
        match out {
            Some((id, term)) => id == term@.id && built(
                old(tree)@,
                final(tree)@,
                term@,
                Shape {
                    kind: RelationKind::Return,
                    name: Seq::empty(),
                    kids: seq![expression_shape(*e)],
                },
            ) && final(tree)@.root_id == old(tree)@.root_id,
            None => old(tree)@.max_id + (Shape {
                kind: RelationKind::Return,
                name: Seq::empty(),
                kids: seq![expression_shape(*e)],
            }).size() > i32::MAX,
        },
{
    tree.store_invariant();
    let ghost base = tree@;
    let ghost whole = Shape { kind: RelationKind::Return, name: Seq::empty(), kids: seq![expression_shape(*e)] };
    let mut children: Vec<ID> = Vec::new();
    let ghost mut kids: Seq<Term> = Seq::empty();
    proof {
        lemma_batch_start(base, whole.kids);
    }
    match visit_expression(tree, e) {
        Some((id, made)) => {
            let ghost term = made@;
            children.push(id);
            proof {
                lemma_batch_push(base, base, tree@, kids, whole.kids, term);
                lemma_expression_kind(*e);
                kids = kids.push(term);
                assert(ids_of(kids) =~= children@);
            }
        },
        None => {
            proof {
                lemma_batch_full(base, base, kids, whole.kids, whole);
            }
            return None;
        },
    }
    emit(tree, RelationKind::Return, String::new(), children, false, Ghost(kids), Ghost(base), Ghost(whole))
}

/// Builds the subtree of a declaration: the type, the initialiser, the
/// assignment.
fn visit_declaration(tree: &mut Tree, specifier: TypeSpecifier, name: &String, init: &Expression) -> (out:
    Option<(ID, Ghost<Term>)>)
    ensures
        match out {
            Some((id, term)) => id == term@.id && built(
                old(tree)@,
                final(tree)@,
                term@,
                Shape {
                    kind: RelationKind::Assign,
                    name: name@,
                    kids: seq![Shape::leaf(specifier_kind(specifier)), expression_shape(*init)],
                },
            ) && final(tree)@.root_id == old(tree)@.root_id,
            None => old(tree)@.max_id + (Shape {
                kind: RelationKind::Assign,
                name: name@,
                kids: seq![Shape::leaf(specifier_kind(specifier)), expression_shape(*init)],
            }).size() > i32::MAX,
        },
{
    tree.store_invariant();
    let ghost base = tree@;
    let ghost whole = Shape { kind: RelationKind::Assign, name: name@, kids: seq![Shape::leaf(specifier_kind(specifier)), expression_shape(*init)] };
    let mut children: Vec<ID> = Vec::new();
    let ghost mut kids: Seq<Term> = Seq::empty();
    proof {
        lemma_batch_start(base, whole.kids);
    }
    match visit_type_specifier(tree, specifier) {
        Some((id, made)) => {
            let ghost term = made@;
            children.push(id);
            proof {
                lemma_batch_push(base, base, tree@, kids, whole.kids, term);
                kids = kids.push(term);
                assert(ids_of(kids) =~= children@);
            }
        },
        None => {
            proof {
                lemma_batch_full(base, base, kids, whole.kids, whole);
            }
            return None;
        },
    }
    tree.store_invariant();
    let ghost mid = tree@;
    match visit_expression(tree, init) {
        Some((id, made)) => {
            let ghost term = made@;
            children.push(id);
            proof {
                lemma_batch_push(base, mid, tree@, kids, whole.kids, term);
                lemma_expression_kind(*init);
                kids = kids.push(term);
                assert(ids_of(kids) =~= children@);
            }
        },
        None => {
            proof {
                lemma_batch_full(base, mid, kids, whole.kids, whole);
            }
            return None;
        },
    }
    emit(tree, RelationKind::Assign, name.clone(), children, false, Ghost(kids), Ghost(base), Ghost(whole))
}

/// Builds the subtree of a block: its statement list, then the compound.
fn visit_compound(tree: &mut Tree, items: &Vec<Statement>) -> (out: Option<(ID, Ghost<Term>)>)
    requires
        items@.len() > 0,
        forall|i: int| 0 <= i < items@.len() ==> statement_supported(#[trigger] items@[i]),
    ensures
        match out {
            Some((id, term)) => id == term@.id && built(
                old(tree)@,
                final(tree)@,
                term@,
                Shape {
                    kind: RelationKind::Compound,
                    name: Seq::empty(),
                    kids: seq![items_shape(items@, 0)],
                },
            ) && final(tree)@.root_id == old(tree)@.root_id,
            None => old(tree)@.max_id + (Shape {
                kind: RelationKind::Compound,
                name: Seq::empty(),
                kids: seq![items_shape(items@, 0)],
            }).size() > i32::MAX,
        },
    decreases items, items.len() + 1,
{
    tree.store_invariant();
    let ghost base = tree@;
    let ghost whole = Shape { kind: RelationKind::Compound, name: Seq::empty(), kids: seq![items_shape(items@, 0)] };
    let mut children: Vec<ID> = Vec::new();
    let ghost mut kids: Seq<Term> = Seq::empty();
    proof {
        lemma_batch_start(base, whole.kids);
    }
    match visit_items(tree, items, 0) {
        Some((id, made)) => {
            let ghost term = made@;
            children.push(id);
            proof {
                lemma_batch_push(base, base, tree@, kids, whole.kids, term);
                kids = kids.push(term);
                assert(ids_of(kids) =~= children@);
            }
        },
        None => {
            proof {
                lemma_batch_full(base, base, kids, whole.kids, whole);
            }
            return None;
        },
    }
    emit(tree, RelationKind::Compound, String::new(), children, false, Ghost(kids), Ghost(base), Ghost(whole))
}

/// Builds the statement list that holds the statements from `from` on: the
/// statement, the cells after it, then its own cell.
fn visit_items(tree: &mut Tree, items: &Vec<Statement>, from: usize) -> (out: Option<
    (ID, Ghost<Term>),
>)
    requires
        from < items@.len(),
        forall|i: int| 0 <= i < items@.len() ==> statement_supported(#[trigger] items@[i]),
    ensures
        match out {
            Some((id, term)) => id == term@.id && built(
                old(tree)@,
                final(tree)@,
                term@,
                items_shape(items@, from as int),
            ) && final(tree)@.root_id == old(tree)@.root_id,
            None => old(tree)@.max_id + items_shape(items@, from as int).size() > i32::MAX,
        },
    decreases items, items.len() - from,
{
    if from == items.len() - 1 {
        tree.store_invariant();
        let ghost base = tree@;
        let ghost whole = items_shape(items@, from as int);
        let mut children: Vec<ID> = Vec::new();
        let ghost mut kids: Seq<Term> = Seq::empty();
        proof {
            lemma_batch_start(base, whole.kids);
        }
        match visit_statement(tree, &items[from]) {
            Some((id, made)) => {
                let ghost term = made@;
                children.push(id);
                proof {
                    lemma_batch_push(base, base, tree@, kids, whole.kids, term);
                    lemma_statement_kind(items@[from as int]);
                    kids = kids.push(term);
                    assert(ids_of(kids) =~= children@);
                }
            },
            None => {
                proof {
                    lemma_batch_full(base, base, kids, whole.kids, whole);
                }
                return None;
            },
        }
        emit(tree, RelationKind::EndItem, String::new(), children, false, Ghost(kids), Ghost(base), Ghost(whole))

    } else {
        tree.store_invariant();
        let ghost base = tree@;
        let ghost whole = items_shape(items@, from as int);
        let mut children: Vec<ID> = Vec::new();
        let ghost mut kids: Seq<Term> = Seq::empty();
        proof {
            lemma_batch_start(base, whole.kids);
        }
        match visit_statement(tree, &items[from]) {
            Some((id, made)) => {
                let ghost term = made@;
                children.push(id);
                proof {
                    lemma_batch_push(base, base, tree@, kids, whole.kids, term);
                    lemma_statement_kind(items@[from as int]);
                    kids = kids.push(term);
                    assert(ids_of(kids) =~= children@);
                }
            },
            None => {
                proof {
                    lemma_batch_full(base, base, kids, whole.kids, whole);
                }
                return None;
            },
        }
        tree.store_invariant();
        let ghost mid = tree@;
        match visit_items(tree, items, from + 1) {
            Some((id, made)) => {
                let ghost term = made@;
                children.push(id);
                proof {
                    lemma_batch_push(base, mid, tree@, kids, whole.kids, term);
                    kids = kids.push(term);
                    assert(ids_of(kids) =~= children@);
                }
            },
            None => {
                proof {
                    lemma_batch_full(base, mid, kids, whole.kids, whole);
                }
                return None;
            },
        }
        emit(tree, RelationKind::Item, String::new(), children, false, Ghost(kids), Ghost(base), Ghost(whole))

    }
}

/// Builds the subtree of a formal parameter: its type, then the parameter.
fn visit_parameter_declaration(tree: &mut Tree, node: &ParameterDeclaration) -> (out: Option<
    (ID, Ghost<Term>),
>)
    ensures
        match out {
            Some((id, term)) => id == term@.id && built(
                old(tree)@,
                final(tree)@,
                term@,
                parameter_shape(*node),
            ) && final(tree)@.root_id == old(tree)@.root_id,
            None => old(tree)@.max_id + parameter_shape(*node).size() > i32::MAX,
        },
{
    tree.store_invariant();
    let ghost base = tree@;
    let ghost whole = parameter_shape(*node);
    let mut children: Vec<ID> = Vec::new();
    let ghost mut kids: Seq<Term> = Seq::empty();
    proof {
        lemma_batch_start(base, whole.kids);
    }
    match visit_type_specifier(tree, node.specifier) {
        Some((id, made)) => {
            let ghost term = made@;
            children.push(id);
            proof {
                lemma_batch_push(base, base, tree@, kids, whole.kids, term);
                kids = kids.push(term);
                assert(ids_of(kids) =~= children@);
            }
        },
        None => {
            proof {
                lemma_batch_full(base, base, kids, whole.kids, whole);
            }
            return None;
        },
    }
    emit(tree, RelationKind::Arg, node.name.clone(), children, false, Ghost(kids), Ghost(base), Ghost(whole))
}

/// Builds the subtree of a function definition: the return type, the
/// parameters, the body, then the definition.
#[verifier::spinoff_prover]
fn visit_function_definition(tree: &mut Tree, node: &FunctionDefinition) -> (out: Option<
    (ID, Ghost<Term>),
>)
    requires
        crate::syntax::function_supported(*node),
    ensures
        match out {
            Some((id, term)) => id == term@.id && built(
                old(tree)@,
                final(tree)@,
                term@,
                function_shape(*node),
            ) && final(tree)@.root_id == old(tree)@.root_id,
            None => old(tree)@.max_id + function_shape(*node).size() > i32::MAX,
        },
{
    tree.store_invariant();
    let ghost base = tree@;
    let ghost whole = function_shape(*node);
    let mut children: Vec<ID> = Vec::new();
    let ghost mut kids: Seq<Term> = Seq::empty();
    let ghost count = node.parameters@.len() as int;
    proof {
        lemma_batch_start(base, whole.kids);
        assert(whole.kids.len() == count + 2);
        assert(whole.kids[0] == Shape::leaf(specifier_kind(node.specifier)));
    }
    match visit_type_specifier(tree, node.specifier) {
        Some((id, made)) => {
            let ghost term = made@;
            children.push(id);
            proof {
                lemma_batch_push(base, base, tree@, kids, whole.kids, term);
                kids = kids.push(term);
                assert(ids_of(kids) =~= children@);
            }
        },
        None => {
            proof {
                lemma_batch_full(base, base, kids, whole.kids, whole);
            }
            return None;
        },
    }
    let mut i: usize = 0;
    while i < node.parameters.len()
        invariant
            0 <= i <= node.parameters.len(),
            base.store_inv(),
            base == old(tree)@,
            whole == function_shape(*node),
            count == node.parameters@.len(),
            whole.kids.len() == count + 2,
            batch(base, tree@, kids, whole.kids),
            kids.len() == i + 1,
            children@ == ids_of(kids),
            is_type_kind(kids[0].kind),
            forall|j: int| 0 < j < i + 1 ==> (#[trigger] kids[j]).kind == RelationKind::Arg,
        decreases node.parameters.len() - i,
    {
        assert(whole.kids[i + 1] == parameter_shape(node.parameters@[i as int]));
        tree.store_invariant();
        let ghost mid = tree@;
        match visit_parameter_declaration(tree, &node.parameters[i]) {
            Some((id, made)) => {
                let ghost term = made@;
                children.push(id);
                proof {
                    lemma_batch_push(base, mid, tree@, kids, whole.kids, term);
                    kids = kids.push(term);
                    assert(ids_of(kids) =~= children@);
                }
            },
            None => {
                proof {
                    lemma_batch_full(base, mid, kids, whole.kids, whole);
                }
                return None;
            },
        }

        i += 1;
    }
    proof {
        assert(whole.kids[count + 1] == Shape {
            kind: RelationKind::Compound,
            name: Seq::empty(),
            kids: seq![items_shape(node.body@, 0)],
        });
    }
    tree.store_invariant();
    let ghost mid = tree@;
    match visit_compound(tree, &node.body) {
        Some((id, made)) => {
            let ghost term = made@;
            children.push(id);
            proof {
                lemma_batch_push(base, mid, tree@, kids, whole.kids, term);
                kids = kids.push(term);
                assert(ids_of(kids) =~= children@);
            }
        },
        None => {
            proof {
                lemma_batch_full(base, mid, kids, whole.kids, whole);
            }
            return None;
        },
    }
    proof {
        let probe = Term { kind: RelationKind::FunDef, id: 0, name: Seq::empty(), kids };
        assert(probe.kids[count + 1].kind == RelationKind::Compound);
        assert(probe.kids_fit());
    }
    emit(
        tree,
        RelationKind::FunDef,
        node.name.clone(),
        children,
        false,
        Ghost(kids),
        Ghost(base),
        Ghost(whole),
    )
}

/// Builds the tree of a translation unit: its functions in order, then the
/// root.
#[verifier::spinoff_prover]
fn visit_translation_unit(tree: &mut Tree, node: &TranslationUnit) -> (out: Option<
    (ID, Ghost<Term>),
>)
    requires
        unit_supported(*node),
    ensures
        match out {
            Some((id, term)) => id == term@.id && built(
                old(tree)@,
                final(tree)@,
                term@,
                unit_shape(*node),
            ) && final(tree)@.root_id == id,
            None => old(tree)@.max_id + unit_shape(*node).size() > i32::MAX,
        },
{
    tree.store_invariant();
    let ghost base = tree@;
    let ghost whole = unit_shape(*node);
    let mut children: Vec<ID> = Vec::new();
    let ghost mut kids: Seq<Term> = Seq::empty();
    proof {
        lemma_batch_start(base, whole.kids);
        assert(ids_of(kids) =~= children@);
    }
    let mut i: usize = 0;
    while i < node.functions.len()
        invariant
            0 <= i <= node.functions.len(),
            base.store_inv(),
            base == old(tree)@,
            unit_supported(*node),
            whole == unit_shape(*node),
            batch(base, tree@, kids, whole.kids),
            kids.len() == i,
            children@ == ids_of(kids),
            forall|j: int| 0 <= j < i ==> (#[trigger] kids[j]).kind == RelationKind::FunDef,
        decreases node.functions.len() - i,
    {
        assert(whole.kids[i as int] == function_shape(node.functions@[i as int]));
        assert(crate::syntax::function_supported(node.functions@[i as int]));
        tree.store_invariant();
        let ghost mid = tree@;
        match visit_function_definition(tree, &node.functions[i]) {
            Some((id, made)) => {
                let ghost term = made@;
                children.push(id);
                proof {
                    lemma_batch_push(base, mid, tree@, kids, whole.kids, term);
                    kids = kids.push(term);
                    assert(ids_of(kids) =~= children@);
                }
            },
            None => {
                proof {
                    lemma_batch_full(base, mid, kids, whole.kids, whole);
                }
                return None;
            },
        }

        i += 1;
    }
    emit(
        tree,
        RelationKind::TransUnit,
        String::new(),
        children,
        true,
        Ghost(kids),
        Ghost(base),
        Ghost(whole),
    )
}

/// Builds relational trees from parsed programs. It holds the tree it built
/// last and the largest identity it gave out.
pub struct AstBuilder {
    tree: Tree,
    current_max_id: ID,
}

impl AstBuilder {
    /// The tree that the builder holds.
    pub closed spec fn last_tree(&self) -> TreeView {
        self.tree@
    }

    /// The largest identity that the builder has given out.
    pub closed spec fn last_id(&self) -> ID {
        self.current_max_id
    }

    /// A builder that has built nothing yet: it holds the empty tree and has
    /// given out no identity.
    pub fn new() -> (builder: Self)
        ensures
            builder.last_tree().nodes == Map::<ID, NodeView>::empty(),
            builder.last_tree().max_id == 0,
            builder.last_tree().root_id == 0,
            builder.last_id() == 0,
    {
        Self { tree: Tree::new(), current_max_id: 0 }
    }

    /// Builds the tree of a translation unit. Identities run from 1 to the
    /// number of nodes, the root has the largest. A unit with an empty block
    /// or an operator that the tree cannot stand for is not supported; one
    /// with more nodes than there are identities cannot be built. The builder
    /// then stays as it was; after a success it holds the tree it built.
    pub fn build_tree(&mut self, node: &TranslationUnit) -> (out: Result<Tree, InternalError>)
        ensures
            match out {
                Ok(tree) => final(self).last_tree() == tree@ && final(self).last_id()
                    == tree@.max_id,
                Err(_) => final(self).last_tree() == old(self).last_tree()
                    && final(self).last_id() == old(self).last_id(),
            },
            match out {
                Ok(tree) => unit_supported(*node) && tree@.wf() && tree@.term().shape()
                    == unit_shape(*node) && tree@.term() == tree@.term().renumbered(0)
                    && tree@.max_id == unit_shape(*node).size() && tree@.root_id
                    == tree@.max_id,
                Err(e) => if !unit_supported(*node) {
                    e == InternalError::UnsupportedConstruct
                } else {
                    e == InternalError::InvariantViolation && unit_shape(*node).size() > i32::MAX
                },
            },
    {
        if !is_unit_supported(node) {
            return Err(InternalError::UnsupportedConstruct);
        }
        let mut tree = Tree::new();
        match visit_translation_unit(&mut tree, node) {
            Some((id, made)) => {
                let ghost term = made@;
                tree.store_invariant();
                proof {
                    reveal(numbered);
                    reveal(built);
                    lemma_embeds_dom(term, tree@.nodes);
                    lemma_shape_size(term);
                    assert(term.ids() =~= tree@.nodes.dom());
                    assert(tree@.represents(term));
                    lemma_term_unique(tree@, term);
                }
                self.tree = tree.clone();
                self.current_max_id = id;
                Ok(tree)
            },
            None => Err(InternalError::InvariantViolation),
        }
    }
}

/// Builds the tree of the program of a file, from what the parser made of
/// the file.
pub fn parse_file_into_ast(node: &TranslationUnit) -> (out: Result<Tree, InternalError>)
    ensures
        match out {
            Ok(tree) => unit_supported(*node) && tree@.wf() && tree@.term().shape() == unit_shape(
                *node,
            ) && tree@.term() == tree@.term().renumbered(0) && tree@.max_id == unit_shape(
                *node,
            ).size() && tree@.root_id == tree@.max_id,
            Err(e) => if !unit_supported(*node) {
                e == InternalError::UnsupportedConstruct
            } else {
                e == InternalError::InvariantViolation && unit_shape(*node).size() > i32::MAX
            },
        },
{
    let mut builder = AstBuilder::new();
    builder.build_tree(node)
}

} // verus!
