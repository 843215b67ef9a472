//! An incremental type checker for a small subset of C: a relational model of
//! the program tree, a structural differ that keeps the identities of what did
//! not change, a delta engine that turns the differences into a verdict, and
//! a baseline checker that applies the typing rules from scratch.

use vstd::prelude::*;

pub mod ast;
pub mod ddlog_interface;
pub mod definitions;
pub mod differ;
pub mod facts;
pub mod outline;
pub mod parser_interface;
pub mod rebuild;
pub mod relation_set;
pub mod standard_type_checker;
pub mod syntax;
pub mod term;
pub mod type_rules;
mod workspace;

verus! {

/// Finds the program delta between two trees: the relations to insert, the
/// relations to delete, and the first tree rebuilt in the shape of the second.
pub fn compute_diff(t1: ast::Tree, t2: ast::Tree) -> (out: (
    relation_set::RelationSet,
    relation_set::RelationSet,
    ast::Tree,
))
    requires
        t1@.wf(),
        t2@.wf(),
        t1@.max_id + t2@.nodes.len() <= i32::MAX,
    ensures
        out.2@.wf(),
        out.2@.root_id == t1@.root_id,
        out.0@ == out.2@.relation_set().difference(t1@.relation_set()),
        out.1@ == t1@.relation_set().difference(out.2@.relation_set()),
        out.0@.disjoint(out.1@),
        t1@.relation_set().union(out.0@).difference(out.1@) == out.2@.relation_set(),
        differ::same_program(out.2@.term(), t2@.term()),
        differ::keeps_functions(t1@.term().kids, t2@.term().kids, out.2@.term().kids),
        differ::takes_nothing(
            t1@.term().kids,
            t2@.term().kids,
            out.2@.term().kids,
            t1@.term().kids.len() as int,
            t1@.root_id,
        ),
        differ::numbered_upward(
            t1@.term().kids,
            t2@.term().kids,
            out.2@.term().kids,
            t1@.root_id,
            out.2@.max_id,
        ),
        (out.2@.term().kids, out.2@.max_id as int) == differ::rebuilt_functions(
            t1@.term(),
            t2@.term().kids,
            t1@.nodes.dom(),
            t1@.max_id as int,
        ),
        t1@.term().shape() == t2@.term().shape() ==> out.2@ == t1@ && out.0@ == Set::<
            definitions::RelationView,
        >::empty() && out.1@ == Set::<definitions::RelationView>::empty(),
{
    differ::get_diff_relation_set(&t1, &t2)
}

/// Builds the tree of relations of a parsed program.
pub fn parse_into_relation_tree(node: &syntax::TranslationUnit) -> (out: Result<
    ast::Tree,
    definitions::InternalError,
>)
    ensures
        match out {
            Ok(tree) => syntax::unit_supported(*node) && tree@.wf() && tree@.term().shape()
                == syntax::unit_shape(*node) && tree@.term() == tree@.term().renumbered(0)
                && tree@.max_id == syntax::unit_shape(*node).size() && tree@.root_id
                == tree@.max_id,
            Err(e) => if !syntax::unit_supported(*node) {
                e == definitions::InternalError::UnsupportedConstruct
            } else {
                e == definitions::InternalError::InvariantViolation && syntax::unit_shape(
                    *node,
                ).size() > i32::MAX
            },
        },
{
    parser_interface::parse_file_into_ast(node)
}

/// Type-checks a parsed program once with the baseline checker. Returns the
/// verdict and the tree of the program.
pub fn single_standard_type_check(node: &syntax::TranslationUnit) -> (out: Result<
    (bool, ast::Tree),
    definitions::InternalError,
>)
    ensures
        match out {
            Ok((ok, tree)) => syntax::unit_supported(*node) && tree@.wf() && tree@.term().shape()
                == syntax::unit_shape(*node) && ok == type_rules::program_ok(
                syntax::unit_shape(*node),
            ),
            Err(e) => if !syntax::unit_supported(*node) {
                e == definitions::InternalError::UnsupportedConstruct
            } else {
                e == definitions::InternalError::InvariantViolation && syntax::unit_shape(
                    *node,
                ).size() > i32::MAX
            },
        },
{
    match parser_interface::parse_file_into_ast(node) {
        Ok(tree) => {
            let ok = standard_type_checker::type_check(&tree);
            Ok((ok, tree))
        },
        Err(e) => Err(e),
    }
}

/// Runs the baseline checker on a tree and gives its verdict.
pub fn standard_type_check_without_parse(program: ast::Tree) -> (ok: bool)
    requires
        program@.wf(),
    ensures
        ok == type_rules::program_ok(program@.term().shape()),
{
    standard_type_checker::type_check(&program)
}

/// Type-checks a parsed program once with the delta engine: builds the tree
/// of the program, hands its relations to an engine that knows none, and
/// returns the verdict, the tree and the engine.
pub fn single_datalog_type_check(node: &syntax::TranslationUnit) -> (out: Result<
    (bool, ast::Tree, ddlog_interface::DeltaEngine),
    definitions::InternalError,
>)
    ensures
        match out {
            Ok((ok, tree, engine)) => syntax::unit_supported(*node) && tree@.wf()
                && tree@.term().shape() == syntax::unit_shape(*node) && engine@
                == tree@.relation_set() && ok == type_rules::program_ok(
                syntax::unit_shape(*node),
            ),
            Err(e) => if !syntax::unit_supported(*node) {
                e == definitions::InternalError::UnsupportedConstruct
            } else {
                e == definitions::InternalError::InvariantViolation && syntax::unit_shape(
                    *node,
                ).size() > i32::MAX
            },
        },
{
    match parser_interface::parse_file_into_ast(node) {
        Ok(tree) => {
            let mut engine = ddlog_interface::DeltaEngine::new();
            let insert_set = ast::get_initial_relation_set(&tree);
            let delete_set = relation_set::RelationSet::new();
            let ok = ddlog_interface::run_ddlog_type_checker(
                &mut engine,
                insert_set,
                delete_set,
                false,
            );
            proof {
                assert(engine@ =~= tree@.relation_set());
                facts::lemma_store_tree(tree@);
            }
            Ok((ok, tree, engine))
        },
        Err(e) => Err(e),
    }
}

/// One round of the incremental checker, after the program was saved and
/// parsed again: finds the delta between the maintained tree and the new
/// tree, hands it to the engine, and returns the verdict and the maintained
/// tree for the next round. The verdict is that of the baseline checker on
/// the new tree. Where the new tree would need more identities than are
/// left, nothing is done and `None` is returned.
pub fn incremental_type_check(
    prev_ast: &ast::Tree,
    new_ast: &ast::Tree,
    hddlog: &mut ddlog_interface::DeltaEngine,
    prev_result: bool,
) -> (out: Option<(bool, ast::Tree)>)
    requires
        prev_ast@.wf(),
        new_ast@.wf(),
        old(hddlog)@ == prev_ast@.relation_set(),
    ensures
        match out {
            Some((ok, updated)) => prev_ast@.max_id + new_ast@.nodes.len() <= i32::MAX
                && updated@.wf() && final(hddlog)@ == updated@.relation_set()
                && differ::same_program(updated@.term(), new_ast@.term())
                && differ::keeps_functions(
                prev_ast@.term().kids,
                new_ast@.term().kids,
                updated@.term().kids,
            ) && differ::takes_nothing(
                prev_ast@.term().kids,
                new_ast@.term().kids,
                updated@.term().kids,
                prev_ast@.term().kids.len() as int,
                prev_ast@.root_id,
            ) && differ::numbered_upward(
                prev_ast@.term().kids,
                new_ast@.term().kids,
                updated@.term().kids,
                prev_ast@.root_id,
                updated@.max_id,
            ) && (updated@.term().kids, updated@.max_id as int) == differ::rebuilt_functions(
                prev_ast@.term(),
                new_ast@.term().kids,
                prev_ast@.nodes.dom(),
                prev_ast@.max_id as int,
            ) && ok
                == type_rules::program_ok(new_ast@.term().shape()) && (prev_ast@.term().shape()
                == new_ast@.term().shape() ==> updated@ == prev_ast@),
            None => prev_ast@.max_id + new_ast@.nodes.len() > i32::MAX && final(hddlog)@ == old(
                hddlog,
            )@,
        },
{
    let top: i64 = prev_ast.max_id() as i64;
    let room: i64 = 2147483647i64 - top;
    if new_ast.size() > room as usize {
        return None;
    }
    let (insert_set, delete_set, updated) = differ::get_diff_relation_set(prev_ast, new_ast);
    let ok = ddlog_interface::run_ddlog_type_checker(hddlog, insert_set, delete_set, prev_result);
    proof {
        ddlog_interface::lemma_incremental_equivalence(hddlog@, updated@, new_ast@);
    }
    Some((ok, updated))
}

/// Hands given relations to the engine and gives its verdict.
pub fn datalog_type_check_without_diff(
    prev_result: bool,
    hddlog: &mut ddlog_interface::DeltaEngine,
    insertion_set: relation_set::RelationSet,
    deletion_set: relation_set::RelationSet,
) -> (ok: bool)
    ensures
        final(hddlog)@ == old(hddlog)@.union(insertion_set@).difference(deletion_set@),
        ok == ddlog_interface::store_ok(final(hddlog)@),
{
    ddlog_interface::run_ddlog_type_checker(hddlog, insertion_set, deletion_set, prev_result)
}

/// One round of the repeated baseline check, after the program was saved
/// and parsed again.
pub fn repeated_standard_type_check(node: &syntax::TranslationUnit) -> (out: Result<
    bool,
    definitions::InternalError,
>)
    ensures
        match out {
            Ok(ok) => syntax::unit_supported(*node) && ok == type_rules::program_ok(
                syntax::unit_shape(*node),
            ),
            Err(e) => if !syntax::unit_supported(*node) {
                e == definitions::InternalError::UnsupportedConstruct
            } else {
                e == definitions::InternalError::InvariantViolation && syntax::unit_shape(
                    *node,
                ).size() > i32::MAX
            },
        },
{
    match single_standard_type_check(node) {
        Ok((ok, _)) => Ok(ok),
        Err(e) => Err(e),
    }
}

} // verus!
