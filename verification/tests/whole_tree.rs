use cerium_framework::ast::{delete_onwards, get_initial_relation_set, insert_onwards, Tree};
use cerium_framework::definitions::AstRelation;

fn put(tree: &mut Tree, relation: AstRelation) {
    let id = cerium_framework::ast::get_relation_id(&relation);
    let children = relation.child_ids();
    tree.add_node(id, relation).unwrap();
    tree.replace_children(id, children).unwrap();
}

fn put_root(tree: &mut Tree, relation: AstRelation) {
    let id = cerium_framework::ast::get_relation_id(&relation);
    let children = relation.child_ids();
    tree.add_root_node(id, relation).unwrap();
    tree.replace_children(id, children).unwrap();
}

// int main(){ int x = 1; return x; }
fn sample() -> Tree {
    let mut tree = Tree::new();
    put(&mut tree, AstRelation::Int { id: 1 });
    put(&mut tree, AstRelation::Int { id: 2 });
    put(&mut tree, AstRelation::Int { id: 3 });
    put(&mut tree, AstRelation::Assign { id: 4, var_name: String::from("x"), type_id: 2, expr_id: 3 });
    put(&mut tree, AstRelation::Var { id: 5, var_name: String::from("x") });
    put(&mut tree, AstRelation::Return { id: 6, expr_id: 5 });
    put(&mut tree, AstRelation::EndItem { id: 7, stmt_id: 6 });
    put(&mut tree, AstRelation::Item { id: 8, stmt_id: 4, next_stmt_id: 7 });
    put(&mut tree, AstRelation::Compound { id: 9, start_id: 8 });
    put(
        &mut tree,
        AstRelation::FunDef {
            id: 10,
            fun_name: String::from("main"),
            return_type_id: 1,
            arg_ids: vec![],
            body_id: 9,
        },
    );
    put_root(&mut tree, AstRelation::TransUnit { id: 11, body_ids: vec![10] });
    tree
}

#[test]
fn delete_whole_tree() {
    let tree = sample();
    let all = get_initial_relation_set(&tree);
    let root = tree.get_root();
    let (deleted, rest) = delete_onwards(root, tree);
    assert_eq!(rest.size(), 0);
    assert_eq!(rest.max_id(), 0);
    assert_eq!(deleted.len(), 11);
    for relation in all.to_vec() {
        assert!(deleted.contains(&relation));
    }
}

#[test]
fn insert_whole_tree() {
    let source = sample();
    let (inserted, tree, new_root) = insert_onwards(source.get_root(), Tree::new(), &source);
    assert_eq!(tree.size(), 11);
    assert_eq!(new_root, 11);
    assert_eq!(tree.max_id(), 11);
    assert_eq!(inserted.len(), 11);
    assert!(inserted.contains(&AstRelation::FunDef {
        id: 10,
        fun_name: String::from("main"),
        return_type_id: 1,
        arg_ids: vec![],
        body_id: 9,
    }));
    assert!(inserted.contains(&AstRelation::TransUnit { id: 11, body_ids: vec![10] }));
}
