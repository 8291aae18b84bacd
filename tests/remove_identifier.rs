use nixcodemod::{apply_operations, find_all, find_children, Operation, OperationError, Remove};
use rnix::parser::{ASTKind, ASTNode, Arena, Data, NodeId};

fn pattern_entry(_: &Arena, _: NodeId, node: &ASTNode) -> bool {
    node.kind == ASTKind::PatEntry
}

fn pattern(_: &Arena, _: NodeId, node: &ASTNode) -> bool {
    node.kind == ASTKind::Pattern
}

fn identifier(_: &Arena, _: NodeId, node: &ASTNode) -> bool {
    node.kind == ASTKind::Ident
}

fn name_of(node: &ASTNode) -> String {
    match &node.data {
        Data::Ident(_, name) => name.clone(),
        _ => unreachable!(),
    }
}

#[test]
fn test_remove_pattern_entry() {
    let code = r#"
            { some, function, arguments }:
            {
                foo = "bar";
            }
        "#;
    let expected = r#"
            { some, arguments }:
            {
                foo = "bar";
            }
        "#;

    let ast = rnix::parse(code).unwrap();
    let operations: Vec<Operation> = find_all(&pattern_entry, &ast)
        .get(1)
        .map(|(node_id, _)| Operation::Remove(*node_id, Remove {}))
        .into_iter()
        .collect();
    let new_ast = apply_operations(&ast, &operations).unwrap();

    assert_eq!(format!("{}", new_ast), expected);
}

#[test]
fn test_remove_pattern_entry_leading_comma() {
    let code = r#"
            { some
            , function
            , arguments
            }:
            {
                foo = "bar";
            }
        "#;
    let expected = r#"
            { some
            , function
            }:
            {
                foo = "bar";
            }
        "#;

    let ast = rnix::parse(code).unwrap();
    let operations: Vec<Operation> = find_all(&pattern_entry, &ast)
        .get(2)
        .map(|(node_id, _)| Operation::Remove(*node_id, Remove {}))
        .into_iter()
        .collect();
    let new_ast = apply_operations(&ast, &operations).unwrap();

    assert_eq!(format!("{}", new_ast), expected);
}

#[test]
fn remove_leading_comma_entry_in_the_middle() {
    let code = "{ some\n, function\n, arguments\n}: 1";
    let ast = rnix::parse(code).unwrap();
    let target = find_all(&pattern_entry, &ast)[1].0;
    let new_ast = apply_operations(&ast, &[Operation::Remove(target, Remove {})]).unwrap();
    assert_eq!(format!("{}", new_ast), "{ some\n, arguments\n}: 1");
}

#[test]
fn remove_leaves_the_input_tree_unchanged() {
    let code = "{ some, function, arguments }: some";
    let ast = rnix::parse(code).unwrap();
    let target = find_all(&pattern_entry, &ast)[1].0;
    let new_ast = apply_operations(&ast, &[Operation::Remove(target, Remove {})]).unwrap();
    assert_eq!(format!("{}", ast), code);
    assert_eq!(format!("{}", new_ast), "{ some, arguments }: some");
    assert!(new_ast.arena.get_ref()[target.0].is_none());
}

#[test]
fn remove_of_removed_node_is_invalid_target() {
    let ast = rnix::parse("{ a, b }: a").unwrap();
    let target = find_all(&pattern_entry, &ast)[0].0;
    let result = apply_operations(
        &ast,
        &[Operation::Remove(target, Remove {}), Operation::Remove(target, Remove {})],
    );
    assert_eq!(result.err(), Some(OperationError::InvalidTarget(target)));
}

#[test]
fn remove_of_unknown_identifier_is_invalid_target() {
    let ast = rnix::parse("{ a, b }: a").unwrap();
    let outside = NodeId(ast.arena.get_ref().len() + 5);
    let result = apply_operations(&ast, &[Operation::Remove(outside, Remove {})]);
    assert_eq!(result.err(), Some(OperationError::InvalidTarget(outside)));
}

#[test]
fn remove_of_root_is_invalid_target() {
    let ast = rnix::parse("{ a, b }: a").unwrap();
    let root = ast.root;
    let result = apply_operations(&ast, &[Operation::Remove(root, Remove {})]);
    assert_eq!(result.err(), Some(OperationError::InvalidTarget(root)));
}

fn argument_names(ast: &rnix::parser::AST<'static>) -> Vec<(NodeId, NodeId, String)> {
    find_children(&pattern, ast, ast.root)
        .into_iter()
        .flat_map(|(pattern_id, _)| find_children(&pattern_entry, ast, pattern_id))
        .filter_map(|(entry_id, _)| {
            find_children(&identifier, ast, entry_id)
                .get(0)
                .map(|(ident_id, node)| (entry_id, *ident_id, name_of(node)))
        })
        .collect()
}

#[test]
fn unused_arguments_are_removed() {
    let ast = rnix::parse("{ a, b, c }: { x = b; }").unwrap();
    let arguments = argument_names(&ast);
    let used: Vec<String> = find_all(&identifier, &ast)
        .into_iter()
        .filter(|(id, _)| !arguments.iter().any(|(_, ident, _)| ident == id))
        .map(|(_, node)| name_of(&node))
        .collect();
    let unused: Vec<&(NodeId, NodeId, String)> =
        arguments.iter().filter(|(_, _, name)| !used.contains(name)).collect();
    let unused_names: Vec<String> = unused.iter().map(|(_, _, name)| name.clone()).collect();
    assert_eq!(unused_names, vec!["a".to_string(), "c".to_string()]);

    let operations: Vec<Operation> = unused
        .iter()
        .map(|(entry, _, _)| Operation::Remove(*entry, Remove {}))
        .collect();
    let new_ast = apply_operations(&ast, &operations).unwrap();
    let remaining: Vec<String> =
        argument_names(&new_ast).into_iter().map(|(_, _, name)| name).collect();
    assert_eq!(remaining, vec!["b".to_string()]);
    assert_eq!(format!("{}", new_ast), "{ b}: { x = b; }");
}
