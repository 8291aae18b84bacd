use nixcodemod::{
    apply_operations, build_identifier, find_all, IsolatedNode, Operation, OperationError,
    Replacement,
};
use rnix::parser::{ASTKind, ASTNode, Arena, Data, NodeId};

fn some_identifier(_: &Arena, _: NodeId, node: &ASTNode) -> bool {
    match &node.data {
        rnix::parser::Data::Ident(_, name) => name == "some",
        _ => false,
    }
}

fn pattern_entry(_: &Arena, _: NodeId, node: &ASTNode) -> bool {
    node.kind == ASTKind::PatEntry
}

#[test]
fn test_replace_identifier_by_identifier() {
    let code = r#"
            { some, function }:
            {
                inherit some;
                foo = "bar";
            }
        "#;
    let expected = r#"
            { other, function }:
            {
                inherit other;
                foo = "bar";
            }
        "#;

    let ast = rnix::parse(code).unwrap();
    let nodes_to_replace = find_all(&some_identifier, &ast);
    let operations: Vec<Operation> = nodes_to_replace
        .into_iter()
        .map(|(node_id, _)| {
            Operation::Replace(
                node_id,
                Replacement {
                    node: build_identifier("other"),
                },
            )
        })
        .collect();
    let new_ast = apply_operations(&ast, &operations).unwrap();

    assert_eq!(format!("{}", new_ast), expected);
}

#[test]
fn no_operations_print_the_same_text() {
    let code = "{ some, function }: { inherit some; foo = \"bar\"; }";
    let ast = rnix::parse(code).unwrap();
    let same = apply_operations(&ast, &[]).unwrap();
    assert_eq!(format!("{}", same), format!("{}", ast));
    assert_eq!(same.root, ast.root);
    assert_eq!(same.arena.get_ref().len(), ast.arena.get_ref().len());
}

#[test]
fn build_identifier_holds_the_name() {
    match build_identifier("other") {
        IsolatedNode::Identifier(id) => assert_eq!(id.name, "other"),
    }
}

#[test]
fn replacement_takes_a_fresh_identifier_and_the_old_one_is_gone() {
    let ast = rnix::parse("{ some }: some").unwrap();
    let before = ast.arena.get_ref().len();
    let target = find_all(&some_identifier, &ast)[0].0;
    let op = Operation::Replace(target, Replacement { node: build_identifier("x") });
    let new_ast = apply_operations(&ast, &[op]).unwrap();
    assert_eq!(new_ast.arena.get_ref().len(), before + 1);
    assert!(new_ast.arena.get_ref()[target.0].is_none());
    match &new_ast.arena[NodeId(before)].data {
        Data::Ident(_, name) => assert_eq!(name, "x"),
        _ => panic!("not an identifier"),
    }
    assert_eq!(format!("{}", new_ast), "{ x }: some");
    assert_eq!(format!("{}", ast), "{ some }: some");
}

#[test]
fn dependent_operations_equal_sequential_application() {
    let ast = rnix::parse("{ some, function }: some").unwrap();
    let target = find_all(&some_identifier, &ast)[0].0;
    let created = NodeId(ast.arena.get_ref().len());
    let first = || Operation::Replace(target, Replacement { node: build_identifier("mid") });
    let second = || Operation::Replace(created, Replacement { node: build_identifier("other") });

    let together = apply_operations(&ast, &[first(), second()]).unwrap();
    let step = apply_operations(&ast, &[first()]).unwrap();
    let by_hand = apply_operations(&step, &[second()]).unwrap();
    assert_eq!(format!("{}", together), format!("{}", by_hand));
    assert_eq!(format!("{}", together), "{ other, function }: some");

    let alone = apply_operations(&ast, &[second()]);
    assert_eq!(alone.err(), Some(OperationError::InvalidTarget(created)));
}

#[test]
fn replacing_a_non_identifier_is_malformed() {
    let ast = rnix::parse("{ some, function }: some").unwrap();
    let entry = find_all(&pattern_entry, &ast)[0].0;
    let op = Operation::Replace(entry, Replacement { node: build_identifier("x") });
    assert_eq!(
        apply_operations(&ast, &[op]).err(),
        Some(OperationError::MalformedReplacement(entry))
    );
}

#[test]
fn replacing_a_replaced_node_is_invalid_target() {
    let ast = rnix::parse("{ some, function }: some").unwrap();
    let target = find_all(&some_identifier, &ast)[0].0;
    let ops = [
        Operation::Replace(target, Replacement { node: build_identifier("x") }),
        Operation::Replace(target, Replacement { node: build_identifier("y") }),
    ];
    let result = apply_operations(&ast, &ops);
    assert_eq!(result.err(), Some(OperationError::InvalidTarget(target)));
}

#[test]
fn replacing_the_root_makes_the_new_node_the_root() {
    let ast = rnix::parse("some").unwrap();
    let root = ast.root;
    let op = Operation::Replace(root, Replacement { node: build_identifier("other") });
    let new_ast = apply_operations(&ast, &[op]).unwrap();
    assert_eq!(new_ast.root, NodeId(ast.arena.get_ref().len()));
    assert_eq!(format!("{}", new_ast), "other");
}
