use nixcodemod::{find_all, find_children};
use rnix::parser::{ASTKind, ASTNode, Arena, Data, NodeId};

const CODE: &str = r#"
        { foo, bar }:
        let
            baz = bar;
        in
        {
            inherit bar;
        }
    "#;

fn find_pattern(_: &Arena, _: NodeId, node: &ASTNode) -> bool {
    node.kind == ASTKind::Pattern
}

fn find_pattern_entry(_: &Arena, _: NodeId, node: &ASTNode) -> bool {
    node.kind == ASTKind::PatEntry
}

fn find_identifier(_: &Arena, _: NodeId, node: &ASTNode) -> bool {
    node.kind == ASTKind::Ident
}

fn find_nothing(_: &Arena, _: NodeId, _: &ASTNode) -> bool {
    false
}

fn find_everything(_: &Arena, _: NodeId, _: &ASTNode) -> bool {
    true
}

fn get_name_from_identifier(pair: (NodeId, ASTNode)) -> Option<String> {
    let (_, node) = pair;
    match &node.data {
        Data::Ident(_, name) => Some(name.clone()),
        _ => None,
    }
}

fn get_name_from_identifier_ref(pair: &(NodeId, ASTNode)) -> Option<String> {
    let (_, node) = pair;
    match &node.data {
        Data::Ident(_, name) => Some(name.clone()),
        _ => None,
    }
}

#[test]
fn find_all_identifiers() {
    let ast = rnix::parse(CODE).unwrap();
    let identifiers: Vec<String> = find_all(&find_identifier, &ast)
        .into_iter()
        .filter_map(get_name_from_identifier)
        .collect();

    assert_eq!(
        identifiers,
        vec![
            "foo".to_string(),
            "bar".to_string(),
            "baz".to_string(),
            "bar".to_string(),
            "bar".to_string()
        ]
    );
}

#[test]
fn find_children_identifiers() {
    let ast = rnix::parse(CODE).unwrap();
    let identifiers: Vec<String> = find_children(&find_pattern, &ast, ast.root)
        .into_iter()
        .flat_map(|(pattern_id, _)| find_children(&find_pattern_entry, &ast, pattern_id))
        .filter_map(|(pattern_entry_id, _)| {
            let identifiers = find_children(&find_identifier, &ast, pattern_entry_id);
            identifiers.get(0).and_then(get_name_from_identifier_ref)
        })
        .collect();

    assert_eq!(identifiers, vec!["foo".to_string(), "bar".to_string()]);
}

#[test]
fn find_all_with_no_match_is_empty() {
    let ast = rnix::parse(CODE).unwrap();
    assert!(find_all(&find_nothing, &ast).is_empty());
    assert!(find_children(&find_nothing, &ast, ast.root).is_empty());
}

#[test]
fn find_all_starts_at_root_and_lists_parents_before_children() {
    let ast = rnix::parse("{ a }: a").unwrap();
    let all = find_all(&find_everything, &ast);
    assert_eq!(all[0].0, ast.root);
    let kinds: Vec<ASTKind> = all.iter().map(|(_, n)| n.kind).collect();
    assert_eq!(
        kinds,
        vec![
            ASTKind::Lambda,
            ASTKind::Pattern,
            ASTKind::Token,
            ASTKind::PatEntry,
            ASTKind::Ident,
            ASTKind::Token,
            ASTKind::Token,
            ASTKind::Ident
        ]
    );
    for (id, node) in &all {
        assert_eq!(ast.arena[*id].kind, node.kind);
    }
}

#[test]
fn find_children_are_direct_children_in_sibling_order() {
    let ast = rnix::parse("{ a, b, c }: a").unwrap();
    let pattern = find_children(&find_pattern, &ast, ast.root)[0].0;
    let entries = find_children(&find_pattern_entry, &ast, pattern);
    assert_eq!(entries.len(), 3);
    let expected: Vec<NodeId> = ast.arena[pattern]
        .children(&ast.arena)
        .filter(|id| ast.arena[*id].kind == ASTKind::PatEntry)
        .collect();
    let got: Vec<NodeId> = entries.iter().map(|(id, _)| *id).collect();
    assert_eq!(got, expected);
    assert!(find_children(&find_identifier, &ast, pattern).is_empty());
}
