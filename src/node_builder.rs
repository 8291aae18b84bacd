//! Node payloads built from a description, before any tree holds them.
use vstd::prelude::*;
use rnix::parser::{ASTKind, ASTNode, Data};
use arenatree::Node;

verus! {

/// An identifier that is yet to be placed in a tree.
#[derive(Debug)]
pub struct IsolatedIdentifier {
    pub name: String,
}

/// A node payload with no identifier and no links.
#[derive(Debug)]
pub enum IsolatedNode {
    Identifier(IsolatedIdentifier),
}

/// Turns a payload into a concrete node that takes the place of `reference_node`.
pub trait ToAstNode {
    spec fn spec_to_ast_node(&self, reference_node: ASTNode) -> Option<ASTNode>;

    /// `None` when the payload cannot stand where the reference node stands.
    fn to_ast_node(&self, reference_node: &ASTNode) -> (r: Option<ASTNode>)
        ensures
            r == self.spec_to_ast_node(*reference_node),
    ;
}

/// An identifier named `name` in the place of `reference`: the span, formatting
/// and next sibling of `reference` are kept, and it has no children. Only an
/// identifier can be the reference.
pub open spec fn identifier_in_place_of(reference: ASTNode, name: String) -> Option<ASTNode> {
    match reference.data {
        Data::Ident(meta, _) => Some(
            ASTNode {
                kind: ASTKind::Ident,
                span: reference.span,
                data: Data::Ident(meta, name),
                node: Node { child: None, sibling: reference.node.sibling },
            },
        ),
        _ => None,
    }
}

impl ToAstNode for IsolatedIdentifier {
    open spec fn spec_to_ast_node(&self, reference_node: ASTNode) -> Option<ASTNode> {
        identifier_in_place_of(reference_node, self.name)
    }

    fn to_ast_node(&self, reference_node: &ASTNode) -> (r: Option<ASTNode>) {
        match &reference_node.data {
            Data::Ident(meta, _) => Some(
                ASTNode {
                    kind: ASTKind::Ident,
                    data: Data::Ident(meta.clone(), self.name.clone()),
                    span: reference_node.span,
                    node: Node { child: None, sibling: reference_node.node.sibling },
                },
            ),
            _ => None,
        }
    }
}

impl ToAstNode for IsolatedNode {
    open spec fn spec_to_ast_node(&self, reference_node: ASTNode) -> Option<ASTNode> {
        match self {
            IsolatedNode::Identifier(id) => id.spec_to_ast_node(reference_node),
        }
    }

    fn to_ast_node(&self, reference_node: &ASTNode) -> (r: Option<ASTNode>) {
        match self {
            IsolatedNode::Identifier(id) => id.to_ast_node(reference_node),
        }
    }
}

/// The description of an identifier named `name`.
pub fn build_identifier(name: &str) -> (r: IsolatedNode)
    ensures
        r matches IsolatedNode::Identifier(id) && id.name@ == name@,
{
    IsolatedNode::Identifier(IsolatedIdentifier { name: name.to_string() })
}

} // verus!
