//! A code-modification engine for Nix syntax trees: queries that select nodes
//! of a parsed tree, and edit operations that rewrite it into a new tree.
pub mod syntax;
pub mod collect;
pub mod node_builder;
pub mod operations;
pub mod locality;

pub use collect::{collect_in_subtree, find_all, find_children, CollectFromAST};
pub use node_builder::{build_identifier, IsolatedIdentifier, IsolatedNode, ToAstNode};
pub use operations::{apply_operations, Operation, OperationError, OperationExt, Remove, Replacement};
pub use syntax::is_well_formed;
pub use rnix::parser::{ASTNode, Arena, NodeId};
