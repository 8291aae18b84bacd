//! Edit operations: each maps a tree to a new, independent tree.
use vstd::prelude::*;
use rnix::parser::{ASTNode, Arena, Data, NodeId, AST};
use rnix::tokenizer::TokenKind;
use arenatree::Node;
use crate::node_builder::{IsolatedNode, ToAstNode};
use crate::syntax::{
    arena_insert, arena_slots, arena_take, child_of, clone_arena, live, node_at, set_links,
    sibling_of, slots, with_links,
};

verus! {

/// Why an operation produced no tree.
#[derive(Debug, PartialEq, Eq)]
pub enum OperationError {
    /// The target identifier is not live in the input tree (or is its root, for a removal).
    InvalidTarget(NodeId),
    /// The replacement cannot stand where the target stands.
    MalformedReplacement(NodeId),
}

/// The model of a tree: its slots and its root.
pub type Outcome = Result<(Seq<Option<ASTNode>>, NodeId), OperationError>;

/// The model of what an operation returned.
pub open spec fn outcome(r: Result<AST<'static>, OperationError>) -> Outcome {
    match r {
        Ok(t) => Ok((arena_slots(t.arena), t.root)),
        Err(e) => Err(e),
    }
}

/// `l`, pointed at `to` instead if it addressed `from`.
pub open spec fn redirect(l: Option<NodeId>, from: NodeId, to: Option<NodeId>) -> Option<NodeId> {
    if l == Some(from) {
        to
    } else {
        l
    }
}

/// Every child and sibling link of every live node that addressed `from` now addresses `to`.
pub open spec fn relink(s: Seq<Option<ASTNode>>, from: NodeId, to: Option<NodeId>) -> Seq<
    Option<ASTNode>,
> {
    Seq::new(
        s.len(),
        |k: int|
            match s[k] {
                None => None,
                Some(n) => Some(
                    with_links(
                        n,
                        Node {
                            child: redirect(n.node.child, from, to),
                            sibling: redirect(n.node.sibling, from, to),
                        },
                    ),
                ),
            },
    )
}

/// `x` taken out: whoever linked to it links to its next sibling, and its slot is emptied.
pub open spec fn unlink(s: Seq<Option<ASTNode>>, x: NodeId) -> Seq<Option<ASTNode>> {
    relink(s, x, sibling_of(s, x)).update(x.0 as int, None)
}

/// Replacing `target` by `replacement`: the new node goes into a fresh slot, takes
/// over every link to `target` (and the root, if `target` was the root), and
/// `target` is taken out. The children of `target` are not carried over.
pub open spec fn replace_outcome(
    s: Seq<Option<ASTNode>>,
    root: NodeId,
    target: NodeId,
    replacement: IsolatedNode,
) -> Outcome {
    if !live(s, target) {
        Err(OperationError::InvalidTarget(target))
    } else {
        match replacement.spec_to_ast_node(node_at(s, target)) {
            None => Err(OperationError::MalformedReplacement(target)),
            Some(n) => {
                let y = NodeId(s.len() as usize);
                Ok(
                    (
                        relink(s.push(Some(n)), target, Some(y)).update(target.0 as int, None),
                        if root == target {
                            y
                        } else {
                            root
                        },
                    ),
                )
            },
        }
    }
}

/// The last node of the sibling chain from `first`, if the chain ends within `fuel` steps.
pub open spec fn last_in_chain(s: Seq<Option<ASTNode>>, first: Option<NodeId>, fuel: nat) -> Option<
    NodeId,
>
    decreases fuel,
{
    match first {
        None => None,
        Some(j) => if fuel == 0 || !live(s, j) {
            None
        } else if sibling_of(s, j) is None {
            Some(j)
        } else {
            last_in_chain(s, sibling_of(s, j), (fuel - 1) as nat)
        },
    }
}

pub open spec fn last_child(s: Seq<Option<ASTNode>>, i: NodeId) -> Option<NodeId> {
    last_in_chain(s, child_of(s, i), s.len() as nat)
}

/// A comma token: the separator of list-like constructs.
pub open spec fn is_separator(n: ASTNode) -> bool {
    match n.data {
        Data::Token(_, TokenKind::Comma) => true,
        _ => false,
    }
}

/// The last child of `i`, if it is a separator.
pub open spec fn separator_child(s: Seq<Option<ASTNode>>, i: NodeId) -> Option<NodeId> {
    match last_child(s, i) {
        Some(c) => if is_separator(node_at(s, c)) {
            Some(c)
        } else {
            None
        },
        None => None,
    }
}

/// The first live node, from slot `k` on, whose next sibling is `x`.
pub open spec fn predecessor_from(s: Seq<Option<ASTNode>>, x: NodeId, k: nat) -> Option<NodeId>
    decreases s.len() - k,
{
    if k >= s.len() {
        None
    } else if live(s, NodeId(k as usize)) && sibling_of(s, NodeId(k as usize)) == Some(x) {
        Some(NodeId(k as usize))
    } else {
        predecessor_from(s, x, k + 1)
    }
}

/// The separator that leaves together with `x`, besides `x`'s own subtree. An
/// entry whose last child is a separator takes it along as part of itself
/// (`a, b, c` written with trailing commas). An entry without one is the last of
/// its list, and the separator that leads it is the one that closes the entry
/// before it (`a\n, b\n, c`): that one goes too, so that no separator dangles.
pub open spec fn bound_separator(s: Seq<Option<ASTNode>>, root: NodeId, x: NodeId) -> Option<
    NodeId,
> {
    if separator_child(s, x) is Some {
        None
    } else {
        match predecessor_from(s, x, 0) {
            Some(p) => match separator_child(s, p) {
                Some(c) => if c != x && c != root {
                    Some(c)
                } else {
                    None
                },
                None => None,
            },
            None => None,
        }
    }
}

/// Removing `target`, with the separator bound to it. The root cannot be removed.
pub open spec fn remove_outcome(s: Seq<Option<ASTNode>>, root: NodeId, target: NodeId) -> Outcome {
    if !live(s, target) || target == root {
        Err(OperationError::InvalidTarget(target))
    } else {
        match bound_separator(s, root, target) {
            Some(c) => Ok((unlink(unlink(s, c), target), root)),
            None => Ok((unlink(s, target), root)),
        }
    }
}

/// An edit that maps a tree to a new tree, leaving its input as it was.
pub trait OperationExt {
    spec fn spec_apply(&self, s: Seq<Option<ASTNode>>, root: NodeId, target: NodeId) -> Outcome;

    fn apply(&self, ast: &AST<'static>, original_node_id: &NodeId) -> (r: Result<
        AST<'static>,
        OperationError,
    >)
        ensures
            outcome(r) == self.spec_apply(arena_slots(ast.arena), ast.root, *original_node_id),
    ;
}

/// Puts a new node in the place of the target.
#[derive(Debug)]
pub struct Replacement {
    pub node: IsolatedNode,
}

/// Takes the target out of its tree.
#[derive(Debug)]
pub struct Remove {}

/// An edit together with the identifier it targets.
#[derive(Debug)]
pub enum Operation {
    Replace(NodeId, Replacement),
    Remove(NodeId, Remove),
}

fn same(l: Option<NodeId>, x: NodeId) -> (r: bool)
    ensures
        r == (l == Some(x)),
{
    match l {
        Some(j) => j.0 == x.0,
        None => false,
    }
}

fn relink_all(a: &mut Arena<'static>, from: NodeId, to: Option<NodeId>)
    ensures
        arena_slots(*final(a)) == relink(arena_slots(*old(a)), from, to),
{
    let ghost s0 = arena_slots(*a);
    let n = slots(a).len();
    let mut k: usize = 0;
    while k < n
        invariant
            n == s0.len(),
            k <= n,
            arena_slots(*a).len() == n,
            forall|m: int| 0 <= m < k ==> arena_slots(*a)[m] == relink(s0, from, to)[m],
            forall|m: int| k <= m < n ==> arena_slots(*a)[m] == s0[m],
        decreases n - k,
    {
        let links = match &slots(a)[k] {
            Some(node) => Some(node.node),
            None => None,
        };
        if let Some(l) = links {
            let c = same(l.child, from);
            let sb = same(l.sibling, from);
            if c || sb {
                let new_links = Node {
                    child: if c {
                        to
                    } else {
                        l.child
                    },
                    sibling: if sb {
                        to
                    } else {
                        l.sibling
                    },
                };
                set_links(a, NodeId(k), new_links);
            } else {
                let ghost old_node = s0[k as int].unwrap();
                assert(with_links(old_node, Node { child: l.child, sibling: l.sibling })
                    == old_node);
            }
        }
        k += 1;
    }
    assert(arena_slots(*a) =~= relink(s0, from, to));
}

fn unlink_node(a: &mut Arena<'static>, x: NodeId)
    requires
        live(arena_slots(*old(a)), x),
    ensures
        arena_slots(*final(a)) == unlink(arena_slots(*old(a)), x),
{
    let sibling = match &slots(a)[x.0] {
        Some(node) => node.node.sibling,
        None => None,
    };
    relink_all(a, x, sibling);
    arena_take(a, x);
}

fn last_child_of(s: &[Option<ASTNode>], i: NodeId) -> (r: Option<NodeId>)
    requires
        live(s@, i),
    ensures
        r == last_child(s@, i),
        r matches Some(c) ==> live(s@, c),
{
    let mut cursor = match &s[i.0] {
        Some(n) => n.node.child,
        None => None,
    };
    let mut fuel: usize = s.len();
    loop
        invariant
            last_in_chain(s@, cursor, fuel as nat) == last_child(s@, i),
        decreases fuel,
    {
        match cursor {
            None => {
                return None;
            },
            Some(j) => {
                if fuel == 0 || j.0 >= s.len() {
                    return None;
                }
                match &s[j.0] {
                    None => {
                        return None;
                    },
                    Some(n) => {
                        if n.node.sibling.is_none() {
                            return Some(j);
                        }
                        cursor = n.node.sibling;
                        fuel = fuel - 1;
                    },
                }
            },
        }
    }
}

fn is_separator_node(n: &ASTNode) -> (r: bool)
    ensures
        r == is_separator(*n),
{
    match &n.data {
        Data::Token(_, TokenKind::Comma) => true,
        _ => false,
    }
}

fn separator_child_of(s: &[Option<ASTNode>], i: NodeId) -> (r: Option<NodeId>)
    requires
        live(s@, i),
    ensures
        r == separator_child(s@, i),
        r matches Some(c) ==> live(s@, c),
{
    match last_child_of(s, i) {
        Some(c) => match &s[c.0] {
            Some(n) => if is_separator_node(n) {
                Some(c)
            } else {
                None
            },
            None => None,
        },
        None => None,
    }
}

fn predecessor(s: &[Option<ASTNode>], x: NodeId) -> (r: Option<NodeId>)
    ensures
        r == predecessor_from(s@, x, 0),
        r matches Some(p) ==> live(s@, p),
{
    let mut k: usize = 0;
    while k < s.len()
        invariant
            k <= s.len(),
            predecessor_from(s@, x, k as nat) == predecessor_from(s@, x, 0),
        decreases s.len() - k,
    {
        match &s[k] {
            Some(n) => {
                if same(n.node.sibling, x) {
                    return Some(NodeId(k));
                }
            },
            None => {},
        }
        k += 1;
    }
    None
}

fn bound_separator_of(s: &[Option<ASTNode>], root: NodeId, x: NodeId) -> (r: Option<NodeId>)
    requires
        live(s@, x),
    ensures
        r == bound_separator(s@, root, x),
        r matches Some(c) ==> live(s@, c) && c != x && c != root,
{
    if separator_child_of(s, x).is_some() {
        return None;
    }
    match predecessor(s, x) {
        Some(p) => match separator_child_of(s, p) {
            Some(c) => if c.0 != x.0 && c.0 != root.0 {
                Some(c)
            } else {
                None
            },
            None => None,
        },
        None => None,
    }
}

impl OperationExt for Replacement {
    open spec fn spec_apply(&self, s: Seq<Option<ASTNode>>, root: NodeId, target: NodeId) -> Outcome {
        replace_outcome(s, root, target, self.node)
    }

    fn apply(&self, ast: &AST<'static>, original_node_id: &NodeId) -> (r: Result<
        AST<'static>,
        OperationError,
    >) {
        let target = *original_node_id;
        let s = slots(&ast.arena);
        if target.0 >= s.len() {
            return Err(OperationError::InvalidTarget(target));
        }
        let reference = match &s[target.0] {
            Some(n) => n,
            None => {
                return Err(OperationError::InvalidTarget(target));
            },
        };
        match self.node.to_ast_node(reference) {
            None => Err(OperationError::MalformedReplacement(target)),
            Some(n) => {
                let mut arena = clone_arena(&ast.arena);
                let y = arena_insert(&mut arena, n);
                relink_all(&mut arena, target, Some(y));
                arena_take(&mut arena, target);
                let root = if ast.root.0 == target.0 {
                    y
                } else {
                    ast.root
                };
                Ok(AST { arena, root })
            },
        }
    }
}

impl OperationExt for Remove {
    open spec fn spec_apply(&self, s: Seq<Option<ASTNode>>, root: NodeId, target: NodeId) -> Outcome {
        remove_outcome(s, root, target)
    }

    fn apply(&self, ast: &AST<'static>, original_node_id: &NodeId) -> (r: Result<
        AST<'static>,
        OperationError,
    >) {
        let target = *original_node_id;
        let s = slots(&ast.arena);
        if target.0 >= s.len() || s[target.0].is_none() || target.0 == ast.root.0 {
            return Err(OperationError::InvalidTarget(target));
        }
        let separator = bound_separator_of(s, ast.root, target);
        let mut arena = clone_arena(&ast.arena);
        match separator {
            Some(c) => unlink_node(&mut arena, c),
            None => {},
        }
        unlink_node(&mut arena, target);
        Ok(AST { arena, root: ast.root })
    }
}

impl OperationExt for Operation {
    /// The operation acts on its own target; the identifier it is handed is not used.
    open spec fn spec_apply(&self, s: Seq<Option<ASTNode>>, root: NodeId, target: NodeId) -> Outcome {
        match self {
            Operation::Replace(id, replacement) => replacement.spec_apply(s, root, *id),
            Operation::Remove(id, remove) => remove.spec_apply(s, root, *id),
        }
    }

    fn apply(&self, ast: &AST<'static>, original_node_id: &NodeId) -> (r: Result<
        AST<'static>,
        OperationError,
    >) {
        match self {
            Operation::Replace(id, replacement) => replacement.apply(ast, id),
            Operation::Remove(id, remove) => remove.apply(ast, id),
        }
    }
}

/// The operations applied in order, each to the tree that the one before produced;
/// the first failure ends the sequence.
pub open spec fn apply_all(s: Seq<Option<ASTNode>>, root: NodeId, ops: Seq<Operation>) -> Outcome
    decreases ops.len(),
{
    if ops.len() == 0 {
        Ok((s, root))
    } else {
        match apply_all(s, root, ops.drop_last()) {
            Ok((s2, r2)) => ops.last().spec_apply(s2, r2, r2),
            Err(e) => Err(e),
        }
    }
}

/// Applying `first` and then `second` is applying their concatenation: each
/// operation works on the tree produced by the one before it, not on the
/// input tree, and a failure ends the sequence.
pub proof fn lemma_apply_in_sequence(
    s: Seq<Option<ASTNode>>,
    root: NodeId,
    first: Seq<Operation>,
    second: Seq<Operation>,
)
    ensures
        apply_all(s, root, first + second) == match apply_all(s, root, first) {
            Ok((s1, r1)) => apply_all(s1, r1, second),
            Err(e) => Err(e),
        },
    decreases second.len(),
{
    if second.len() == 0 {
        assert(first + second == first);
    } else {
        lemma_apply_in_sequence(s, root, first, second.drop_last());
        assert((first + second).drop_last() == first + second.drop_last());
        assert((first + second).last() == second.last());
    }
}

/// Two operations in a batch give what applying the first, and then the second
/// to its result, gives by hand.
pub proof fn lemma_two_operations(s: Seq<Option<ASTNode>>, root: NodeId, op1: Operation, op2: Operation)
    ensures
        apply_all(s, root, seq![op1, op2]) == match op1.spec_apply(s, root, root) {
            Ok((s1, r1)) => op2.spec_apply(s1, r1, r1),
            Err(e) => Err(e),
        },
{
    let one = seq![op1];
    assert(seq![op1, op2].drop_last() == one);
    assert(one.drop_last() == Seq::<Operation>::empty());
    assert(one.last() == op1);
    assert(seq![op1, op2].last() == op2);
    assert(apply_all(s, root, one.drop_last()) == Ok::<_, OperationError>((s, root)));
    assert(apply_all(s, root, one) == op1.spec_apply(s, root, root));
}

/// An empty batch gives back the tree as it was: the same slots and the same root.
pub proof fn lemma_no_operations(s: Seq<Option<ASTNode>>, root: NodeId)
    ensures
        apply_all(s, root, Seq::<Operation>::empty()) == Ok::<_, OperationError>((s, root)),
{
}

/// Applies `operations` in order, each to the tree the one before produced.
pub fn apply_operations(ast: &AST<'static>, operations: &[Operation]) -> (r: Result<
    AST<'static>,
    OperationError,
>)
    ensures
        outcome(r) == apply_all(arena_slots(ast.arena), ast.root, operations@),
{
    let ghost s0 = arena_slots(ast.arena);
    let mut current = AST { arena: clone_arena(&ast.arena), root: ast.root };
    let mut i: usize = 0;
    while i < operations.len()
        invariant
            i <= operations.len(),
            s0 == arena_slots(ast.arena),
            apply_all(s0, ast.root, operations@.subrange(0, i as int)) == Ok::<
                _,
                OperationError,
            >((arena_slots(current.arena), current.root)),
        decreases operations.len() - i,
    {
        let next = operations[i].apply(&current, &current.root);
        proof {
            assert(operations@.subrange(0, i + 1).drop_last() == operations@.subrange(0, i as int));
            assert(operations@.subrange(0, i + 1).last() == operations@[i as int]);
            assert(outcome(next) == apply_all(s0, ast.root, operations@.subrange(0, i + 1)));
        }
        match next {
            Ok(t) => {
                current = t;
            },
            Err(e) => {
                proof {
                    lemma_apply_in_sequence(
                        s0,
                        ast.root,
                        operations@.subrange(0, i + 1),
                        operations@.subrange(i + 1, operations@.len() as int),
                    );
                    assert(operations@.subrange(0, i + 1) + operations@.subrange(
                        i + 1,
                        operations@.len() as int,
                    ) == operations@);
                    assert(apply_all(s0, ast.root, operations@.subrange(0, i + 1)) == Err::<
                        (Seq<Option<ASTNode>>, NodeId),
                        OperationError,
                    >(e));
                    assert(apply_all(s0, ast.root, operations@) == Err::<
                        (Seq<Option<ASTNode>>, NodeId),
                        OperationError,
                    >(e));
                }
                return Err(e);
            },
        }
        i += 1;
    }
    assert(operations@.subrange(0, operations.len() as int) == operations@);
    Ok(current)
}

} // verus!
