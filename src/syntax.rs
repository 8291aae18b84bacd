//! The syntax tree as the parser hands it over, and its mathematical model.
//!
//! A tree is an rnix `AST`: an arenatree `Arena` of `ASTNode`s and the
//! identifier of its root. The arena is seen through `arena_slots`: one slot per
//! identifier, `None` once the node has been taken out. Each node links to its
//! first child and to its next sibling; there is no parent link.
use vstd::prelude::*;
use rnix::parser::{ASTKind, ASTNode, Arena, Data, NodeId, AST};
use rnix::tokenizer::{Meta, Span, TokenKind};
use arenatree::Node;

verus! {

#[verifier::external_type_specification]
pub struct ExNodeId(NodeId);

#[verifier::external_type_specification]
pub struct ExNode(Node);

#[verifier::external_type_specification]
pub struct ExASTKind(ASTKind);

#[verifier::external_type_specification]
pub struct ExTokenKind(TokenKind);

#[verifier::external_type_specification]
#[verifier::external_body]
pub struct ExMeta(Meta);

#[verifier::external_type_specification]
#[verifier::external_body]
pub struct ExSpan(Span);

#[verifier::external_type_specification]
#[verifier::external_body]
pub struct ExValue(rnix::value::Value);

#[verifier::external_type_specification]
#[verifier::external_body]
pub struct ExParseError(rnix::parser::ParseError);

#[verifier::external_type_specification]
pub struct ExData(Data);

#[verifier::external_type_specification]
pub struct ExASTNode(ASTNode);

#[verifier::external_type_specification]
#[verifier::external_body]
#[verifier::reject_recursive_types(T)]
pub struct ExArena<'a, T: 'a>(arenatree::Arena<'a, T>);

#[verifier::external_type_specification]
pub struct ExAST<'a>(AST<'a>);

/// The derived `Clone` of rnix's `ASTNode` copies every field.
pub assume_specification[ <ASTNode as Clone>::clone ](n: &ASTNode) -> (r: ASTNode)
    ensures
        r == *n,
;

/// The derived `Clone` of rnix's `Meta` copies every field.
pub assume_specification[ <Meta as Clone>::clone ](m: &Meta) -> (r: Meta)
    ensures
        r == *m,
;

/// The slots of an arena, indexed by identifier; a taken slot is `None`.
pub uninterp spec fn arena_slots(a: Arena<'static>) -> Seq<Option<ASTNode>>;

/// Relies on arenatree's `Arena::get_ref`: the slice of all slots, in identifier order.
#[verifier::external_body]
pub(crate) fn slots<'b>(a: &'b Arena<'static>) -> (r: &'b [Option<ASTNode>])
    ensures
        r@ == arena_slots(*a),
{
    a.get_ref()
}

/// Relies on arenatree's `Clone for Arena`: an owned arena holding copies of the same slots.
#[verifier::external_body]
pub(crate) fn clone_arena(a: &Arena<'static>) -> (r: Arena<'static>)
    ensures
        arena_slots(r) == arena_slots(*a),
{
    a.clone()
}

/// Relies on arenatree's `Arena::insert`: the node fills a new slot at the end,
/// and the identifier of that slot is returned.
#[verifier::external_body]
pub(crate) fn arena_insert(a: &mut Arena<'static>, n: ASTNode) -> (r: NodeId)
    ensures
        arena_slots(*final(a)) == arena_slots(*old(a)).push(Some(n)),
        r.0 == arena_slots(*old(a)).len(),
{
    a.insert(n)
}

/// Relies on arenatree's `Arena::take`: the slot is emptied and its node handed
/// back (an empty or missing slot panics there, hence the `requires`).
#[verifier::external_body]
pub(crate) fn arena_take(a: &mut Arena<'static>, id: NodeId) -> (r: ASTNode)
    requires
        live(arena_slots(*old(a)), id),
    ensures
        arena_slots(*final(a)) == arena_slots(*old(a)).update(id.0 as int, None),
        Some(r) == arena_slots(*old(a))[id.0 as int],
{
    a.take(id)
}

/// Relies on arenatree's `IndexMut for Arena`: the live node at `id` is reached
/// in place and its links are overwritten (a taken slot panics there).
#[verifier::external_body]
pub(crate) fn set_links(a: &mut Arena<'static>, id: NodeId, links: Node)
    requires
        live(arena_slots(*old(a)), id),
    ensures
        arena_slots(*final(a)) == arena_slots(*old(a)).update(
            id.0 as int,
            Some(with_links(node_at(arena_slots(*old(a)), id), links)),
        ),
{
    a[id].node = links;
}

pub open spec fn live(s: Seq<Option<ASTNode>>, i: NodeId) -> bool {
    i.0 < s.len() && s[i.0 as int] is Some
}

pub open spec fn node_at(s: Seq<Option<ASTNode>>, i: NodeId) -> ASTNode {
    s[i.0 as int].unwrap()
}

pub open spec fn child_of(s: Seq<Option<ASTNode>>, i: NodeId) -> Option<NodeId> {
    node_at(s, i).node.child
}

pub open spec fn sibling_of(s: Seq<Option<ASTNode>>, i: NodeId) -> Option<NodeId> {
    node_at(s, i).node.sibling
}

/// The node `n` with its links replaced by `links`.
pub open spec fn with_links(n: ASTNode, links: Node) -> ASTNode {
    ASTNode { kind: n.kind, span: n.span, data: n.data, node: links }
}

/// Every node reached from `first` by child and sibling steps is live, and no
/// walk from `first` takes `fuel` steps or more (so the structure is finite and acyclic).
pub open spec fn chain_ok(s: Seq<Option<ASTNode>>, first: Option<NodeId>, fuel: nat) -> bool
    decreases fuel,
{
    match first {
        None => true,
        Some(j) => if fuel == 0 {
            false
        } else {
            live(s, j) && chain_ok(s, child_of(s, j), (fuel - 1) as nat) && chain_ok(
                s,
                sibling_of(s, j),
                (fuel - 1) as nat,
            )
        },
    }
}

/// Depth-first pre-order listing of `first`, its descendants, then its later
/// siblings and theirs.
pub open spec fn forest(s: Seq<Option<ASTNode>>, first: Option<NodeId>, fuel: nat) -> Seq<NodeId>
    decreases fuel,
{
    match first {
        None => seq![],
        Some(j) => if fuel == 0 {
            seq![]
        } else {
            seq![j] + forest(s, child_of(s, j), (fuel - 1) as nat) + forest(
                s,
                sibling_of(s, j),
                (fuel - 1) as nat,
            )
        },
    }
}

/// The sibling chain that starts at `first`, in order.
pub open spec fn chain(s: Seq<Option<ASTNode>>, first: Option<NodeId>, fuel: nat) -> Seq<NodeId>
    decreases fuel,
{
    match first {
        None => seq![],
        Some(j) => if fuel == 0 {
            seq![]
        } else {
            seq![j] + chain(s, sibling_of(s, j), (fuel - 1) as nat)
        },
    }
}

/// Below `i` the structure is a finite, acyclic one of live nodes.
pub open spec fn descends_finitely(s: Seq<Option<ASTNode>>, i: NodeId) -> bool {
    chain_ok(s, child_of(s, i), s.len() as nat)
}

/// `i` followed by all its descendants, in pre-order.
pub open spec fn subtree_order(s: Seq<Option<ASTNode>>, i: NodeId) -> Seq<NodeId> {
    seq![i] + forest(s, child_of(s, i), s.len() as nat)
}

/// The direct children of `i`, in sibling order.
pub open spec fn children_of(s: Seq<Option<ASTNode>>, i: NodeId) -> Seq<NodeId> {
    chain(s, child_of(s, i), s.len() as nat)
}

/// The root is live and the tree below it is finite and acyclic.
pub open spec fn well_formed(t: AST<'static>) -> bool {
    live(arena_slots(t.arena), t.root) && descends_finitely(arena_slots(t.arena), t.root)
}

/// All nodes of the tree, in pre-order.
pub open spec fn tree_order(t: AST<'static>) -> Seq<NodeId> {
    subtree_order(arena_slots(t.arena), t.root)
}

fn check_chain(s: &[Option<ASTNode>], first: Option<NodeId>, fuel: usize) -> (r: bool)
    ensures
        r == chain_ok(s@, first, fuel as nat),
    decreases fuel,
{
    let mut cursor = first;
    let mut f = fuel;
    while cursor.is_some()
        invariant
            f <= fuel,
            chain_ok(s@, first, fuel as nat) == chain_ok(s@, cursor, f as nat),
        decreases f,
    {
        let j = cursor.unwrap();
        if f == 0 || j.0 >= s.len() {
            return false;
        }
        let node = match &s[j.0] {
            Some(n) => n,
            None => {
                return false;
            },
        };
        if !check_chain(s, node.node.child, f - 1) {
            return false;
        }
        cursor = node.node.sibling;
        f = f - 1;
    }
    true
}

/// Whether the tree can be queried: its root is live and the structure below it
/// is finite and acyclic, made of live nodes.
pub fn is_well_formed(ast: &AST<'static>) -> (r: bool)
    ensures
        r == well_formed(*ast),
{
    let s = slots(&ast.arena);
    if ast.root.0 >= s.len() {
        return false;
    }
    match &s[ast.root.0] {
        Some(root) => check_chain(s, root.node.child, s.len()),
        None => false,
    }
}

/// More fuel changes neither the verdict of `chain_ok` nor the listings.
pub proof fn lemma_fuel(s: Seq<Option<ASTNode>>, first: Option<NodeId>, f1: nat, f2: nat)
    requires
        chain_ok(s, first, f1),
        f1 <= f2,
    ensures
        chain_ok(s, first, f2),
        forest(s, first, f1) == forest(s, first, f2),
        chain(s, first, f1) == chain(s, first, f2),
    decreases f1,
{
    if let Some(j) = first {
        lemma_fuel(s, child_of(s, j), (f1 - 1) as nat, (f2 - 1) as nat);
        lemma_fuel(s, sibling_of(s, j), (f1 - 1) as nat, (f2 - 1) as nat);
    }
}

proof fn lemma_chain_linked(s: Seq<Option<ASTNode>>, first: Option<NodeId>, fuel: nat)
    requires
        chain_ok(s, first, fuel),
    ensures
        chain(s, first, fuel).len() == 0 <==> first is None,
        chain(s, first, fuel).len() > 0 ==> Some(chain(s, first, fuel)[0]) == first,
        forall|k: int|
            0 <= k < chain(s, first, fuel).len() - 1 ==> Some(chain(s, first, fuel)[k + 1])
                == sibling_of(s, #[trigger] chain(s, first, fuel)[k]),
        chain(s, first, fuel).len() > 0 ==> sibling_of(s, chain(s, first, fuel).last()) is None,
    decreases fuel,
{
    if let Some(j) = first {
        let g = (fuel - 1) as nat;
        let rest = chain(s, sibling_of(s, j), g);
        lemma_chain_linked(s, sibling_of(s, j), g);
        let c = chain(s, first, fuel);
        assert(c == seq![j] + rest);
        assert forall|k: int| 0 <= k < c.len() - 1 implies Some(c[k + 1]) == sibling_of(s, #[trigger] c[k]) by {
            if k > 0 {
                assert(c[k] == rest[k - 1]);
                assert(c[k + 1] == rest[k]);
            }
        }
        if rest.len() > 0 {
            assert(c.last() == rest.last());
        }
    }
}

/// The direct children of a node, as `find_children` walks them: its first
/// child, then each one's next sibling, up to the one that has none.
pub proof fn lemma_children_linked(s: Seq<Option<ASTNode>>, i: NodeId)
    requires
        live(s, i),
        descends_finitely(s, i),
    ensures
        children_of(s, i).len() == 0 <==> child_of(s, i) is None,
        children_of(s, i).len() > 0 ==> Some(children_of(s, i)[0]) == child_of(s, i),
        forall|k: int|
            0 <= k < children_of(s, i).len() - 1 ==> Some(children_of(s, i)[k + 1]) == sibling_of(
                s,
                #[trigger] children_of(s, i)[k],
            ),
        children_of(s, i).len() > 0 ==> sibling_of(s, children_of(s, i).last()) is None,
{
    lemma_chain_linked(s, child_of(s, i), s.len() as nat);
}

/// A node listed by `forest` is live, and the structure below it is finite.
pub proof fn lemma_in_forest(s: Seq<Option<ASTNode>>, first: Option<NodeId>, fuel: nat, j: NodeId)
    requires
        chain_ok(s, first, fuel),
        forest(s, first, fuel).contains(j),
    ensures
        live(s, j),
        chain_ok(s, child_of(s, j), fuel),
    decreases fuel,
{
    let k = first.unwrap();
    let f = (fuel - 1) as nat;
    let a = forest(s, child_of(s, k), f);
    let b = forest(s, sibling_of(s, k), f);
    assert(forest(s, first, fuel) == seq![k] + a + b);
    if j == k {
        lemma_fuel(s, child_of(s, k), f, fuel);
    } else {
        let idx = choose|idx: int| 0 <= idx < forest(s, first, fuel).len() && forest(s, first, fuel)[idx] == j;
        if idx <= a.len() {
            assert(a[idx - 1] == j);
            lemma_in_forest(s, child_of(s, k), f, j);
        } else {
            assert(b[idx - 1 - a.len()] == j);
            lemma_in_forest(s, sibling_of(s, k), f, j);
        }
        lemma_fuel(s, child_of(s, j), f, fuel);
    }
}

/// A node of a well-formed tree is live and the structure below it is finite.
pub proof fn lemma_tree_node(t: AST<'static>, j: NodeId)
    requires
        well_formed(t),
        tree_order(t).contains(j),
    ensures
        live(arena_slots(t.arena), j),
        descends_finitely(arena_slots(t.arena), j),
{
    let s = arena_slots(t.arena);
    let rest = forest(s, child_of(s, t.root), s.len() as nat);
    if j != t.root {
        let idx = choose|idx: int| 0 <= idx < tree_order(t).len() && tree_order(t)[idx] == j;
        assert(rest[idx - 1] == j);
        lemma_in_forest(s, child_of(s, t.root), s.len() as nat, j);
    }
}

} // verus!
