//! The query engine: depth-first, pre-order collection over a tree.
use vstd::prelude::*;
use rnix::parser::{ASTNode, Arena, NodeId, AST};
use crate::syntax::{
    arena_slots, chain, chain_ok, child_of, children_of, descends_finitely, forest, lemma_tree_node,
    live, node_at, slots, subtree_order, tree_order, well_formed,
};

verus! {

/// A visitor that may yield one item for each node it is shown.
pub trait CollectFromAST {
    type Item;

    spec fn spec_visit_node(&self, arena: Arena<'static>, node_id: NodeId, node: ASTNode) -> Option<
        Self::Item,
    >;

    fn visit_node(&self, arena: &Arena<'static>, node_id: NodeId, node: &ASTNode) -> (r: Option<
        Self::Item,
    >)
        ensures
            r == self.spec_visit_node(*arena, node_id, *node),
    ;
}

/// The items that `c` yields on the nodes `ids`, in that order.
pub open spec fn visits<C: CollectFromAST>(c: C, arena: Arena<'static>, ids: Seq<NodeId>) -> Seq<
    C::Item,
> {
    ids.filter_map(|i: NodeId| c.spec_visit_node(arena, i, node_at(arena_slots(arena), i)))
}

/// The predicate `f` answers `true` on this node.
pub open spec fn holds<F: Fn(&Arena<'static>, NodeId, &ASTNode) -> bool>(
    f: F,
    arena: Arena<'static>,
    id: NodeId,
    node: ASTNode,
) -> bool {
    f.ensures((&arena, id, &node), true)
}

/// `f` can be called on every node and gives one answer for each.
pub open spec fn pure_predicate<F: Fn(&Arena<'static>, NodeId, &ASTNode) -> bool>(f: F) -> bool {
    &&& forall|a: Arena<'static>, i: NodeId, n: ASTNode| #[trigger] f.requires((&a, i, &n))
    &&& forall|a: Arena<'static>, i: NodeId, n: ASTNode|
        #![trigger f.ensures((&a, i, &n), true)]
        !(f.ensures((&a, i, &n), true) && f.ensures((&a, i, &n), false))
}

/// The pair for node `i` if `f` selects it.
pub open spec fn match_entry<F: Fn(&Arena<'static>, NodeId, &ASTNode) -> bool>(
    f: F,
    arena: Arena<'static>,
    i: NodeId,
) -> Option<(NodeId, ASTNode)> {
    let n = node_at(arena_slots(arena), i);
    if holds(f, arena, i, n) {
        Some((i, n))
    } else {
        None
    }
}

/// The nodes among `ids` that `f` selects, each with its node, in the order of `ids`.
pub open spec fn matching<F: Fn(&Arena<'static>, NodeId, &ASTNode) -> bool>(
    f: F,
    arena: Arena<'static>,
    ids: Seq<NodeId>,
) -> Seq<(NodeId, ASTNode)> {
    ids.filter_map(|i: NodeId| match_entry(f, arena, i))
}

proof fn lemma_filter_map_add<A, B>(a: Seq<A>, b: Seq<A>, f: spec_fn(A) -> Option<B>)
    ensures
        (a + b).filter_map(f) == a.filter_map(f) + b.filter_map(f),
    decreases b.len(),
{
    if b.len() == 0 {
        assert(a + b == a);
    } else {
        lemma_filter_map_add(a, b.drop_last(), f);
        assert((a + b).drop_last() == a + b.drop_last());
    }
}

proof fn lemma_filter_map_one<A, B>(x: A, f: spec_fn(A) -> Option<B>)
    ensures
        seq![x].filter_map(f) == match f(x) {
            Some(y) => seq![y],
            None => Seq::<B>::empty(),
        },
{
    assert(seq![x].drop_last() == Seq::<A>::empty());
    assert(seq![x].last() == x);
    assert(Seq::<A>::empty().filter_map(f) == Seq::<B>::empty());
    if let Some(y) = f(x) {
        assert(Seq::<B>::empty() + seq![y] == seq![y]);
    }
}

struct CollectMatchingNodes<'a, F: Fn(&Arena<'static>, NodeId, &ASTNode) -> bool> {
    match_fn: &'a F,
}

impl<'a, F: Fn(&Arena<'static>, NodeId, &ASTNode) -> bool> CollectMatchingNodes<'a, F> {
    #[verifier::type_invariant]
    spec fn inv(self) -> bool {
        pure_predicate(*self.match_fn)
    }
}

impl<'a, F: Fn(&Arena<'static>, NodeId, &ASTNode) -> bool> CollectFromAST for CollectMatchingNodes<
    'a,
    F,
> {
    type Item = (NodeId, ASTNode);

    closed spec fn spec_visit_node(&self, arena: Arena<'static>, node_id: NodeId, node: ASTNode) -> Option<
        (NodeId, ASTNode),
    > {
        if holds(*self.match_fn, arena, node_id, node) {
            Some((node_id, node))
        } else {
            None
        }
    }

    fn visit_node(&self, arena: &Arena<'static>, node_id: NodeId, node: &ASTNode) -> (r: Option<
        (NodeId, ASTNode),
    >) {
        proof {
            use_type_invariant(self);
        }
        if (self.match_fn)(arena, node_id, node) {
            Some((node_id, node.clone()))
        } else {
            None
        }
    }
}

proof fn lemma_visits_matching<'a, F: Fn(&Arena<'static>, NodeId, &ASTNode) -> bool>(
    c: CollectMatchingNodes<'a, F>,
    arena: Arena<'static>,
    ids: Seq<NodeId>,
)
    ensures
        visits(c, arena, ids) == matching(*c.match_fn, arena, ids),
{
    let f1 = |i: NodeId| c.spec_visit_node(arena, i, node_at(arena_slots(arena), i));
    let f2 = |i: NodeId| match_entry(*c.match_fn, arena, i);
    assert(f1 =~= f2);
}

/// The items of all nodes of the structure reached from `first`, in pre-order.
fn collect_chain<C: CollectFromAST>(
    collect: &C,
    arena: &Arena<'static>,
    first: Option<NodeId>,
    Ghost(fuel): Ghost<nat>,
) -> (r: Vec<C::Item>)
    requires
        chain_ok(arena_slots(*arena), first, fuel),
    ensures
        r@ == visits(*collect, *arena, forest(arena_slots(*arena), first, fuel)),
    decreases fuel,
{
    let s = slots(arena);
    let ghost g = |i: NodeId| collect.spec_visit_node(*arena, i, node_at(s@, i));
    let mut result: Vec<C::Item> = Vec::new();
    let mut cursor = first;
    let ghost mut f = fuel;
    while cursor.is_some()
        invariant
            s@ == arena_slots(*arena),
            g == (|i: NodeId| collect.spec_visit_node(*arena, i, node_at(s@, i))),
            chain_ok(s@, cursor, f),
            f <= fuel,
            visits(*collect, *arena, forest(s@, first, fuel)) == result@ + visits(
                *collect,
                *arena,
                forest(s@, cursor, f),
            ),
        decreases f,
    {
        let j = cursor.unwrap();
        let node = s[j.0].as_ref().unwrap();
        let ghost rest_child = forest(s@, node.node.child, (f - 1) as nat);
        let ghost rest_sibling = forest(s@, node.node.sibling, (f - 1) as nat);
        proof {
            assert(forest(s@, cursor, f) == seq![j] + rest_child + rest_sibling);
            lemma_filter_map_add(seq![j] + rest_child, rest_sibling, g);
            lemma_filter_map_add(seq![j], rest_child, g);
            lemma_filter_map_one(j, g);
        }
        let ghost before = result@;
        match collect.visit_node(arena, j, node) {
            Some(m) => result.push(m),
            None => {},
        }
        assert(result@ == before + seq![j].filter_map(g));
        let mut below = collect_chain(collect, arena, node.node.child, Ghost((f - 1) as nat));
        result.append(&mut below);
        cursor = node.node.sibling;
        proof {
            f = (f - 1) as nat;
        }
    }
    result
}

/// Collects, in pre-order, what `collect` yields on `node_id` and each of its descendants.
pub fn collect_in_subtree<T, C: CollectFromAST<Item = T>>(
    collect: &C,
    arena: &Arena<'static>,
    node_id: NodeId,
    node: &ASTNode,
) -> (r: Vec<T>)
    requires
        live(arena_slots(*arena), node_id),
        *node == node_at(arena_slots(*arena), node_id),
        descends_finitely(arena_slots(*arena), node_id),
    ensures
        r@ == visits(*collect, *arena, subtree_order(arena_slots(*arena), node_id)),
{
    let ghost s = arena_slots(*arena);
    let ghost g = |i: NodeId| collect.spec_visit_node(*arena, i, node_at(s, i));
    let ghost below = forest(s, child_of(s, node_id), s.len() as nat);
    proof {
        lemma_filter_map_add(seq![node_id], below, g);
        lemma_filter_map_one(node_id, g);
    }
    let mut result: Vec<T> = Vec::new();
    match collect.visit_node(arena, node_id, node) {
        Some(m) => result.push(m),
        None => {},
    }
    let mut rest = collect_chain(collect, arena, node.node.child, Ghost(s.len() as nat));
    result.append(&mut rest);
    result
}

/// The direct children of `node_id` that `match_fn` selects, in sibling order.
pub fn find_children<F: Fn(&Arena<'static>, NodeId, &ASTNode) -> bool>(
    match_fn: &F,
    ast: &AST<'static>,
    node_id: NodeId,
) -> (r: Vec<(NodeId, ASTNode)>)
    requires
        pure_predicate(*match_fn),
        well_formed(*ast),
        tree_order(*ast).contains(node_id),
    ensures
        r@ == matching(*match_fn, ast.arena, children_of(arena_slots(ast.arena), node_id)),
{
    let collect = CollectMatchingNodes { match_fn };
    let arena = &ast.arena;
    let s = slots(arena);
    let ghost g = |i: NodeId| match_entry(*match_fn, *arena, i);
    proof {
        lemma_tree_node(*ast, node_id);
    }
    let node = s[node_id.0].as_ref().unwrap();
    let ghost fuel = s@.len() as nat;
    let ghost all = chain(s@, node.node.child, fuel);
    let mut result: Vec<(NodeId, ASTNode)> = Vec::new();
    let mut cursor = node.node.child;
    let ghost mut f = fuel;
    while cursor.is_some()
        invariant
            s@ == arena_slots(*arena),
            g == (|i: NodeId| match_entry(*match_fn, *arena, i)),
            collect.match_fn == match_fn,
            chain_ok(s@, cursor, f),
            all == chain(s@, node.node.child, fuel),
            all.filter_map(g) == result@ + chain(s@, cursor, f).filter_map(g),
        decreases f,
    {
        let j = cursor.unwrap();
        let child = s[j.0].as_ref().unwrap();
        let ghost rest = chain(s@, child.node.sibling, (f - 1) as nat);
        proof {
            assert(chain(s@, cursor, f) == seq![j] + rest);
            lemma_filter_map_add(seq![j], rest, g);
            lemma_filter_map_one(j, g);
        }
        match collect.visit_node(arena, j, child) {
            Some(m) => result.push(m),
            None => {},
        }
        cursor = child.node.sibling;
        proof {
            f = (f - 1) as nat;
        }
    }
    result
}

/// Every node of the tree that `match_fn` selects, in pre-order.
pub fn find_all<F: Fn(&Arena<'static>, NodeId, &ASTNode) -> bool>(
    match_fn: &F,
    ast: &AST<'static>,
) -> (r: Vec<(NodeId, ASTNode)>)
    requires
        pure_predicate(*match_fn),
        well_formed(*ast),
    ensures
        r@ == matching(*match_fn, ast.arena, tree_order(*ast)),
{
    let collect = CollectMatchingNodes { match_fn };
    let root_id = ast.root;
    let arena = &ast.arena;
    let s = slots(arena);
    let root_node = s[root_id.0].as_ref().unwrap();
    let r = collect_in_subtree(&collect, arena, root_id, root_node);
    proof {
        lemma_visits_matching(collect, *arena, tree_order(*ast));
    }
    r
}

} // verus!
