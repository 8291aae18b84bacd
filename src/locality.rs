//! What an edit leaves untouched: outside the target's subtree, the tree reads as before.
use vstd::prelude::*;
use rnix::parser::{ASTNode, NodeId};
use crate::node_builder::{IsolatedNode, ToAstNode};
use crate::operations::{
    bound_separator, last_in_chain, predecessor_from, redirect, relink, remove_outcome, replace_outcome, unlink,
};
use crate::syntax::{
    chain_ok, child_of, descends_finitely, forest, lemma_fuel, live, sibling_of, subtree_order,
};

verus! {

/// The pre-order listing of `forest`, where the subtree of `x`, wherever it is
/// met, stands replaced by `repl`.
pub open spec fn forest_edit(
    s: Seq<Option<ASTNode>>,
    first: Option<NodeId>,
    fuel: nat,
    x: NodeId,
    repl: Seq<NodeId>,
) -> Seq<NodeId>
    decreases fuel,
{
    match first {
        None => seq![],
        Some(j) => if fuel == 0 {
            seq![]
        } else if j == x {
            repl + forest_edit(s, sibling_of(s, j), (fuel - 1) as nat, x, repl)
        } else {
            seq![j] + forest_edit(s, child_of(s, j), (fuel - 1) as nat, x, repl) + forest_edit(
                s,
                sibling_of(s, j),
                (fuel - 1) as nat,
                x,
                repl,
            )
        },
    }
}

/// Slot `k` is live in `s2` exactly when it is in `s`, with the same kind, span and payload.
pub open spec fn same_content(s: Seq<Option<ASTNode>>, s2: Seq<Option<ASTNode>>, k: int) -> bool {
    &&& (s2[k] is Some <==> s[k] is Some)
    &&& s[k] is Some ==> {
        &&& s2[k].unwrap().kind == s[k].unwrap().kind
        &&& s2[k].unwrap().span == s[k].unwrap().span
        &&& s2[k].unwrap().data == s[k].unwrap().data
    }
}

proof fn lemma_last_in_chain_live(s: Seq<Option<ASTNode>>, first: Option<NodeId>, fuel: nat)
    ensures
        last_in_chain(s, first, fuel) matches Some(c) ==> live(s, c),
    decreases fuel,
{
    if let Some(j) = first {
        if fuel > 0 && live(s, j) && sibling_of(s, j) is Some {
            lemma_last_in_chain_live(s, sibling_of(s, j), (fuel - 1) as nat);
        }
    }
}

proof fn lemma_no_self_sibling(s: Seq<Option<ASTNode>>, x: NodeId, f: nat)
    requires
        chain_ok(s, Some(x), f),
    ensures
        sibling_of(s, x) != Some(x),
    decreases f,
{
    if sibling_of(s, x) == Some(x) {
        lemma_no_self_sibling(s, x, (f - 1) as nat);
    }
}

/// Links to `x` redirected to `to` read, from any start, as the old structure
/// with `x`'s subtree replaced: by nothing when `to` is `x`'s next sibling, or by
/// the childless node `to` that continues with that sibling.
proof fn lemma_edit(
    s: Seq<Option<ASTNode>>,
    s2: Seq<Option<ASTNode>>,
    x: NodeId,
    to: Option<NodeId>,
    repl: Seq<NodeId>,
    first: Option<NodeId>,
    f: nat,
)
    requires
        chain_ok(s, first, f),
        s2.len() >= s.len(),
        forall|k: int| 0 <= k < s.len() && k != x.0 ==> #[trigger] s2[k] == relink(s, x, to)[k],
        (repl.len() == 0 && to == sibling_of(s, x)) || (to is Some && repl == seq![to.unwrap()]
            && to.unwrap().0 >= s.len() && live(s2, to.unwrap()) && child_of(s2, to.unwrap()) is None
            && sibling_of(s2, to.unwrap()) == redirect(sibling_of(s, x), x, to)),
    ensures
        chain_ok(s2, redirect(first, x, to), f),
        forest(s2, redirect(first, x, to), f) == forest_edit(s, first, f, x, repl),
    decreases f,
{
    if let Some(j) = first {
        let g = (f - 1) as nat;
        lemma_edit(s, s2, x, to, repl, sibling_of(s, j), g);
        if j == x {
            lemma_no_self_sibling(s, x, f);
            if repl.len() == 0 {
                lemma_fuel(s2, sibling_of(s, x), g, f);
                assert(repl + forest_edit(s, sibling_of(s, x), g, x, repl) == forest_edit(
                    s,
                    sibling_of(s, x),
                    g,
                    x,
                    repl,
                ));
            } else {
                let y = to.unwrap();
                assert(forest(s2, Some(y), f) == seq![y] + forest(s2, None, g) + forest(
                    s2,
                    sibling_of(s2, y),
                    g,
                ));
                assert(seq![y] + Seq::<NodeId>::empty() == seq![y]);
                assert(chain_ok(s2, None, g));
                assert(chain_ok(s2, Some(y), f));
            }
        } else {
            lemma_edit(s, s2, x, to, repl, child_of(s, j), g);
            assert(s2[j.0 as int] == relink(s, x, to)[j.0 as int]);
        }
    }
}

/// Replacing a node other than the root changes the tree only where that node's
/// subtree stood: in the pre-order of the new tree, the new node stands alone
/// in its place and everything else comes as before, and every other node keeps
/// its kind, span and payload.
pub proof fn lemma_replace_is_local(
    s: Seq<Option<ASTNode>>,
    root: NodeId,
    target: NodeId,
    replacement: IsolatedNode,
)
    requires
        live(s, root),
        descends_finitely(s, root),
        target != root,
        s.len() < usize::MAX,
        replace_outcome(s, root, target, replacement) is Ok,
    ensures
        ({
            let (s2, r2) = replace_outcome(s, root, target, replacement)->Ok_0;
            &&& r2 == root
            &&& subtree_order(s2, root) == seq![root] + forest_edit(
                s,
                child_of(s, root),
                s.len() as nat,
                target,
                seq![NodeId(s.len() as usize)],
            )
            &&& forall|k: int| 0 <= k < s.len() && k != target.0 ==> #[trigger] same_content(s, s2, k)
        }),
{
    let n = replacement.spec_to_ast_node(crate::syntax::node_at(s, target)).unwrap();
    let y = NodeId(s.len() as usize);
    let s2 = replace_outcome(s, root, target, replacement)->Ok_0.0;
    assert(forall|k: int| 0 <= k < s.len() ==> #[trigger] s.push(Some(n))[k] == s[k]);
    assert(forall|k: int| 0 <= k < s.len() && k != target.0 ==> #[trigger] s2[k] == relink(s, target, Some(y))[k]);
    lemma_edit(s, s2, target, Some(y), seq![y], child_of(s, root), s.len() as nat);
    assert(child_of(s2, root) == redirect(child_of(s, root), target, Some(y)));
    lemma_fuel(s2, child_of(s2, root), s.len() as nat, s2.len() as nat);
}

/// Removing a node changes the tree only where its subtree stood, and where the
/// separator bound to it stood: the pre-order of the new tree is the old one with
/// the separator's subtree left out, and then the node's, and every other node
/// keeps its kind, span and payload.
pub proof fn lemma_remove_is_local(s: Seq<Option<ASTNode>>, root: NodeId, target: NodeId)
    requires
        live(s, root),
        descends_finitely(s, root),
        remove_outcome(s, root, target) is Ok,
    ensures
        ({
            let (s2, r2) = remove_outcome(s, root, target)->Ok_0;
            let sep = bound_separator(s, root, target);
            let s1 = match sep {
                Some(c) => unlink(s, c),
                None => s,
            };
            &&& r2 == root
            &&& subtree_order(s1, root) == match sep {
                Some(c) => seq![root] + forest_edit(s, child_of(s, root), s.len() as nat, c, seq![]),
                None => subtree_order(s, root),
            }
            &&& subtree_order(s2, root) == seq![root] + forest_edit(
                s1,
                child_of(s1, root),
                s.len() as nat,
                target,
                seq![],
            )
            &&& forall|k: int|
                0 <= k < s.len() && k != target.0 && sep != Some(NodeId(k as usize))
                    ==> #[trigger] same_content(s, s2, k)
        }),
{
    let sep = bound_separator(s, root, target);
    let s1 = match sep {
        Some(c) => unlink(s, c),
        None => s,
    };
    if let Some(c) = sep {
        let p = predecessor_from(s, target, 0).unwrap();
        lemma_last_in_chain_live(s, child_of(s, p), s.len() as nat);
        assert(forall|k: int| 0 <= k < s.len() && k != c.0 ==> #[trigger] s1[k] == relink(s, c, sibling_of(s, c))[k]);
        lemma_edit(s, s1, c, sibling_of(s, c), seq![], child_of(s, root), s.len() as nat);
        assert(child_of(s1, root) == redirect(child_of(s, root), c, sibling_of(s, c)));
    }
    let s2 = unlink(s1, target);
    assert(forall|k: int| 0 <= k < s1.len() && k != target.0 ==> #[trigger] s2[k] == relink(s1, target, sibling_of(s1, target))[k]);
    lemma_edit(s1, s2, target, sibling_of(s1, target), seq![], child_of(s1, root), s.len() as nat);
    assert(child_of(s2, root) == redirect(child_of(s1, root), target, sibling_of(s1, target)));
}

} // verus!
