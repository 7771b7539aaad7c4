//! The traversal dispatcher: one walk over the tree in pre-order, calling a
//! handler at each array literal and object literal.
use vstd::prelude::*;

use crate::context::Context;
use crate::diagnostic::Finding;
use crate::syntax::{NodeKind, SyntaxTree};

verus! {

/// Callbacks per node kind. A handler's state is its view; each callback
/// gives the next state and the findings that it reports at the node.
pub trait Handler: View + Sized {
    spec fn on_array_lit(state: Self::V, tree: SyntaxTree, n: int) -> (Self::V, Seq<Finding>);

    spec fn on_object_lit(state: Self::V, tree: SyntaxTree, n: int) -> (Self::V, Seq<Finding>);

    fn array_lit(&mut self, n: usize, ctx: &mut Context)
        requires
            old(ctx).wf(),
            old(ctx).tree().has_node(n as int),
            old(ctx).tree().kind_of(n as int) == NodeKind::ArrayLit,
        ensures
            final(self)@ == Self::on_array_lit(old(self)@, old(ctx).tree(), n as int).0,
            old(ctx).appended(
                *final(ctx),
                Self::on_array_lit(old(self)@, old(ctx).tree(), n as int).1,
            ),
    ;

    fn object_lit(&mut self, n: usize, ctx: &mut Context)
        requires
            old(ctx).wf(),
            old(ctx).tree().has_node(n as int),
            old(ctx).tree().kind_of(n as int) == NodeKind::ObjectLit,
        ensures
            final(self)@ == Self::on_object_lit(old(self)@, old(ctx).tree(), n as int).0,
            old(ctx).appended(
                *final(ctx),
                Self::on_object_lit(old(self)@, old(ctx).tree(), n as int).1,
            ),
    ;
}

/// What visiting node `n` does: the callback for its kind, if any.
pub open spec fn visit<H: Handler>(state: H::V, tree: SyntaxTree, n: int) -> (H::V, Seq<Finding>) {
    match tree.kind_of(n) {
        NodeKind::ArrayLit => H::on_array_lit(state, tree, n),
        NodeKind::ObjectLit => H::on_object_lit(state, tree, n),
        _ => (state, Seq::empty()),
    }
}

/// The state and the findings after visiting nodes `0..i`, in pre-order.
pub open spec fn walk<H: Handler>(state: H::V, tree: SyntaxTree, i: int) -> (H::V, Seq<Finding>)
    decreases i,
{
    if i <= 0 {
        (state, Seq::empty())
    } else {
        let (s, fs) = walk::<H>(state, tree, i - 1);
        let (t, gs) = visit::<H>(s, tree, i - 1);
        (t, fs + gs)
    }
}

/// The findings of a whole walk over `tree`.
pub open spec fn walk_all<H: Handler>(state: H::V, tree: SyntaxTree) -> (H::V, Seq<Finding>) {
    walk::<H>(state, tree, tree.node_count())
}

/// The findings after nodes `0..i` begin the findings after nodes `0..k`,
/// for `i <= k`.
pub proof fn lemma_walk_prefix<H: Handler>(state: H::V, tree: SyntaxTree, i: int, k: int)
    requires
        0 <= i <= k,
    ensures
        walk::<H>(state, tree, i).1.len() <= walk::<H>(state, tree, k).1.len(),
        forall|j: int|
            0 <= j < walk::<H>(state, tree, i).1.len() ==> #[trigger] walk::<H>(state, tree, k).1[j]
                == walk::<H>(state, tree, i).1[j],
    decreases k - i,
{
    if i < k {
        lemma_walk_prefix::<H>(state, tree, i, k - 1);
    }
}

/// What the visit of node `n` reports stands in the findings of the whole
/// walk, right after what the nodes before it reported.
pub proof fn lemma_walk_contains_visit<H: Handler>(state: H::V, tree: SyntaxTree, n: int)
    requires
        0 <= n < tree.node_count(),
    ensures
        ({
            let before = walk::<H>(state, tree, n);
            let here = visit::<H>(before.0, tree, n).1;
            let all = walk_all::<H>(state, tree).1;
            &&& before.1.len() + here.len() <= all.len()
            &&& forall|j: int| 0 <= j < here.len() ==> all[before.1.len() + j] == #[trigger] here[j]
        }),
{
    lemma_walk_prefix::<H>(state, tree, n + 1, tree.node_count());
    let before = walk::<H>(state, tree, n);
    let here = visit::<H>(before.0, tree, n).1;
    let upto = walk::<H>(state, tree, n + 1).1;
    assert(upto == before.1 + here);
    assert forall|j: int| 0 <= j < here.len() implies walk_all::<H>(state, tree).1[before.1.len()
        + j] == #[trigger] here[j] by {
        assert(upto[before.1.len() + j] == here[j]);
    }
}

/// Visits every node of the context's tree once, in pre-order, and calls
/// the handler's callback for the node's kind.
pub fn traverse<H: Handler>(handler: &mut H, ctx: &mut Context)
    requires
        old(ctx).wf(),
    ensures
        final(handler)@ == walk_all::<H>(old(handler)@, old(ctx).tree()).0,
        old(ctx).appended(*final(ctx), walk_all::<H>(old(handler)@, old(ctx).tree()).1),
{
    let ghost start = *ctx;
    let ghost h0 = handler@;
    let ghost tree = ctx.tree();
    let count = ctx.program().len();
    let mut i: usize = 0;
    proof {
        start.lemma_appended_none();
    }
    while i < count
        invariant
            start.wf(),
            tree == start.tree(),
            count == tree.node_count(),
            i <= count,
            handler@ == walk::<H>(h0, tree, i as int).0,
            start.appended(*ctx, walk::<H>(h0, tree, i as int).1),
        decreases count - i,
    {
        let ghost mid = *ctx;
        let ghost s = handler@;
        let kind = ctx.program().kind(i);
        match kind {
            NodeKind::ArrayLit => {
                handler.array_lit(i, ctx);
            },
            NodeKind::ObjectLit => {
                handler.object_lit(i, ctx);
            },
            _ => {
                proof {
                    mid.lemma_appended_none();
                }
            },
        }
        proof {
            start.lemma_appended_trans(mid, *ctx, walk::<H>(h0, tree, i as int).1, visit::<H>(s, tree, i as int).1);
        }
        i = i + 1;
    }
}

} // verus!
