//! Flags object literals that nest routes under the deprecated `children` key.
use vstd::prelude::*;

use crate::context::Context;
use crate::diagnostic::Finding;
use crate::handler::{Handler, traverse, walk};
use crate::path::bytes_of_str;
use crate::routes::{contains_bytes, object_keys, object_keys_of};
use crate::rules::LintRule;
use crate::syntax::{NodeKind, SyntaxTree, bytes_of};

verus! {

pub const CODE: &'static str = "no-use-children";

pub const MESSAGE: &'static str = "🚨 不应该使用 children 来配置子路由, children 已经废弃，请使用 routes 来代替！";

pub const CHILDREN_KEY: &'static str = "children";

/// Object literal `o` declares a `children` key.
pub open spec fn uses_children_key(tree: SyntaxTree, o: int) -> bool {
    match object_keys(tree, o) {
        Some(ks) => ks.contains(bytes_of(CHILDREN_KEY@)),
        None => false,
    }
}

pub open spec fn children_finding(tree: SyntaxTree, o: int) -> Finding {
    Finding { span: tree.span_of(o), code: CODE@, message: MESSAGE@, hint: None }
}

/// One finding for each object literal among nodes `0..i` that declares a
/// `children` key, in pre-order.
pub open spec fn children_findings(tree: SyntaxTree, i: int) -> Seq<Finding>
    decreases i,
{
    if i <= 0 {
        Seq::empty()
    } else {
        let n = i - 1;
        children_findings(tree, n) + if tree.kind_of(n) == NodeKind::ObjectLit
            && uses_children_key(tree, n) {
            seq![children_finding(tree, n)]
        } else {
            Seq::empty()
        }
    }
}

#[derive(Debug)]
pub struct ChildrenKey;

pub struct ChildrenKeyHandler;

impl View for ChildrenKeyHandler {
    type V = ();

    open spec fn view(&self) -> () {
        ()
    }
}

impl Handler for ChildrenKeyHandler {
    open spec fn on_array_lit(state: (), tree: SyntaxTree, n: int) -> ((), Seq<Finding>) {
        ((), Seq::empty())
    }

    open spec fn on_object_lit(state: (), tree: SyntaxTree, n: int) -> ((), Seq<Finding>) {
        (
            (),
            if uses_children_key(tree, n) {
                seq![children_finding(tree, n)]
            } else {
                Seq::empty()
            },
        )
    }

    fn array_lit(&mut self, n: usize, ctx: &mut Context) {
        proof {
            old(ctx).lemma_appended_none();
        }
    }

    fn object_lit(&mut self, n: usize, ctx: &mut Context) {
        let tree = ctx.program();
        proof {
            tree.lemma_node(n as int);
        }
        let found = match object_keys_of(tree, n) {
            Some(keys) => contains_bytes(&keys, &bytes_of_str(CHILDREN_KEY)),
            None => false,
        };
        if found {
            let span = tree.span(n);
            ctx.add_diagnostic(span, CODE, MESSAGE);
        } else {
            proof {
                old(ctx).lemma_appended_none();
            }
        }
    }
}

/// The walk of the handler reports exactly the objects with a `children` key.
pub proof fn lemma_children_walk(tree: SyntaxTree, i: int)
    ensures
        walk::<ChildrenKeyHandler>((), tree, i).1 == children_findings(tree, i),
    decreases i,
{
    if i > 0 {
        lemma_children_walk(tree, i - 1);
    }
}

/// An object literal with a `children` key is reported exactly once,
/// whatever its other keys, right after what the nodes before it reported;
/// any other node adds nothing.
pub proof fn lemma_children_once(tree: SyntaxTree, o: int)
    requires
        0 <= o < tree.node_count(),
    ensures
        ({
            let before = children_findings(tree, o);
            let all = children_findings(tree, tree.node_count());
            if tree.kind_of(o) == NodeKind::ObjectLit && uses_children_key(tree, o) {
                &&& children_findings(tree, o + 1) == before.push(children_finding(tree, o))
                &&& before.len() < all.len()
                &&& all[before.len() as int] == children_finding(tree, o)
            } else {
                children_findings(tree, o + 1) == before
            }
        }),
{
    lemma_children_walk(tree, o);
    lemma_children_walk(tree, o + 1);
    lemma_children_walk(tree, tree.node_count());
    crate::handler::lemma_walk_prefix::<ChildrenKeyHandler>((), tree, o + 1, tree.node_count());
    let before = children_findings(tree, o);
    if tree.kind_of(o) == NodeKind::ObjectLit && uses_children_key(tree, o) {
        assert(children_findings(tree, o + 1) =~= before.push(children_finding(tree, o)));
        assert(children_findings(tree, o + 1)[before.len() as int] == children_finding(tree, o));
    } else {
        assert(children_findings(tree, o + 1) =~= before);
    }
}

impl LintRule for ChildrenKey {
    open spec fn findings(&self, tree: SyntaxTree) -> Seq<Finding> {
        children_findings(tree, tree.node_count())
    }

    open spec fn spec_code(&self) -> Seq<char> {
        CODE@
    }

    fn code(&self) -> (r: &'static str) {
        CODE
    }

    fn lint_program(&self, ctx: &mut Context) {
        let mut handler = ChildrenKeyHandler;
        traverse(&mut handler, ctx);
        proof {
            lemma_children_walk(old(ctx).tree(), old(ctx).tree().node_count());
        }
    }

    fn new() -> (r: Self) {
        ChildrenKey
    }
}

} // verus!
