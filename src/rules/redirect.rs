//! Flags redirect entries that declare more than `redirect` and `path`.
use vstd::prelude::*;

use crate::context::Context;
use crate::diagnostic::Finding;
use crate::handler::{Handler, traverse, walk};
use crate::path::bytes_of_str;
use crate::routes::{contains_bytes, object_keys, object_keys_of};
use crate::rules::LintRule;
use crate::syntax::{NodeKind, SyntaxTree, bytes_of};

verus! {

pub const CODE: &'static str = "redirect-only-has-redirect-and-path";

pub const MESSAGE: &'static str = "🚨 redirect 路由中应该只配置 redirect 和 path 两个属性！";

pub const REDIRECT_KEY: &'static str = "redirect";

/// Object literal `o` declares `redirect`, `path` and at least one other key.
pub open spec fn redirect_with_extra_keys(tree: SyntaxTree, o: int) -> bool {
    match object_keys(tree, o) {
        Some(ks) => ks.len() > 2 && ks.contains(bytes_of(crate::routes::PATH_KEY@))
            && ks.contains(bytes_of(REDIRECT_KEY@)),
        None => false,
    }
}

pub open spec fn redirect_finding(tree: SyntaxTree, o: int) -> Finding {
    Finding { span: tree.span_of(o), code: CODE@, message: MESSAGE@, hint: None }
}

/// One finding for each offending redirect object among nodes `0..i`, in
/// pre-order.
pub open spec fn redirect_findings(tree: SyntaxTree, i: int) -> Seq<Finding>
    decreases i,
{
    if i <= 0 {
        Seq::empty()
    } else {
        let n = i - 1;
        redirect_findings(tree, n) + if tree.kind_of(n) == NodeKind::ObjectLit
            && redirect_with_extra_keys(tree, n) {
            seq![redirect_finding(tree, n)]
        } else {
            Seq::empty()
        }
    }
}

#[derive(Debug)]
pub struct RedirectKeys;

pub struct RedirectKeysHandler;

impl View for RedirectKeysHandler {
    type V = ();

    open spec fn view(&self) -> () {
        ()
    }
}

impl Handler for RedirectKeysHandler {
    open spec fn on_array_lit(state: (), tree: SyntaxTree, n: int) -> ((), Seq<Finding>) {
        ((), Seq::empty())
    }

    open spec fn on_object_lit(state: (), tree: SyntaxTree, n: int) -> ((), Seq<Finding>) {
        (
            (),
            if redirect_with_extra_keys(tree, n) {
                seq![redirect_finding(tree, n)]
            } else {
                Seq::empty()
            },
        )
    }

    fn array_lit(&mut self, n: usize, ctx: &mut Context) {
        proof {
            old(ctx).lemma_appended_none();
        }
    }

    fn object_lit(&mut self, n: usize, ctx: &mut Context) {
        let tree = ctx.program();
        proof {
            tree.lemma_node(n as int);
        }
        let found = match object_keys_of(tree, n) {
            Some(keys) => keys.len() > 2 && contains_bytes(
                &keys,
                &bytes_of_str(crate::routes::PATH_KEY),
            ) && contains_bytes(&keys, &bytes_of_str(REDIRECT_KEY)),
            None => false,
        };
        if found {
            let span = tree.span(n);
            ctx.add_diagnostic(span, CODE, MESSAGE);
        } else {
            proof {
                old(ctx).lemma_appended_none();
            }
        }
    }
}

/// The walk of the handler reports exactly the offending redirect objects.
pub proof fn lemma_redirect_walk(tree: SyntaxTree, i: int)
    ensures
        walk::<RedirectKeysHandler>((), tree, i).1 == redirect_findings(tree, i),
    decreases i,
{
    if i > 0 {
        lemma_redirect_walk(tree, i - 1);
    }
}

/// The two keys a redirect entry may declare are different byte strings.
proof fn lemma_path_is_not_redirect()
    ensures
        bytes_of(crate::routes::PATH_KEY@) != bytes_of(REDIRECT_KEY@),
{
    reveal_strlit("path");
    reveal_strlit("redirect");
    assert(vstd::utf8::is_ascii_chars(crate::routes::PATH_KEY@));
    assert(vstd::utf8::is_ascii_chars(REDIRECT_KEY@));
    vstd::utf8::is_ascii_chars_encode_utf8(crate::routes::PATH_KEY@);
    vstd::utf8::is_ascii_chars_encode_utf8(REDIRECT_KEY@);
}

/// An object literal whose keys are only `path` and `redirect` is never
/// flagged.
pub proof fn lemma_redirect_and_path_only(tree: SyntaxTree, o: int)
    requires
        object_keys(tree, o) is Some,
        forall|k: Seq<u8>|
            #[trigger] object_keys(tree, o)->0.contains(k) ==> k == bytes_of(
                crate::routes::PATH_KEY@,
            ) || k == bytes_of(REDIRECT_KEY@),
    ensures
        !redirect_with_extra_keys(tree, o),
{
    let ks = object_keys(tree, o)->0;
    crate::routes::lemma_keys_no_duplicates(tree, tree.children_of(o));
    if ks.len() > 2 {
        assert(ks.contains(ks[0]) && ks.contains(ks[1]) && ks.contains(ks[2]));
        assert(ks[0] != ks[1] && ks[1] != ks[2] && ks[0] != ks[2]);
    }
}

/// An object literal that declares `path`, `redirect` and any third key is
/// always flagged, whatever else it declares.
pub proof fn lemma_redirect_with_third_key(tree: SyntaxTree, o: int, k: Seq<u8>)
    requires
        object_keys(tree, o) is Some,
        object_keys(tree, o)->0.contains(bytes_of(crate::routes::PATH_KEY@)),
        object_keys(tree, o)->0.contains(bytes_of(REDIRECT_KEY@)),
        object_keys(tree, o)->0.contains(k),
        k != bytes_of(crate::routes::PATH_KEY@),
        k != bytes_of(REDIRECT_KEY@),
    ensures
        redirect_with_extra_keys(tree, o),
{
    let ks = object_keys(tree, o)->0;
    lemma_path_is_not_redirect();
    let a = choose|i: int| 0 <= i < ks.len() && ks[i] == bytes_of(crate::routes::PATH_KEY@);
    let b = choose|i: int| 0 <= i < ks.len() && ks[i] == bytes_of(REDIRECT_KEY@);
    let c = choose|i: int| 0 <= i < ks.len() && ks[i] == k;
    assert(a != b && b != c && a != c);
}

impl LintRule for RedirectKeys {
    open spec fn findings(&self, tree: SyntaxTree) -> Seq<Finding> {
        redirect_findings(tree, tree.node_count())
    }

    open spec fn spec_code(&self) -> Seq<char> {
        CODE@
    }

    fn code(&self) -> (r: &'static str) {
        CODE
    }

    fn lint_program(&self, ctx: &mut Context) {
        let mut handler = RedirectKeysHandler;
        traverse(&mut handler, ctx);
        proof {
            lemma_redirect_walk(old(ctx).tree(), old(ctx).tree().node_count());
        }
    }

    fn new() -> (r: Self) {
        RedirectKeys
    }
}

} // verus!
