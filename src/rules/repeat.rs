//! Flags route entries whose effective path repeats one seen earlier in the
//! walk.
use vstd::prelude::*;

use crate::context::Context;
use crate::diagnostic::Finding;
use crate::handler::{Handler, traverse, walk, walk_all};
use crate::path::copy_bytes;
use crate::path::{resolve, self_segment};
use crate::routes::{
    array_paths, array_paths_of, contains_bytes, declared_path, entry_paths, entry_segment,
    route_context, views,
};
use crate::rules::LintRule;
use crate::syntax::{NodeKind, SyntaxTree};

verus! {

pub const CODE: &'static str = "no-repeat-path";

pub const MESSAGE: &'static str = "🚨 path发现重复，可能会导致路径渲染错误，请检查后删除！";

pub const HINT: &'static str = "如果是父子路由复用同一路径，请在子路由中使用 './' 相对路径";

/// Goes through `ps` in order: a path already in the set counts as a repeat,
/// any other path joins the set. Gives the final set and the repeats.
pub open spec fn scan(seen: Set<Seq<u8>>, ps: Seq<Seq<u8>>) -> (Set<Seq<u8>>, nat)
    decreases ps.len(),
{
    if ps.len() == 0 {
        (seen, 0)
    } else {
        let (s, k) = scan(seen, ps.drop_last());
        if s.contains(ps.last()) {
            (s, k + 1)
        } else {
            (s.insert(ps.last()), k)
        }
    }
}

pub open spec fn repeat_finding(tree: SyntaxTree, a: int) -> Finding {
    Finding { span: tree.span_of(a), code: CODE@, message: MESSAGE@, hint: Some(HINT@) }
}

#[derive(Debug)]
pub struct RepeatPath;

/// Carries the effective paths seen so far in the walk.
pub struct RepeatPathHandler {
    seen: Vec<Vec<u8>>,
}

impl View for RepeatPathHandler {
    type V = Set<Seq<u8>>;

    closed spec fn view(&self) -> Set<Seq<u8>> {
        views(self.seen@).to_set()
    }
}

impl RepeatPathHandler {
    pub fn new() -> (r: Self)
        ensures
            r@ == Set::<Seq<u8>>::empty(),
    {
        let r = RepeatPathHandler { seen: Vec::new() };
        assert(r@ =~= Set::<Seq<u8>>::empty());
        r
    }
}

impl Handler for RepeatPathHandler {
    /// Each entry of the array whose path was seen before reports once,
    /// at the array.
    open spec fn on_array_lit(state: Set<Seq<u8>>, tree: SyntaxTree, n: int) -> (
        Set<Seq<u8>>,
        Seq<Finding>,
    ) {
        let (s, k) = scan(state, array_paths(tree, n));
        (s, Seq::new(k, |j: int| repeat_finding(tree, n)))
    }

    open spec fn on_object_lit(state: Set<Seq<u8>>, tree: SyntaxTree, n: int) -> (
        Set<Seq<u8>>,
        Seq<Finding>,
    ) {
        (state, Seq::empty())
    }

    fn array_lit(&mut self, n: usize, ctx: &mut Context) {
        let ghost start = *ctx;
        let ghost seen0 = self@;
        let tree = ctx.program();
        proof {
            tree.lemma_node(n as int);
        }
        let span = tree.span(n);
        let paths = array_paths_of(tree, n);
        let ghost ps = views(paths@);
        let ghost f = repeat_finding(start.tree(), n as int);
        let ghost mut repeats: nat = 0;
        let mut i: usize = 0;
        proof {
            start.lemma_appended_none();
            assert(ps.subrange(0, 0) =~= Seq::<Seq<u8>>::empty());
            assert(Seq::new(0, |j: int| f) =~= Seq::<Finding>::empty());
        }
        while i < paths.len()
            invariant
                start.wf(),
                start.span_in_source(span),
                span == start.tree().span_of(n as int),
                f == repeat_finding(start.tree(), n as int),
                ps == views(paths@),
                i <= paths@.len(),
                scan(seen0, ps.subrange(0, i as int)) == (self@, repeats),
                start.appended(*ctx, Seq::new(repeats, |j: int| f)),
            decreases paths.len() - i,
        {
            proof {
                assert(ps.subrange(0, i + 1).drop_last() =~= ps.subrange(0, i as int));
                assert(ps.subrange(0, i + 1).last() == paths@[i as int]@);
            }
            if contains_bytes(&self.seen, &paths[i]) {
                let ghost mid = *ctx;
                ctx.add_diagnostic_with_hint(span, CODE, MESSAGE, HINT);
                proof {
                    start.lemma_appended_trans(mid, *ctx, Seq::new(repeats, |j: int| f), seq![f]);
                    assert(Seq::new(repeats, |j: int| f) + seq![f] =~= Seq::new(
                        repeats + 1,
                        |j: int| f,
                    ));
                    repeats = repeats + 1;
                }
            } else {
                let ghost before = self.seen@;
                self.seen.push(copy_bytes(&paths[i]));
                proof {
                    let p = paths@[i as int]@;
                    let vb = views(before);
                    let va = views(self.seen@);
                    assert(va =~= vb.push(p));
                    assert forall|x: Seq<u8>| #[trigger] va.contains(x) <==> vb.contains(x) || x == p by {
                        if x == p {
                            assert(va[vb.len() as int] == p);
                        }
                        if vb.contains(x) {
                            let k = choose|k: int| 0 <= k < vb.len() && vb[k] == x;
                            assert(va[k] == x);
                        }
                        if va.contains(x) {
                            let k = choose|k: int| 0 <= k < va.len() && va[k] == x;
                            if k < vb.len() {
                                assert(vb[k] == x);
                            }
                        }
                    }
                    assert(self@ =~= vb.to_set().insert(p));
                }
            }
            i = i + 1;
        }
        proof {
            assert(ps.subrange(0, ps.len() as int) =~= ps);
        }
    }

    fn object_lit(&mut self, n: usize, ctx: &mut Context) {
        proof {
            old(ctx).lemma_appended_none();
        }
    }
}

/// After a scan the set holds what it held before and every scanned path.
pub proof fn lemma_scan_set(seen: Set<Seq<u8>>, ps: Seq<Seq<u8>>)
    ensures
        forall|x: Seq<u8>| #[trigger] scan(seen, ps).0.contains(x) <==> seen.contains(x) || ps.contains(x),
    decreases ps.len(),
{
    if ps.len() > 0 {
        let q = ps.drop_last();
        lemma_scan_set(seen, q);
        assert forall|x: Seq<u8>| #[trigger] ps.contains(x) <==> q.contains(x) || x == ps.last() by {
            if ps.contains(x) {
                let k = choose|k: int| 0 <= k < ps.len() && ps[k] == x;
                if k < q.len() {
                    assert(q[k] == x);
                }
            }
            if q.contains(x) {
                let k = choose|k: int| 0 <= k < q.len() && q[k] == x;
                assert(ps[k] == x);
            }
            if x == ps.last() {
                assert(ps[ps.len() - 1] == x);
            }
        }
        assert forall|x: Seq<u8>| #[trigger] scan(seen, ps).0.contains(x) <==> seen.contains(x)
            || ps.contains(x) by {
            assert(scan(seen, q).0.contains(x) <==> seen.contains(x) || q.contains(x));
            assert(ps.contains(x) <==> q.contains(x) || x == ps.last());
        }
    }
}

/// A path that occurs twice in a scan counts at least once as a repeat.
pub proof fn lemma_scan_repeat(seen: Set<Seq<u8>>, ps: Seq<Seq<u8>>, i: int, j: int)
    requires
        0 <= i < j < ps.len(),
        ps[i] == ps[j],
    ensures
        scan(seen, ps).1 >= 1,
    decreases ps.len(),
{
    let q = ps.drop_last();
    if j == ps.len() - 1 {
        lemma_scan_set(seen, q);
        assert(q[i] == ps[i]);
        assert(q.contains(ps.last()));
    } else {
        lemma_scan_repeat(seen, q, i, j);
    }
}

/// Paths that are all different, and none seen before, count no repeat.
pub proof fn lemma_scan_distinct(seen: Set<Seq<u8>>, ps: Seq<Seq<u8>>)
    requires
        ps.no_duplicates(),
        forall|x: Seq<u8>| ps.contains(x) ==> !seen.contains(x),
    ensures
        scan(seen, ps).1 == 0,
    decreases ps.len(),
{
    if ps.len() > 0 {
        let q = ps.drop_last();
        assert forall|x: Seq<u8>| q.contains(x) implies !seen.contains(x) by {
            let k = choose|k: int| 0 <= k < q.len() && q[k] == x;
            assert(ps[k] == x);
        }
        lemma_scan_distinct(seen, q);
        lemma_scan_set(seen, q);
        assert(ps[ps.len() - 1] == ps.last());
        if q.contains(ps.last()) {
            let k = choose|k: int| 0 <= k < q.len() && q[k] == ps.last();
            assert(ps[k] == ps[ps.len() - 1]);
        }
    }
}

/// The paths of the entries before element `k` begin the paths of the
/// entries before any later element.
proof fn lemma_entry_paths_prefix(tree: SyntaxTree, base: Seq<u8>, es: Seq<usize>, i: int, k: int)
    requires
        0 <= i <= k <= es.len(),
    ensures
        entry_paths(tree, base, es.take(i)).len() <= entry_paths(tree, base, es.take(k)).len(),
        forall|j: int|
            0 <= j < entry_paths(tree, base, es.take(i)).len() ==> #[trigger] entry_paths(
                tree,
                base,
                es.take(k),
            )[j] == entry_paths(tree, base, es.take(i))[j],
    decreases k - i,
{
    if i < k {
        lemma_entry_paths_prefix(tree, base, es, i, k - 1);
        assert(es.take(k).drop_last() =~= es.take(k - 1));
    }
}

/// An entry that declares `./` adds no path: the array's paths are those of
/// the other entries.
pub proof fn lemma_self_entry_ignored(tree: SyntaxTree, base: Seq<u8>, es: Seq<usize>, k: int)
    requires
        0 <= k < es.len(),
        tree.kind_of(es[k] as int) == NodeKind::ExprOrSpread,
        tree.children_of(es[k] as int).len() >= 1,
        declared_path(tree, tree.children_of(es[k] as int)[0] as int) == Some(self_segment()),
    ensures
        entry_paths(tree, base, es.remove(k)) == entry_paths(tree, base, es),
    decreases es.len(),
{
    if k == es.len() - 1 {
        assert(es.remove(k) =~= es.drop_last());
    } else {
        lemma_self_entry_ignored(tree, base, es.drop_last(), k);
        assert(es.remove(k).drop_last() =~= es.drop_last().remove(k));
        assert(es.remove(k).last() == es.last());
    }
}

/// Two entries of one array literal that resolve to the same path, such as
/// two entries that both declare `/`, make the rule report at that array:
/// its findings on the tree include one anchored at the array.
pub proof fn lemma_repeat_reported(tree: SyntaxTree, a: int, k1: int, k2: int)
    requires
        tree.has_node(a),
        tree.kind_of(a) == NodeKind::ArrayLit,
        0 <= k1 < k2 < tree.children_of(a).len(),
        entry_segment(tree, tree.children_of(a)[k1] as int) is Some,
        entry_segment(tree, tree.children_of(a)[k2] as int) is Some,
        resolve(route_context(tree, a), entry_segment(tree, tree.children_of(a)[k1] as int)->0)
            == resolve(route_context(tree, a), entry_segment(tree, tree.children_of(a)[k2] as int)->0),
    ensures
        exists|j: int|
            0 <= j < walk_all::<RepeatPathHandler>(Set::empty(), tree).1.len()
                && #[trigger] walk_all::<RepeatPathHandler>(Set::empty(), tree).1[j] == repeat_finding(tree, a),
{
    let es = tree.children_of(a);
    let base = route_context(tree, a);
    let ps = array_paths(tree, a);
    let i1 = entry_paths(tree, base, es.take(k1)).len() as int;
    let i2 = entry_paths(tree, base, es.take(k2)).len() as int;
    assert(es.take(k1 + 1).drop_last() =~= es.take(k1));
    assert(es.take(k2 + 1).drop_last() =~= es.take(k2));
    assert(es.take(k1 + 1).last() == es[k1]);
    assert(es.take(k2 + 1).last() == es[k2]);
    lemma_entry_paths_prefix(tree, base, es, k1 + 1, k2);
    lemma_entry_paths_prefix(tree, base, es, k1 + 1, es.len() as int);
    lemma_entry_paths_prefix(tree, base, es, k2 + 1, es.len() as int);
    assert(es.take(es.len() as int) =~= es);
    assert(ps[i1] == ps[i2]);
    let state = walk::<RepeatPathHandler>(Set::empty(), tree, a).0;
    lemma_scan_repeat(state, ps, i1, i2);
    crate::handler::lemma_walk_contains_visit::<RepeatPathHandler>(Set::empty(), tree, a);
    let here = crate::handler::visit::<RepeatPathHandler>(state, tree, a).1;
    assert(here[0] == repeat_finding(tree, a));
    let all = walk_all::<RepeatPathHandler>(Set::empty(), tree).1;
    let before = walk::<RepeatPathHandler>(Set::empty(), tree, a).1;
    assert(all[before.len() as int] == here[0]);
}

/// An array literal whose entries resolve to paths that are all different,
/// none seen earlier in the walk, reports nothing.
pub proof fn lemma_distinct_entries_quiet(state: Set<Seq<u8>>, tree: SyntaxTree, a: int)
    requires
        array_paths(tree, a).no_duplicates(),
        forall|x: Seq<u8>| array_paths(tree, a).contains(x) ==> !state.contains(x),
    ensures
        RepeatPathHandler::on_array_lit(state, tree, a).1.len() == 0,
{
    lemma_scan_distinct(state, array_paths(tree, a));
}

impl LintRule for RepeatPath {
    open spec fn findings(&self, tree: SyntaxTree) -> Seq<Finding> {
        walk_all::<RepeatPathHandler>(Set::empty(), tree).1
    }

    open spec fn spec_code(&self) -> Seq<char> {
        CODE@
    }

    fn code(&self) -> (r: &'static str) {
        CODE
    }

    fn lint_program(&self, ctx: &mut Context) {
        let mut handler = RepeatPathHandler::new();
        traverse(&mut handler, ctx);
    }

    fn new() -> (r: Self) {
        RepeatPath
    }
}

} // verus!
