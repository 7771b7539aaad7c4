//! Route entries in a syntax tree: the keys an object literal declares, the
//! path segment a route entry declares, and the effective paths of the
//! entries of an array literal.
use vstd::prelude::*;

use crate::path::{bytes_equal, resolve, resolve_path, root_path, self_segment, unquote, unquote_literal};
use crate::syntax::{NodeKind, SyntaxTree, bytes_of};

verus! {

pub const PATH_KEY: &'static str = "path";

/// The byte strings of a list, as values.
pub open spec fn views(list: Seq<Vec<u8>>) -> Seq<Seq<u8>> {
    list.map_values(|v: Vec<u8>| v@)
}

/// The key of an object member: a shorthand member is its own key; any
/// other member's key is the text of its first child.
pub open spec fn member_key(tree: SyntaxTree, m: int) -> Option<Seq<u8>> {
    if tree.kind_of(m) == NodeKind::Ident {
        Some(tree.text_of(m))
    } else if tree.children_of(m).len() > 0 {
        Some(tree.text_of(tree.children_of(m)[0] as int))
    } else {
        None
    }
}

/// The distinct keys of the members `ms`, in order of first appearance; none
/// if a member has no key.
pub open spec fn keys_of(tree: SyntaxTree, ms: Seq<usize>) -> Option<Seq<Seq<u8>>>
    decreases ms.len(),
{
    if ms.len() == 0 {
        Some(Seq::empty())
    } else {
        match (keys_of(tree, ms.drop_last()), member_key(tree, ms.last() as int)) {
            (Some(ks), Some(k)) => Some(
                if ks.contains(k) {
                    ks
                } else {
                    ks.push(k)
                },
            ),
            _ => None,
        }
    }
}

/// The distinct keys that object literal `o` declares.
pub open spec fn object_keys(tree: SyntaxTree, o: int) -> Option<Seq<Seq<u8>>> {
    keys_of(tree, tree.children_of(o))
}

/// `m` is a member `path: '<literal>'`.
pub open spec fn is_path_member(tree: SyntaxTree, m: int) -> bool {
    let cs = tree.children_of(m);
    &&& tree.kind_of(m) == NodeKind::KeyValueProp
    &&& cs.len() >= 2
    &&& tree.kind_of(cs[0] as int) == NodeKind::Ident
    &&& tree.text_of(cs[0] as int) == bytes_of(PATH_KEY@)
    &&& tree.kind_of(cs[1] as int) == NodeKind::Str
}

/// The path segment that the last `path` member of `ms` declares.
pub open spec fn declared_in(tree: SyntaxTree, ms: Seq<usize>) -> Option<Seq<u8>>
    decreases ms.len(),
{
    if ms.len() == 0 {
        None
    } else if is_path_member(tree, ms.last() as int) {
        Some(unquote(tree.text_of(tree.children_of(ms.last() as int)[1] as int)))
    } else {
        declared_in(tree, ms.drop_last())
    }
}

/// The path segment that node `o` declares, if it is an object literal
/// with a `path` member whose value is a string literal.
pub open spec fn declared_path(tree: SyntaxTree, o: int) -> Option<Seq<u8>> {
    if tree.kind_of(o) == NodeKind::ObjectLit {
        declared_in(tree, tree.children_of(o))
    } else {
        None
    }
}

/// The effective path of the innermost route that encloses node `n`: the
/// segments of the enclosing path-declaring object literals, resolved from
/// the outermost one down, starting at the root.
pub open spec fn route_context(tree: SyntaxTree, n: int) -> Seq<u8>
    decreases n,
{
    if tree.has_node(n) && tree.parent_of(n) is Some && tree.parent_of(n)->0 < n {
        let p = tree.parent_of(n)->0 as int;
        let base = route_context(tree, p);
        match declared_path(tree, p) {
            Some(d) => resolve(base, d),
            None => base,
        }
    } else {
        root_path()
    }
}

/// The segment that array element `e` declares as a route entry: `e` must
/// be an object literal with a literal `path`; a `./` entry declares none.
pub open spec fn entry_segment(tree: SyntaxTree, e: int) -> Option<Seq<u8>> {
    let cs = tree.children_of(e);
    if tree.kind_of(e) == NodeKind::ExprOrSpread && cs.len() >= 1 {
        match declared_path(tree, cs[0] as int) {
            Some(d) => if d == self_segment() {
                None
            } else {
                Some(d)
            },
            None => None,
        }
    } else {
        None
    }
}

/// The effective paths of the route entries among `es`, below `base`.
pub open spec fn entry_paths(tree: SyntaxTree, base: Seq<u8>, es: Seq<usize>) -> Seq<Seq<u8>>
    decreases es.len(),
{
    if es.len() == 0 {
        Seq::empty()
    } else {
        let rest = entry_paths(tree, base, es.drop_last());
        match entry_segment(tree, es.last() as int) {
            Some(d) => rest.push(resolve(base, d)),
            None => rest,
        }
    }
}

/// The effective paths of the route entries of array literal `a`.
pub open spec fn array_paths(tree: SyntaxTree, a: int) -> Seq<Seq<u8>> {
    entry_paths(tree, route_context(tree, a), tree.children_of(a))
}

pub proof fn lemma_keys_no_duplicates(tree: SyntaxTree, ms: Seq<usize>)
    requires
        keys_of(tree, ms) is Some,
    ensures
        keys_of(tree, ms)->0.no_duplicates(),
    decreases ms.len(),
{
    if ms.len() > 0 {
        lemma_keys_no_duplicates(tree, ms.drop_last());
    }
}

/// Whether `list` holds `p`.
pub fn contains_bytes(list: &Vec<Vec<u8>>, p: &Vec<u8>) -> (r: bool)
    ensures
        r == views(list@).contains(p@),
{
    let mut i: usize = 0;
    while i < list.len()
        invariant
            i <= list@.len(),
            forall|k: int| 0 <= k < i ==> list@[k]@ != p@,
        decreases list.len() - i,
    {
        if bytes_equal(&list[i], p) {
            proof {
                assert(views(list@)[i as int] == p@);
            }
            return true;
        }
        i = i + 1;
    }
    proof {
        if views(list@).contains(p@) {
            let k = choose|k: int| 0 <= k < views(list@).len() && views(list@)[k] == p@;
            assert(list@[k]@ == p@);
        }
    }
    false
}

/// The key of member `m`, if it has one.
pub fn member_key_of(tree: &SyntaxTree, m: usize) -> (r: Option<Vec<u8>>)
    requires
        tree.wf(),
        tree.has_node(m as int),
    ensures
        match r {
            Some(k) => member_key(*tree, m as int) == Some(k@),
            None => member_key(*tree, m as int) is None,
        },
{
    if tree.kind(m) == NodeKind::Ident {
        return Some(tree.text(m));
    }
    let cs = tree.children(m);
    if cs.len() > 0 {
        Some(tree.text(cs[0]))
    } else {
        None
    }
}

/// The distinct keys of object literal `o`, if every member has a key.
pub fn object_keys_of(tree: &SyntaxTree, o: usize) -> (r: Option<Vec<Vec<u8>>>)
    requires
        tree.wf(),
        tree.has_node(o as int),
    ensures
        match r {
            Some(ks) => object_keys(*tree, o as int) == Some(views(ks@)),
            None => object_keys(*tree, o as int) is None,
        },
{
    let ms = tree.children(o);
    let mut keys: Vec<Vec<u8>> = Vec::new();
    let mut i: usize = 0;
    assert(ms@.subrange(0, 0) =~= Seq::<usize>::empty());
    assert(views(keys@) =~= Seq::<Seq<u8>>::empty());
    while i < ms.len()
        invariant
            tree.wf(),
            ms@ == tree.children_of(o as int),
            forall|k: int| 0 <= k < ms@.len() ==> tree.has_node(#[trigger] ms@[k] as int),
            i <= ms@.len(),
            keys_of(*tree, ms@.subrange(0, i as int)) == Some(views(keys@)),
        decreases ms.len() - i,
    {
        proof {
            assert(ms@.subrange(0, i + 1).drop_last() =~= ms@.subrange(0, i as int));
        }
        match member_key_of(tree, ms[i]) {
            Some(k) => {
                if !contains_bytes(&keys, &k) {
                    let ghost before = keys@;
                    keys.push(k);
                    assert(views(keys@) =~= views(before).push(k@));
                }
            },
            None => {
                proof {
                    lemma_keys_none_extends(*tree, ms@, i as int + 1);
                }
                return None;
            },
        }
        i = i + 1;
    }
    assert(ms@.subrange(0, ms@.len() as int) =~= ms@);
    Some(keys)
}

/// Once a prefix of the members has no keys, no longer prefix has.
proof fn lemma_keys_none_extends(tree: SyntaxTree, ms: Seq<usize>, i: int)
    requires
        0 <= i <= ms.len(),
        keys_of(tree, ms.subrange(0, i)) is None,
    ensures
        keys_of(tree, ms) is None,
    decreases ms.len() - i,
{
    if i < ms.len() {
        assert(ms.subrange(0, i + 1).drop_last() =~= ms.subrange(0, i));
        lemma_keys_none_extends(tree, ms, i + 1);
    } else {
        assert(ms.subrange(0, i) =~= ms);
    }
}

/// Whether member `m` is `path: '<literal>'`.
fn is_path_member_at(tree: &SyntaxTree, m: usize) -> (r: bool)
    requires
        tree.wf(),
        tree.has_node(m as int),
    ensures
        r == is_path_member(*tree, m as int),
{
    if tree.kind(m) != NodeKind::KeyValueProp {
        return false;
    }
    let cs = tree.children(m);
    if cs.len() < 2 {
        return false;
    }
    let key = cs[0];
    let value = cs[1];
    tree.kind(key) == NodeKind::Ident && tree.text_is(key, PATH_KEY.as_bytes()) && tree.kind(value)
        == NodeKind::Str
}

/// The segment that node `o` declares, if it is an object literal with a
/// literal `path` member.
pub fn declared_path_of(tree: &SyntaxTree, o: usize) -> (r: Option<Vec<u8>>)
    requires
        tree.wf(),
        tree.has_node(o as int),
    ensures
        match r {
            Some(d) => declared_path(*tree, o as int) == Some(d@),
            None => declared_path(*tree, o as int) is None,
        },
{
    if tree.kind(o) != NodeKind::ObjectLit {
        return None;
    }
    let ms = tree.children(o);
    let mut found: Option<Vec<u8>> = None;
    let mut i: usize = 0;
    assert(ms@.subrange(0, 0) =~= Seq::<usize>::empty());
    while i < ms.len()
        invariant
            tree.wf(),
            ms@ == tree.children_of(o as int),
            forall|k: int| 0 <= k < ms@.len() ==> tree.has_node(#[trigger] ms@[k] as int),
            i <= ms@.len(),
            match found {
                Some(d) => declared_in(*tree, ms@.subrange(0, i as int)) == Some(d@),
                None => declared_in(*tree, ms@.subrange(0, i as int)) is None,
            },
        decreases ms.len() - i,
    {
        let m = ms[i];
        proof {
            let next = ms@.subrange(0, i + 1);
            assert(next.drop_last() =~= ms@.subrange(0, i as int));
            assert(next.last() == m);
        }
        if is_path_member_at(tree, m) {
            let value = tree.children(m)[1];
            found = Some(unquote_literal(&tree.text(value)));
        }
        i = i + 1;
    }
    assert(ms@.subrange(0, ms@.len() as int) =~= ms@);
    found
}

/// Applies segments in order, from the first to the last.
pub open spec fn apply_segments(base: Seq<u8>, segs: Seq<Seq<u8>>) -> Seq<u8>
    decreases segs.len(),
{
    if segs.len() == 0 {
        base
    } else {
        apply_segments(resolve(base, segs[0]), segs.drop_first())
    }
}

/// The effective path of the innermost route that encloses node `n`.
pub fn route_context_of(tree: &SyntaxTree, n: usize) -> (r: Vec<u8>)
    requires
        tree.wf(),
        tree.has_node(n as int),
    ensures
        r@ == route_context(*tree, n as int),
{
    // Walk up to the root, collecting declared segments, outermost first.
    let mut segs: Vec<Vec<u8>> = Vec::new();
    let mut cur: usize = n;
    assert(views(segs@) =~= Seq::<Seq<u8>>::empty());
    loop
        invariant
            tree.wf(),
            tree.has_node(cur as int),
            route_context(*tree, n as int) == apply_segments(
                route_context(*tree, cur as int),
                views(segs@),
            ),
        ensures
            route_context(*tree, n as int) == apply_segments(root_path(), views(segs@)),
        decreases cur,
    {
        proof {
            tree.lemma_node(cur as int);
        }
        match tree.parent(cur) {
            Some(p) => {
                proof {
                    tree.lemma_node(p as int);
                }
                match declared_path_of(tree, p) {
                    Some(d) => {
                        let ghost before = views(segs@);
                        segs.insert(0, d);
                        proof {
                            assert(views(segs@) =~= seq![d@] + before);
                            assert(views(segs@).drop_first() =~= before);
                        }
                    },
                    None => {},
                }
                cur = p;
            },
            None => {
                break;
            },
        }
    }
    // Resolve them from the root down.
    let mut path: Vec<u8> = Vec::new();
    path.push(crate::path::SLASH);
    assert(path@ =~= root_path());
    let mut i: usize = 0;
    assert(views(segs@).skip(0) =~= views(segs@));
    while i < segs.len()
        invariant
            i <= segs@.len(),
            route_context(*tree, n as int) == apply_segments(path@, views(segs@).skip(i as int)),
        decreases segs.len() - i,
    {
        proof {
            assert(views(segs@).skip(i as int).drop_first() =~= views(segs@).skip(i + 1));
            assert(views(segs@).skip(i as int)[0] == segs@[i as int]@);
        }
        path = resolve_path(&path, &segs[i]);
        i = i + 1;
    }
    path
}

/// The segment that array element `e` declares as a route entry.
fn entry_segment_of(tree: &SyntaxTree, e: usize) -> (r: Option<Vec<u8>>)
    requires
        tree.wf(),
        tree.has_node(e as int),
    ensures
        match r {
            Some(d) => entry_segment(*tree, e as int) == Some(d@),
            None => entry_segment(*tree, e as int) is None,
        },
{
    if tree.kind(e) != NodeKind::ExprOrSpread {
        return None;
    }
    let cs = tree.children(e);
    if cs.len() < 1 {
        return None;
    }
    match declared_path_of(tree, cs[0]) {
        Some(d) => {
            if bytes_equal(&d, &self_segment_bytes()) {
                None
            } else {
                Some(d)
            }
        },
        None => None,
    }
}

fn self_segment_bytes() -> (r: Vec<u8>)
    ensures
        r@ == self_segment(),
{
    let mut r: Vec<u8> = Vec::new();
    r.push(crate::path::DOT);
    r.push(crate::path::SLASH);
    assert(r@ =~= self_segment());
    r
}

/// The effective paths of the route entries of array literal `a`, in order.
pub fn array_paths_of(tree: &SyntaxTree, a: usize) -> (r: Vec<Vec<u8>>)
    requires
        tree.wf(),
        tree.has_node(a as int),
    ensures
        views(r@) == array_paths(*tree, a as int),
{
    let base = route_context_of(tree, a);
    let es = tree.children(a);
    let mut paths: Vec<Vec<u8>> = Vec::new();
    let mut i: usize = 0;
    assert(es@.subrange(0, 0) =~= Seq::<usize>::empty());
    assert(views(paths@) =~= Seq::<Seq<u8>>::empty());
    while i < es.len()
        invariant
            tree.wf(),
            es@ == tree.children_of(a as int),
            forall|k: int| 0 <= k < es@.len() ==> tree.has_node(#[trigger] es@[k] as int),
            i <= es@.len(),
            views(paths@) == entry_paths(*tree, base@, es@.subrange(0, i as int)),
        decreases es.len() - i,
    {
        let e = es[i];
        proof {
            let next = es@.subrange(0, i + 1);
            assert(next.drop_last() =~= es@.subrange(0, i as int));
            assert(next.last() == e);
        }
        match entry_segment_of(tree, e) {
            Some(d) => {
                let ghost before = views(paths@);
                paths.push(resolve_path(&base, &d));
                assert(views(paths@) =~= before.push(resolve(base@, d@)));
            },
            None => {},
        }
        i = i + 1;
    }
    assert(es@.subrange(0, es@.len() as int) =~= es@);
    paths
}

} // verus!
