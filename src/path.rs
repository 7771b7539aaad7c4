//! Route paths: how a declared path segment resolves against the path of the
//! route it is nested in, and the normal form under which paths are compared.
use vstd::prelude::*;

verus! {

/// `/`
pub const SLASH: u8 = 0x2f;

/// `.`
pub const DOT: u8 = 0x2e;

/// The path at the top of a configuration.
pub open spec fn root_path() -> Seq<u8> {
    seq![SLASH]
}

/// The declared segment that names the enclosing route itself.
pub open spec fn self_segment() -> Seq<u8> {
    seq![DOT, SLASH]
}

/// Collapses each run of `/` into a single `/`.
pub open spec fn collapse_slashes(p: Seq<u8>) -> Seq<u8>
    decreases p.len(),
{
    if p.len() == 0 {
        p
    } else {
        let prev = collapse_slashes(p.drop_last());
        if p.last() == SLASH && prev.len() > 0 && prev.last() == SLASH {
            prev
        } else {
            prev.push(p.last())
        }
    }
}

/// The normal form of a path: runs of `/` collapsed, and no trailing `/`
/// unless the path is the root.
pub open spec fn normalize(p: Seq<u8>) -> Seq<u8> {
    let c = collapse_slashes(p);
    if c.len() > 1 && c.last() == SLASH {
        c.drop_last()
    } else {
        c
    }
}

/// A declared segment below a parent path, before normalisation: an
/// absolute segment stands alone; a segment that starts with `.` has that
/// `.` replaced by `/` and is appended; any other segment is appended after
/// a `/`.
pub open spec fn joined(parent: Seq<u8>, seg: Seq<u8>) -> Seq<u8> {
    if seg.len() > 0 && seg[0] == SLASH {
        seg
    } else if seg.len() > 0 && seg[0] == DOT {
        parent + seq![SLASH] + seg.skip(1)
    } else {
        parent + seq![SLASH] + seg
    }
}

/// The effective path of a route that declares `seg` below a route whose
/// effective path is `parent`.
pub open spec fn resolve(parent: Seq<u8>, seg: Seq<u8>) -> Seq<u8> {
    normalize(joined(parent, seg))
}

/// The text of a string literal without its quotes.
pub open spec fn unquote(text: Seq<u8>) -> Seq<u8> {
    if text.len() >= 2 {
        text.subrange(1, text.len() - 1)
    } else {
        Seq::empty()
    }
}

/// No two `/` in a row.
pub open spec fn no_double_slash(p: Seq<u8>) -> bool {
    forall|i: int| 0 <= i < p.len() - 1 ==> !(#[trigger] p[i] == SLASH && p[i + 1] == SLASH)
}

/// A path in normal form that starts at the root.
pub open spec fn is_normal_path(p: Seq<u8>) -> bool {
    &&& p.len() >= 1
    &&& p[0] == SLASH
    &&& no_double_slash(p)
    &&& (p.len() > 1 ==> p.last() != SLASH)
}

/// A plain segment: not empty, no `/` in it, not starting with `.`.
pub open spec fn is_bare_segment(s: Seq<u8>) -> bool {
    &&& s.len() > 0
    &&& s[0] != DOT
    &&& forall|i: int| 0 <= i < s.len() ==> #[trigger] s[i] != SLASH
}

fn copy_into(out: &mut Vec<u8>, src: &Vec<u8>, from: usize)
    requires
        from <= src@.len(),
    ensures
        final(out)@ == old(out)@ + src@.skip(from as int),
{
    let mut i: usize = from;
    while i < src.len()
        invariant
            from <= i <= src@.len(),
            out@ == old(out)@ + src@.subrange(from as int, i as int),
        decreases src.len() - i,
    {
        out.push(src[i]);
        i = i + 1;
        assert(out@ =~= old(out)@ + src@.subrange(from as int, i as int));
    }
    assert(src@.subrange(from as int, i as int) =~= src@.skip(from as int));
}

/// A copy of `v`.
pub fn copy_bytes(v: &Vec<u8>) -> (r: Vec<u8>)
    ensures
        r@ == v@,
{
    let mut r: Vec<u8> = Vec::new();
    copy_into(&mut r, v, 0);
    assert(v@.skip(0) =~= v@);
    r
}

/// The UTF-8 bytes of `s`.
pub fn bytes_of_str(s: &str) -> (r: Vec<u8>)
    ensures
        r@ == crate::syntax::bytes_of(s@),
{
    let b = s.as_bytes();
    let mut r: Vec<u8> = Vec::new();
    let mut i: usize = 0;
    while i < b.len()
        invariant
            i <= b@.len(),
            r@ == b@.subrange(0, i as int),
        decreases b.len() - i,
    {
        r.push(b[i]);
        i = i + 1;
        assert(r@ =~= b@.subrange(0, i as int));
    }
    assert(r@ =~= b@);
    r
}

/// The normal form of `p`.
pub fn normalize_path(p: &Vec<u8>) -> (r: Vec<u8>)
    ensures
        r@ == normalize(p@),
{
    let mut out: Vec<u8> = Vec::new();
    let mut i: usize = 0;
    assert(p@.subrange(0, 0) =~= Seq::<u8>::empty());
    while i < p.len()
        invariant
            i <= p@.len(),
            out@ == collapse_slashes(p@.subrange(0, i as int)),
        decreases p.len() - i,
    {
        let c = p[i];
        let n = out.len();
        proof {
            assert(p@.subrange(0, i + 1).drop_last() =~= p@.subrange(0, i as int));
        }
        if !(c == SLASH && n > 0 && out[n - 1] == SLASH) {
            out.push(c);
        }
        i = i + 1;
    }
    assert(p@.subrange(0, p@.len() as int) =~= p@);
    let n = out.len();
    if n > 1 && out[n - 1] == SLASH {
        out.pop();
    }
    out
}

/// The effective path of a route declaring `seg` below the route at `parent`.
pub fn resolve_path(parent: &Vec<u8>, seg: &Vec<u8>) -> (r: Vec<u8>)
    ensures
        r@ == resolve(parent@, seg@),
{
    let mut full: Vec<u8> = Vec::new();
    if seg.len() > 0 && seg[0] == SLASH {
        copy_into(&mut full, seg, 0);
        assert(seg@.skip(0) =~= seg@);
    } else {
        copy_into(&mut full, parent, 0);
        full.push(SLASH);
        if seg.len() > 0 && seg[0] == DOT {
            copy_into(&mut full, seg, 1);
        } else {
            copy_into(&mut full, seg, 0);
        }
        assert(parent@.skip(0) =~= parent@);
        assert(seg@.skip(0) =~= seg@);
    }
    assert(full@ =~= joined(parent@, seg@));
    normalize_path(&full)
}

/// The text of a string literal without its quotes.
pub fn unquote_literal(text: &Vec<u8>) -> (r: Vec<u8>)
    ensures
        r@ == unquote(text@),
{
    let mut out: Vec<u8> = Vec::new();
    let n = text.len();
    if n >= 2 {
        let mut i: usize = 1;
        while i < n - 1
            invariant
                n == text@.len(),
                n >= 2,
                1 <= i <= n - 1,
                out@ == text@.subrange(1, i as int),
            decreases n - 1 - i,
        {
            out.push(text[i]);
            i = i + 1;
            assert(out@ =~= text@.subrange(1, i as int));
        }
    } else {
        assert(out@ =~= unquote(text@));
    }
    out
}

/// Whether two byte strings are equal.
pub fn bytes_equal(a: &Vec<u8>, b: &Vec<u8>) -> (r: bool)
    ensures
        r == (a@ == b@),
{
    if a.len() != b.len() {
        return false;
    }
    let mut i: usize = 0;
    while i < a.len()
        invariant
            a@.len() == b@.len(),
            i <= a@.len(),
            forall|k: int| 0 <= k < i ==> a@[k] == b@[k],
        decreases a.len() - i,
    {
        if a[i] != b[i] {
            return false;
        }
        i = i + 1;
    }
    assert(a@ =~= b@);
    true
}

/// Collapsing leaves a path without double slashes unchanged.
proof fn lemma_collapse_clean(p: Seq<u8>)
    requires
        no_double_slash(p),
    ensures
        collapse_slashes(p) == p,
    decreases p.len(),
{
    if p.len() > 0 {
        let q = p.drop_last();
        assert(no_double_slash(q)) by {
            assert forall|i: int| 0 <= i < q.len() - 1 implies !(#[trigger] q[i] == SLASH && q[i
                + 1] == SLASH) by {
                assert(q[i] == p[i] && q[i + 1] == p[i + 1]);
            }
        }
        lemma_collapse_clean(q);
        if p.len() >= 2 {
            assert(!(p[p.len() - 2] == SLASH && p[p.len() - 1] == SLASH));
        }
        assert(q.push(p.last()) =~= p);
    }
}

/// Appending bytes other than `/` appends them to the collapsed path.
proof fn lemma_collapse_append(q: Seq<u8>, s: Seq<u8>)
    requires
        forall|i: int| 0 <= i < s.len() ==> #[trigger] s[i] != SLASH,
    ensures
        collapse_slashes(q + s) == collapse_slashes(q) + s,
    decreases s.len(),
{
    if s.len() == 0 {
        assert(q + s =~= q);
        assert(collapse_slashes(q) + s =~= collapse_slashes(q));
    } else {
        let t = s.drop_last();
        assert((q + s).drop_last() =~= q + t);
        lemma_collapse_append(q, t);
        assert((q + s).last() == s.last());
        assert(collapse_slashes(q) + s =~= (collapse_slashes(q) + t).push(s.last()));
    }
}

/// Collapsing a normal path followed by one `/`.
proof fn lemma_collapse_slash(p: Seq<u8>)
    requires
        is_normal_path(p),
    ensures
        collapse_slashes(p.push(SLASH)) == (if p.len() == 1 {
            p
        } else {
            p.push(SLASH)
        }),
{
    lemma_collapse_clean(p);
    assert(p.push(SLASH).drop_last() =~= p);
}

/// A plain segment below a normal path is appended after one `/`.
pub proof fn lemma_resolve_bare(p: Seq<u8>, s: Seq<u8>)
    requires
        is_normal_path(p),
        is_bare_segment(s),
    ensures
        resolve(p, s) == (if p == root_path() {
            p + s
        } else {
            p + seq![SLASH] + s
        }),
{
    let j = p + seq![SLASH] + s;
    assert(j == joined(p, s));
    assert(p + seq![SLASH] =~= p.push(SLASH));
    lemma_collapse_append(p.push(SLASH), s);
    lemma_collapse_slash(p);
    let c = collapse_slashes(j);
    if p.len() == 1 {
        assert(p =~= root_path());
        assert(c == p + s);
        assert(c.last() == s.last());
    } else {
        assert(p != root_path());
        assert(c == p.push(SLASH) + s);
        assert(c.last() == s.last());
        assert(p.push(SLASH) + s =~= p + seq![SLASH] + s);
    }
}

/// A route that declares `./` has the effective path of its parent.
pub proof fn lemma_resolve_self(p: Seq<u8>)
    requires
        is_normal_path(p),
    ensures
        resolve(p, self_segment()) == p,
{
    let j = joined(p, self_segment());
    assert(self_segment().skip(1) =~= seq![SLASH]);
    assert(j =~= p.push(SLASH).push(SLASH));
    lemma_collapse_slash(p);
    assert(j.drop_last() =~= p.push(SLASH));
    let c = collapse_slashes(j);
    if p.len() == 1 {
        assert(c == p);
    } else {
        assert(c == p.push(SLASH));
        assert(c.drop_last() =~= p);
    }
}

} // verus!
