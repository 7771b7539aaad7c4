//! An arena syntax tree: nodes are numbered in pre-order, each knows its
//! parent, its children in source order and its byte span in the source text.
use vstd::prelude::*;
use vstd::utf8::encode_utf8;

verus! {

/// The largest source length, in bytes, that positions can address.
pub const MAX_SOURCE_LEN: usize = 4294967295;

/// The byte order mark, which the parser strips before it sees the text.
pub const BYTE_ORDER_MARK: char = '\u{feff}';

/// The shape of a syntax node, as far as route configurations are concerned.
#[derive(Clone, Copy, Debug, PartialEq, Eq, Structural)]
pub enum NodeKind {
    Module,
    Script,
    ExportDefaultExpr,
    ArrayLit,
    ExprOrSpread,
    ObjectLit,
    KeyValueProp,
    Ident,
    Str,
    Other,
}

/// A byte interval `[lo, hi)` of the source text.
#[derive(Clone, Copy, Debug, PartialEq, Eq, Structural)]
pub struct Span {
    pub lo: usize,
    pub hi: usize,
}

/// Why a node could not be added to a tree.
#[derive(Clone, Copy, Debug, PartialEq, Eq, Structural)]
pub enum TreeError {
    /// The source text is longer than positions can address.
    SourceTooLong,
    /// The source text still starts with a byte order mark.
    ByteOrderMark,
    /// The span is reversed or reaches past the end of the text.
    SpanOutOfSource,
    /// The named parent is not a node of the tree.
    UnknownParent,
    /// The parent is neither the last node added nor one of its ancestors,
    /// so the node would break the pre-order numbering.
    NotInPreOrder,
    /// The span is not inside the parent's span.
    SpanOutsideParent,
    /// The span starts before the end of the parent's previous child.
    SpanBeforeSibling,
}

/// UTF-8 bytes of a text.
pub open spec fn bytes_of(text: Seq<char>) -> Seq<u8> {
    encode_utf8(text)
}

/// `a` is `n` or one of its ancestors, following the parent links.
pub open spec fn is_ancestor_or_self(parents: Seq<Option<usize>>, a: int, n: int) -> bool
    decreases n,
{
    if n == a {
        true
    } else if 0 <= n < parents.len() {
        match parents[n] {
            Some(p) => p < n && is_ancestor_or_self(parents, a, p as int),
            None => false,
        }
    } else {
        false
    }
}

pub struct SyntaxTree {
    source: String,
    kinds: Vec<NodeKind>,
    spans: Vec<Span>,
    parents: Vec<Option<usize>>,
    children: Vec<Vec<usize>>,
}

impl SyntaxTree {
    pub closed spec fn source_text(self) -> Seq<char> {
        self.source@
    }

    pub open spec fn bytes(self) -> Seq<u8> {
        bytes_of(self.source_text())
    }

    pub closed spec fn node_count(self) -> int {
        self.kinds@.len() as int
    }

    pub closed spec fn kind_of(self, n: int) -> NodeKind {
        self.kinds@[n]
    }

    pub closed spec fn span_of(self, n: int) -> Span {
        self.spans@[n]
    }

    pub closed spec fn parent_links(self) -> Seq<Option<usize>> {
        self.parents@
    }

    pub open spec fn parent_of(self, n: int) -> Option<usize> {
        self.parent_links()[n]
    }

    pub closed spec fn children_of(self, n: int) -> Seq<usize> {
        self.children@[n]@
    }

    /// The source bytes that node `n` covers.
    pub open spec fn text_of(self, n: int) -> Seq<u8> {
        self.bytes().subrange(self.span_of(n).lo as int, self.span_of(n).hi as int)
    }

    pub open spec fn has_node(self, n: int) -> bool {
        0 <= n < self.node_count()
    }

    pub open spec fn source_ok(text: Seq<char>) -> bool {
        &&& bytes_of(text).len() < MAX_SOURCE_LEN
        &&& (text.len() > 0 ==> text[0] != BYTE_ORDER_MARK)
    }

    pub open spec fn span_ok(self, n: int) -> bool {
        self.span_of(n).lo <= self.span_of(n).hi <= self.bytes().len()
    }

    /// Node 0 is the root; every other node hangs below an earlier node
    /// that is the previous node or one of its ancestors (pre-order).
    pub open spec fn links_ok(self, n: int) -> bool {
        if n == 0 {
            self.parent_of(0) is None
        } else {
            match self.parent_of(n) {
                Some(p) => p < n && is_ancestor_or_self(self.parent_links(), p as int, n - 1),
                None => false,
            }
        }
    }

    /// The children of `n` are, in increasing order, exactly the nodes whose
    /// parent is `n`; their spans lie inside `n`'s span, one after another.
    pub open spec fn children_ok(self, n: int) -> bool {
        let cs = self.children_of(n);
        &&& forall|k: int|
            0 <= k < cs.len() ==> {
                &&& self.has_node(#[trigger] cs[k] as int)
                &&& self.parent_of(cs[k] as int) == Some(n as usize)
                &&& self.span_of(n).lo <= self.span_of(cs[k] as int).lo
                &&& self.span_of(cs[k] as int).hi <= self.span_of(n).hi
            }
        &&& forall|k: int|
            0 <= k < cs.len() - 1 ==> {
                &&& #[trigger] cs[k] < cs[k + 1]
                &&& self.span_of(cs[k] as int).hi <= self.span_of(cs[k + 1] as int).lo
            }
        &&& forall|c: int|
            self.has_node(c) && #[trigger] self.parent_of(c) == Some(n as usize) ==> cs.contains(
                c as usize,
            )
    }

    pub closed spec fn wf(self) -> bool {
        &&& self.node_count() >= 1
        &&& self.spans@.len() == self.node_count()
        &&& self.parent_links().len() == self.node_count()
        &&& self.children@.len() == self.node_count()
        &&& Self::source_ok(self.source_text())
        &&& forall|n: int| self.has_node(n) ==> #[trigger] self.span_ok(n)
        &&& forall|n: int| self.has_node(n) ==> #[trigger] self.links_ok(n)
        &&& forall|n: int| self.has_node(n) ==> #[trigger] self.children_ok(n)
    }

    /// What well-formedness gives about the whole tree.
    pub proof fn lemma_tree(self)
        requires
            self.wf(),
        ensures
            Self::source_ok(self.source_text()),
            self.node_count() >= 1,
    {
    }

    /// What well-formedness gives about one node: its span lies in the text;
    /// its parent comes before it and is the node before it or one of that
    /// node's ancestors, so numbering follows pre-order; its children are the
    /// nodes below it, in source order.
    pub proof fn lemma_node(self, n: int)
        requires
            self.wf(),
            self.has_node(n),
        ensures
            Self::source_ok(self.source_text()),
            self.span_ok(n),
            n == 0 <==> self.parent_of(n) is None,
            self.parent_of(n) is Some ==> self.parent_of(n)->0 < n,
            forall|k: int|
                0 <= k < self.children_of(n).len() ==> self.has_node(
                    #[trigger] self.children_of(n)[k] as int,
                ),
            n > 0 ==> is_ancestor_or_self(self.parent_links(), self.parent_of(n)->0 as int, n - 1),
            self.children_ok(n),
    {
        assert(self.span_ok(n));
        assert(self.links_ok(n));
        assert(self.children_ok(n));
    }

    /// The error that `add_node` reports for these arguments, if any.
    pub open spec fn add_node_error(self, parent: usize, lo: usize, hi: usize) -> Option<
        TreeError,
    > {
        let cs = self.children_of(parent as int);
        if parent >= self.node_count() {
            Some(TreeError::UnknownParent)
        } else if !is_ancestor_or_self(self.parent_links(), parent as int, self.node_count() - 1) {
            Some(TreeError::NotInPreOrder)
        } else if !(self.span_of(parent as int).lo <= lo && lo <= hi && hi <= self.span_of(
            parent as int,
        ).hi) {
            Some(TreeError::SpanOutsideParent)
        } else if cs.len() > 0 && self.span_of(cs.last() as int).hi > lo {
            Some(TreeError::SpanBeforeSibling)
        } else {
            None
        }
    }

    /// A tree of one root node spanning `[lo, hi)` of `source`.
    pub fn new(source: String, kind: NodeKind, lo: usize, hi: usize) -> (r: Result<
        SyntaxTree,
        TreeError,
    >)
        ensures
            match r {
                Ok(t) => {
                    &&& Self::source_ok(source@)
                    &&& lo <= hi <= bytes_of(source@).len()
                    &&& t.wf()
                    &&& t.source_text() == source@
                    &&& t.node_count() == 1
                    &&& t.kind_of(0) == kind
                    &&& t.span_of(0) == (Span { lo, hi })
                    &&& t.children_of(0).len() == 0
                },
                Err(e) => {
                    &&& e == TreeError::SourceTooLong <==> bytes_of(source@).len() >= MAX_SOURCE_LEN
                    &&& e == TreeError::ByteOrderMark <==> (bytes_of(source@).len()
                        < MAX_SOURCE_LEN && source@.len() > 0 && source@[0] == BYTE_ORDER_MARK)
                    &&& e == TreeError::SpanOutOfSource <==> (Self::source_ok(source@) && !(lo
                        <= hi <= bytes_of(source@).len()))
                },
            },
    {
        let len = source.as_str().as_bytes().len();
        if len >= MAX_SOURCE_LEN {
            return Err(TreeError::SourceTooLong);
        }
        if starts_with_bom(source.as_str()) {
            return Err(TreeError::ByteOrderMark);
        }
        if !(lo <= hi && hi <= len) {
            return Err(TreeError::SpanOutOfSource);
        }
        let mut kinds: Vec<NodeKind> = Vec::new();
        kinds.push(kind);
        let mut spans: Vec<Span> = Vec::new();
        spans.push(Span { lo, hi });
        let mut parents: Vec<Option<usize>> = Vec::new();
        parents.push(None);
        let mut children: Vec<Vec<usize>> = Vec::new();
        children.push(Vec::new());
        let t = SyntaxTree { source, kinds, spans, parents, children };
        assert(t.children_ok(0)) by {
            assert(t.children_of(0).len() == 0);
            assert forall|c: int| t.has_node(c) && #[trigger] t.parent_of(c) == Some(0usize)
                implies t.children_of(0).contains(c as usize) by {
                assert(c == 0);
            }
        }
        assert(t.links_ok(0));
        assert(t.span_ok(0));
        Ok(t)
    }

    pub fn len(&self) -> (r: usize)
        ensures
            r == self.node_count(),
    {
        self.kinds.len()
    }

    pub fn kind(&self, n: usize) -> (r: NodeKind)
        requires
            self.wf(),
            self.has_node(n as int),
        ensures
            r == self.kind_of(n as int),
    {
        self.kinds[n]
    }

    pub fn span(&self, n: usize) -> (r: Span)
        requires
            self.wf(),
            self.has_node(n as int),
        ensures
            r == self.span_of(n as int),
    {
        self.spans[n]
    }

    pub fn parent(&self, n: usize) -> (r: Option<usize>)
        requires
            self.wf(),
            self.has_node(n as int),
        ensures
            r == self.parent_of(n as int),
            r is Some ==> r->0 < n,
            n > 0 <==> r is Some,
    {
        proof {
            assert(self.links_ok(n as int));
        }
        self.parents[n]
    }

    pub fn children(&self, n: usize) -> (r: &Vec<usize>)
        requires
            self.wf(),
            self.has_node(n as int),
        ensures
            r@ == self.children_of(n as int),
            forall|k: int| 0 <= k < r@.len() ==> self.has_node(#[trigger] r@[k] as int),
    {
        proof {
            assert(self.children_ok(n as int));
        }
        &self.children[n]
    }

    pub fn source(&self) -> (r: &str)
        ensures
            r@ == self.source_text(),
    {
        self.source.as_str()
    }

    /// The source bytes that node `n` covers, copied.
    pub fn text(&self, n: usize) -> (r: Vec<u8>)
        requires
            self.wf(),
            self.has_node(n as int),
        ensures
            r@ == self.text_of(n as int),
    {
        proof {
            assert(self.span_ok(n as int));
        }
        let b = self.source.as_str().as_bytes();
        let sp = self.spans[n];
        let mut out: Vec<u8> = Vec::new();
        let mut i: usize = sp.lo;
        while i < sp.hi
            invariant
                sp == self.span_of(n as int),
                sp.lo <= i <= sp.hi <= b@.len(),
                b@ == self.bytes(),
                out@ == b@.subrange(sp.lo as int, i as int),
            decreases sp.hi - i,
        {
            out.push(b[i]);
            i = i + 1;
            assert(out@ =~= b@.subrange(sp.lo as int, i as int));
        }
        out
    }

    /// Whether node `n` covers exactly the bytes of `word`.
    pub fn text_is(&self, n: usize, word: &[u8]) -> (r: bool)
        requires
            self.wf(),
            self.has_node(n as int),
        ensures
            r == (self.text_of(n as int) == word@),
    {
        proof {
            assert(self.span_ok(n as int));
        }
        let b = self.source.as_str().as_bytes();
        let sp = self.spans[n];
        if sp.hi - sp.lo != word.len() {
            proof {
                assert(self.text_of(n as int).len() != word@.len());
            }
            return false;
        }
        let mut i: usize = 0;
        while i < word.len()
            invariant
                sp == self.span_of(n as int),
                sp.lo <= sp.hi <= b@.len(),
                sp.hi - sp.lo == word@.len(),
                b@ == self.bytes(),
                i <= word@.len(),
                forall|k: int| 0 <= k < i ==> b@[sp.lo + k] == word@[k],
            decreases word.len() - i,
        {
            if b[sp.lo + i] != word[i] {
                proof {
                    assert(self.text_of(n as int)[i as int] != word@[i as int]);
                }
                return false;
            }
            i = i + 1;
        }
        proof {
            assert(self.text_of(n as int) =~= word@);
        }
        true
    }

    /// Adds a node below `parent`. Nodes are added in pre-order: the parent
    /// is the last node added or one of its ancestors, and siblings come in
    /// source order.
    pub fn add_node(&mut self, parent: usize, kind: NodeKind, lo: usize, hi: usize) -> (r: Result<
        usize,
        TreeError,
    >)
        requires
            old(self).wf(),
            old(self).node_count() < usize::MAX,
        ensures
            final(self).wf(),
            r is Err <==> old(self).add_node_error(parent, lo, hi) is Some,
            match r {
                Err(e) => {
                    &&& Some(e) == old(self).add_node_error(parent, lo, hi)
                    &&& *final(self) == *old(self)
                },
                Ok(id) => {
                    &&& id == old(self).node_count()
                    &&& final(self).source_text() == old(self).source_text()
                    &&& final(self).node_count() == id + 1
                    &&& final(self).kind_of(id as int) == kind
                    &&& final(self).span_of(id as int) == (Span { lo, hi })
                    &&& final(self).parent_of(id as int) == Some(parent)
                    &&& final(self).children_of(id as int).len() == 0
                    &&& final(self).children_of(parent as int) == old(self).children_of(
                        parent as int,
                    ).push(id)
                    &&& forall|m: int|
                        0 <= m < id ==> {
                            &&& #[trigger] final(self).kind_of(m) == old(self).kind_of(m)
                            &&& final(self).span_of(m) == old(self).span_of(m)
                            &&& final(self).parent_of(m) == old(self).parent_of(m)
                            &&& (m != parent ==> final(self).children_of(m) == old(self).children_of(m))
                        }
                },
            },
    {
        let count = self.kinds.len();
        if parent >= count {
            return Err(TreeError::UnknownParent);
        }
        if !self.on_right_spine(parent) {
            return Err(TreeError::NotInPreOrder);
        }
        let ps = self.spans[parent];
        if !(ps.lo <= lo && lo <= hi && hi <= ps.hi) {
            return Err(TreeError::SpanOutsideParent);
        }
        let siblings = self.children[parent].len();
        if siblings > 0 {
            let last = self.children[parent][siblings - 1];
            proof {
                assert(self.children_ok(parent as int));
                assert(self.has_node(self.children_of(parent as int)[siblings - 1] as int));
            }
            if self.spans[last].hi > lo {
                return Err(TreeError::SpanBeforeSibling);
            }
        }
        let ghost old_tree = *self;
        self.kinds.push(kind);
        self.spans.push(Span { lo, hi });
        self.parents.push(Some(parent));
        self.children.push(Vec::new());
        let mut cs: Vec<usize> = Vec::new();
        self.children.set_and_swap(parent, &mut cs);
        cs.push(count);
        self.children.set_and_swap(parent, &mut cs);
        proof {
            self.lemma_add_node_wf(old_tree, parent, count);
        }
        Ok(count)
    }

    proof fn lemma_ancestor_prefix(ps: Seq<Option<usize>>, x: Option<usize>, a: int, n: int)
        requires
            0 <= n < ps.len(),
        ensures
            is_ancestor_or_self(ps.push(x), a, n) == is_ancestor_or_self(ps, a, n),
        decreases n,
    {
        if n != a {
            match ps[n] {
                Some(p) => {
                    if p < n {
                        Self::lemma_ancestor_prefix(ps, x, a, p as int);
                    }
                },
                None => {},
            }
        }
    }

    /// `self` is `old_tree` with node `id` added below `parent`.
    spec fn extends(self, old_tree: SyntaxTree, parent: usize, id: usize) -> bool {
        &&& old_tree.wf()
        &&& id == old_tree.node_count()
        &&& old_tree.add_node_error(parent, self.span_of(id as int).lo, self.span_of(id as int).hi) is None
        &&& self.source == old_tree.source
        &&& self.kinds@ == old_tree.kinds@.push(self.kinds@[id as int])
        &&& self.spans@ == old_tree.spans@.push(self.spans@[id as int])
        &&& self.parents@ == old_tree.parents@.push(Some(parent))
        &&& self.children@.len() == id + 1
        &&& self.children@[id as int]@ == Seq::<usize>::empty()
        &&& self.children@[parent as int]@ == old_tree.children@[parent as int]@.push(id)
        &&& forall|m: int| 0 <= m < id && m != parent ==> #[trigger] self.children@[m] == old_tree.children@[m]
    }

    proof fn lemma_add_node_links(self, old_tree: SyntaxTree, parent: usize, id: usize, n: int)
        requires
            self.extends(old_tree, parent, id),
            self.has_node(n),
        ensures
            self.links_ok(n),
            self.span_ok(n),
    {
        assert(old_tree.span_ok(parent as int));
        if n < id {
            assert(old_tree.span_ok(n));
            assert(old_tree.links_ok(n));
            if n > 0 {
                let p = old_tree.parent_of(n)->0;
                Self::lemma_ancestor_prefix(old_tree.parents@, Some(parent), p as int, n - 1);
            }
        } else {
            Self::lemma_ancestor_prefix(old_tree.parents@, Some(parent), parent as int, id - 1);
        }
    }

    proof fn lemma_add_node_new_children(self, old_tree: SyntaxTree, parent: usize, id: usize)
        requires
            self.extends(old_tree, parent, id),
        ensures
            self.children_ok(id as int),
    {
        assert forall|c: int| self.has_node(c) && #[trigger] self.parent_of(c) == Some(
            id,
        ) implies self.children_of(id as int).contains(c as usize) by {
            if c < id {
                assert(old_tree.links_ok(c));
            }
        }
    }

    proof fn lemma_add_node_members(self, old_tree: SyntaxTree, parent: usize, id: usize, n: int, k: int)
        requires
            self.extends(old_tree, parent, id),
            old_tree.has_node(n),
            0 <= k < self.children_of(n).len(),
        ensures
            self.has_node(self.children_of(n)[k] as int),
            self.parent_of(self.children_of(n)[k] as int) == Some(n as usize),
            self.span_of(n).lo <= self.span_of(self.children_of(n)[k] as int).lo,
            self.span_of(self.children_of(n)[k] as int).hi <= self.span_of(n).hi,
            k + 1 < self.children_of(n).len() ==> {
                &&& self.children_of(n)[k] < self.children_of(n)[k + 1]
                &&& self.span_of(self.children_of(n)[k] as int).hi <= self.span_of(
                    self.children_of(n)[k + 1] as int,
                ).lo
            },
    {
        assert(old_tree.children_ok(n));
        let cs = self.children_of(n);
        let ocs = old_tree.children_of(n);
        if n != parent {
            assert(self.children@[n] == old_tree.children@[n]);
        }
        if k < ocs.len() {
            assert(cs[k] == ocs[k]);
            assert(old_tree.has_node(ocs[k] as int));
        }
        if k + 1 < ocs.len() {
            assert(cs[k + 1] == ocs[k + 1]);
            assert(old_tree.has_node(ocs[k + 1] as int));
        }
    }

    proof fn lemma_add_node_complete(self, old_tree: SyntaxTree, parent: usize, id: usize, n: int, c: int)
        requires
            self.extends(old_tree, parent, id),
            old_tree.has_node(n),
            self.has_node(c),
            self.parent_of(c) == Some(n as usize),
        ensures
            self.children_of(n).contains(c as usize),
    {
        assert(old_tree.children_ok(n));
        let cs = self.children_of(n);
        let ocs = old_tree.children_of(n);
        if n != parent {
            assert(self.children@[n] == old_tree.children@[n]);
        }
        if c < id {
            assert(old_tree.parent_of(c) == Some(n as usize));
            assert(ocs.contains(c as usize));
            let k = choose|k: int| 0 <= k < ocs.len() && ocs[k] == c as usize;
            assert(cs[k] == c as usize);
        } else {
            assert(cs.last() == id);
        }
    }

    proof fn lemma_add_node_children(self, old_tree: SyntaxTree, parent: usize, id: usize, n: int)
        requires
            self.extends(old_tree, parent, id),
            self.has_node(n),
        ensures
            self.children_ok(n),
    {
        if n == id {
            self.lemma_add_node_new_children(old_tree, parent, id);
        } else {
            let cs = self.children_of(n);
            assert forall|k: int| 0 <= k < cs.len() implies {
                &&& self.has_node(#[trigger] cs[k] as int)
                &&& self.parent_of(cs[k] as int) == Some(n as usize)
                &&& self.span_of(n).lo <= self.span_of(cs[k] as int).lo
                &&& self.span_of(cs[k] as int).hi <= self.span_of(n).hi
            } by {
                self.lemma_add_node_members(old_tree, parent, id, n, k);
            }
            assert forall|k: int| 0 <= k < cs.len() - 1 implies {
                &&& #[trigger] cs[k] < cs[k + 1]
                &&& self.span_of(cs[k] as int).hi <= self.span_of(cs[k + 1] as int).lo
            } by {
                self.lemma_add_node_members(old_tree, parent, id, n, k);
            }
            assert forall|c: int| self.has_node(c) && #[trigger] self.parent_of(c) == Some(
                n as usize,
            ) implies cs.contains(c as usize) by {
                self.lemma_add_node_complete(old_tree, parent, id, n, c);
            }
        }
    }

    proof fn lemma_add_node_wf(self, old_tree: SyntaxTree, parent: usize, id: usize)
        requires
            self.extends(old_tree, parent, id),
        ensures
            self.wf(),
    {
        assert forall|n: int| self.has_node(n) implies #[trigger] self.span_ok(n) by {
            self.lemma_add_node_links(old_tree, parent, id, n);
        }
        assert forall|n: int| self.has_node(n) implies #[trigger] self.links_ok(n) by {
            self.lemma_add_node_links(old_tree, parent, id, n);
        }
        assert forall|n: int| self.has_node(n) implies #[trigger] self.children_ok(n) by {
            self.lemma_add_node_children(old_tree, parent, id, n);
        }
    }

    /// Whether `a` is the last node or one of its ancestors.
    fn on_right_spine(&self, a: usize) -> (r: bool)
        requires
            self.wf(),
        ensures
            r == is_ancestor_or_self(self.parent_links(), a as int, self.node_count() - 1),
    {
        let mut cur: usize = self.kinds.len() - 1;
        loop
            invariant
                self.wf(),
                self.has_node(cur as int),
                is_ancestor_or_self(self.parent_links(), a as int, self.node_count() - 1)
                    == is_ancestor_or_self(self.parent_links(), a as int, cur as int),
            decreases cur,
        {
            if cur == a {
                return true;
            }
            proof {
                assert(self.links_ok(cur as int));
            }
            match self.parents[cur] {
                Some(p) => {
                    cur = p;
                },
                None => {
                    return false;
                },
            }
        }
    }
}

/// Whether the text starts with a byte order mark.
fn starts_with_bom(s: &str) -> (r: bool)
    ensures
        r == (s@.len() > 0 && s@[0] == BYTE_ORDER_MARK),
{
    broadcast use vstd::string::axiom_spec_iter, vstd::string::next_postcondition;

    let mut chars = s.chars();
    match chars.next() {
        Some(c) => c == BYTE_ORDER_MARK,
        None => false,
    }
}

} // verus!
