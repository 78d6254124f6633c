//! The syntax tree: an immutable arena of nodes over a source buffer.
use vstd::prelude::*;

verus! {

/// One node of a syntax tree as the parser reported it.
pub struct SyntaxNode {
    /// The grammar symbol of the node.
    pub kind: String,
    /// The node's role in its parent, if the grammar names one.
    pub field_name: Option<String>,
    /// Whether the node is grammar-significant (not an anonymous token).
    pub named: bool,
    pub start_byte: usize,
    pub end_byte: usize,
    /// The index of the parent node; `None` only for the root.
    pub parent: Option<usize>,
}

/// A syntax tree over a source buffer. A node is identified by its index in
/// `nodes`; node 0 is the root, every other node's parent has a smaller index,
/// and the children of a node are ordered by index (source order).
pub struct SyntaxTree {
    pub nodes: Vec<SyntaxNode>,
    pub source: Vec<u8>,
}

impl SyntaxTree {
    /// The tree's shape and byte ranges are consistent.
    pub open spec fn wf(self) -> bool {
        &&& 0 < self.nodes@.len() < usize::MAX
        &&& self.nodes@[0].parent is None
        &&& forall|i: int|
            0 < i < self.nodes@.len() ==> {
                &&& (#[trigger] self.nodes@[i]).parent is Some
                &&& (self.nodes@[i].parent->0 as int) < i
            }
        &&& forall|i: int|
            0 <= i < self.nodes@.len() ==> {
                &&& (#[trigger] self.nodes@[i]).start_byte <= self.nodes@[i].end_byte
                &&& self.nodes@[i].end_byte <= self.source@.len()
            }
    }

    pub open spec fn parent_of(self, n: usize) -> Option<usize> {
        self.nodes@[n as int].parent
    }

    /// Node `k` has parent `p` and, when `named_only`, is a named node.
    pub open spec fn fits(self, k: int, p: Option<usize>, named_only: bool) -> bool {
        self.nodes@[k].parent == p && (!named_only || self.nodes@[k].named)
    }

    /// The first node at index `j` or later that fits `p` and `named_only`.
    pub open spec fn scan_forward(self, p: Option<usize>, named_only: bool, j: int) -> Option<usize>
        decreases self.nodes@.len() - j,
    {
        if j < 0 || j >= self.nodes@.len() {
            None
        } else if self.fits(j, p, named_only) {
            Some(j as usize)
        } else {
            self.scan_forward(p, named_only, j + 1)
        }
    }

    /// The last node before index `j` that fits `p` and `named_only`.
    pub open spec fn scan_backward(self, p: Option<usize>, named_only: bool, j: int) -> Option<usize>
        decreases j,
    {
        if j <= 0 {
            None
        } else if self.fits(j - 1, p, named_only) {
            Some((j - 1) as usize)
        } else {
            self.scan_backward(p, named_only, j - 1)
        }
    }

    pub open spec fn first_child_of(self, n: usize) -> Option<usize> {
        self.scan_forward(Some(n), false, n + 1)
    }

    pub open spec fn next_sibling_of(self, n: usize) -> Option<usize> {
        if self.parent_of(n) is None {
            None
        } else {
            self.scan_forward(self.parent_of(n), false, n + 1)
        }
    }

    pub open spec fn first_named_child_of(self, n: usize) -> Option<usize> {
        self.scan_forward(Some(n), true, n + 1)
    }

    pub open spec fn next_named_sibling_of(self, n: usize) -> Option<usize> {
        if self.parent_of(n) is None {
            None
        } else {
            self.scan_forward(self.parent_of(n), true, n + 1)
        }
    }

    pub open spec fn prev_named_sibling_of(self, n: usize) -> Option<usize> {
        if self.parent_of(n) is None {
            None
        } else {
            self.scan_backward(self.parent_of(n), true, n as int)
        }
    }

    /// The number of ancestors of node `n`.
    pub open spec fn depth_of(self, n: usize) -> nat
        decreases n,
    {
        match self.parent_of(n) {
            Some(p) => if p < n {
                1 + self.depth_of(p)
            } else {
                0
            },
            None => 0,
        }
    }

    /// The pre-order enumeration of the subtree rooted at `n`: the node, then
    /// each child's subtree in source order.
    pub open spec fn subtree(self, n: usize) -> Seq<usize>
        decreases self.nodes@.len() - n, 0int,
    {
        let fc = self.first_child_of(n);
        if fc is Some && n < fc->0 && fc->0 < self.nodes@.len() {
            seq![n] + self.siblings_from(fc->0)
        } else {
            seq![n]
        }
    }

    /// The pre-order enumeration of the subtrees of `c` and of each later
    /// sibling of `c`, in source order.
    pub open spec fn siblings_from(self, c: usize) -> Seq<usize>
        decreases self.nodes@.len() - c, 1int,
    {
        if c >= self.nodes@.len() {
            seq![]
        } else {
            let ns = self.next_sibling_of(c);
            if ns is Some && c < ns->0 && ns->0 < self.nodes@.len() {
                self.subtree(c) + self.siblings_from(ns->0)
            } else {
                self.subtree(c)
            }
        }
    }

    pub proof fn lemma_scan_forward(self, p: Option<usize>, named_only: bool, j: int)
        requires
            0 <= j,
            self.nodes@.len() <= usize::MAX,
        ensures
            match self.scan_forward(p, named_only, j) {
                Some(k) => {
                    &&& j <= k < self.nodes@.len()
                    &&& self.fits(k as int, p, named_only)
                    &&& forall|i: int| j <= i < k ==> !#[trigger] self.fits(i, p, named_only)
                },
                None => forall|i: int|
                    j <= i < self.nodes@.len() ==> !#[trigger] self.fits(i, p, named_only),
            },
        decreases self.nodes@.len() - j,
    {
        if j < self.nodes@.len() && !self.fits(j, p, named_only) {
            self.lemma_scan_forward(p, named_only, j + 1);
        }
    }

    pub proof fn lemma_scan_backward(self, p: Option<usize>, named_only: bool, j: int)
        requires
            0 <= j <= usize::MAX,
        ensures
            match self.scan_backward(p, named_only, j) {
                Some(k) => {
                    &&& k < j
                    &&& self.fits(k as int, p, named_only)
                    &&& forall|i: int| k < i < j ==> !#[trigger] self.fits(i, p, named_only)
                },
                None => forall|i: int| 0 <= i < j ==> !#[trigger] self.fits(i, p, named_only),
            },
        decreases j,
    {
        if j > 0 && !self.fits(j - 1, p, named_only) {
            self.lemma_scan_backward(p, named_only, j - 1);
        }
    }

    /// A node's depth is at most its index.
    pub proof fn lemma_depth_bound(self, n: usize)
        requires
            self.wf(),
            n < self.nodes@.len(),
        ensures
            self.depth_of(n) <= n,
        decreases n,
    {
        if n > 0 {
            let p = self.parent_of(n)->0;
            assert(self.nodes@[n as int].parent is Some);
            self.lemma_depth_bound(p);
        }
    }

    /// A tree holding only its root, of `kind`, over `[start, end)` of
    /// `source`; `None` when that range does not lie within `source`.
    pub fn new(source: Vec<u8>, kind: String, named: bool, start: usize, end: usize) -> (r: Option<
        SyntaxTree,
    >)
        ensures
            r is Some <==> start <= end <= source@.len(),
            r matches Some(t) ==> {
                &&& t.wf()
                &&& t.source@ == source@
                &&& t.nodes@.len() == 1
                &&& t.nodes@[0].kind@ == kind@
                &&& t.nodes@[0].field_name is None
                &&& t.nodes@[0].named == named
                &&& t.nodes@[0].start_byte == start
                &&& t.nodes@[0].end_byte == end
            },
    {
        if start <= end && end <= source.len() {
            let root = SyntaxNode { kind, field_name: None, named, start_byte: start, end_byte: end, parent: None };
            let mut nodes: Vec<SyntaxNode> = Vec::new();
            nodes.push(root);
            Some(SyntaxTree { nodes, source })
        } else {
            None
        }
    }

    /// Appends a node as the last child of `parent` and returns its index.
    /// Refuses (returns `None`, the tree unchanged) a parent that is not a
    /// node of the tree, a byte range that does not lie within the source,
    /// and a tree that has no index left.
    pub fn add_node(
        &mut self,
        parent: usize,
        kind: String,
        field_name: Option<String>,
        named: bool,
        start: usize,
        end: usize,
    ) -> (r: Option<usize>)
        requires
            old(self).wf(),
        ensures
            final(self).wf(),
            r is Some <==> (parent < old(self).nodes@.len() && start <= end <= old(self).source@.len()
                && old(self).nodes@.len() + 1 < usize::MAX),
            r is None ==> *final(self) == *old(self),
            r matches Some(id) ==> {
                &&& id == old(self).nodes@.len()
                &&& final(self).source@ == old(self).source@
                &&& final(self).nodes@.len() == id + 1
                &&& final(self).nodes@.subrange(0, id as int) == old(self).nodes@
                &&& final(self).nodes@[id as int].kind@ == kind@
                &&& final(self).nodes@[id as int].field_name == field_name
                &&& final(self).nodes@[id as int].named == named
                &&& final(self).nodes@[id as int].start_byte == start
                &&& final(self).nodes@[id as int].end_byte == end
                &&& final(self).nodes@[id as int].parent == Some(parent)
            },
    {
        if parent < self.nodes.len() && start <= end && end <= self.source.len()
            && self.nodes.len() < usize::MAX - 1 {
            let id = self.nodes.len();
            let node = SyntaxNode { kind, field_name, named, start_byte: start, end_byte: end, parent: Some(parent) };
            self.nodes.push(node);
            assert(self.nodes@.subrange(0, id as int) =~= old(self).nodes@);
            Some(id)
        } else {
            None
        }
    }

    /// The bytes of the source that node `n` spans.
    pub fn node_text(&self, n: usize) -> (r: Vec<u8>)
        requires
            self.wf(),
            n < self.nodes@.len(),
        ensures
            r@ == self.source@.subrange(
                self.nodes@[n as int].start_byte as int,
                self.nodes@[n as int].end_byte as int,
            ),
    {
        let start = self.nodes[n].start_byte;
        let end = self.nodes[n].end_byte;
        assert(self.nodes@[n as int].start_byte <= self.nodes@[n as int].end_byte);
        let mut out: Vec<u8> = Vec::new();
        let mut i: usize = start;
        while i < end
            invariant
                start <= i <= end <= self.source@.len(),
                out@ == self.source@.subrange(start as int, i as int),
            decreases end - i,
        {
            out.push(self.source[i]);
            i = i + 1;
            assert(out@ =~= self.source@.subrange(start as int, i as int));
        }
        out
    }

    /// Finds the first node at index `start` or later with parent `p`
    /// (and named, when `named_only`).
    fn find_forward(&self, p: Option<usize>, named_only: bool, start: usize) -> (r: Option<usize>)
        requires
            start <= self.nodes@.len(),
        ensures
            r == self.scan_forward(p, named_only, start as int),
    {
        let mut j: usize = start;
        while j < self.nodes.len()
            invariant
                start <= j <= self.nodes@.len(),
                self.scan_forward(p, named_only, start as int) == self.scan_forward(
                    p,
                    named_only,
                    j as int,
                ),
            decreases self.nodes@.len() - j,
        {
            let node = &self.nodes[j];
            if same_parent(node.parent, p) && (!named_only || node.named) {
                return Some(j);
            }
            j = j + 1;
        }
        None
    }

    /// Finds the last node before index `end` with parent `p` (and named, when
    /// `named_only`).
    fn find_backward(&self, p: Option<usize>, named_only: bool, end: usize) -> (r: Option<usize>)
        requires
            end <= self.nodes@.len(),
        ensures
            r == self.scan_backward(p, named_only, end as int),
    {
        let mut j: usize = end;
        while j > 0
            invariant
                j <= end <= self.nodes@.len(),
                self.scan_backward(p, named_only, end as int) == self.scan_backward(
                    p,
                    named_only,
                    j as int,
                ),
            decreases j,
        {
            let node = &self.nodes[j - 1];
            if same_parent(node.parent, p) && (!named_only || node.named) {
                return Some(j - 1);
            }
            j = j - 1;
        }
        None
    }

    /// The parent of node `n`; `None` for the root.
    pub fn parent(&self, n: usize) -> (r: Option<usize>)
        requires
            n < self.nodes@.len(),
        ensures
            r == self.parent_of(n),
    {
        self.nodes[n].parent
    }

    /// The first child of node `n`, named or not.
    pub fn first_child(&self, n: usize) -> (r: Option<usize>)
        requires
            self.wf(),
            n < self.nodes@.len(),
        ensures
            r == self.first_child_of(n),
    {
        self.find_forward(Some(n), false, n + 1)
    }

    /// The next sibling of node `n`, named or not.
    pub fn next_sibling(&self, n: usize) -> (r: Option<usize>)
        requires
            self.wf(),
            n < self.nodes@.len(),
        ensures
            r == self.next_sibling_of(n),
    {
        match self.nodes[n].parent {
            None => None,
            Some(p) => self.find_forward(Some(p), false, n + 1),
        }
    }

    /// The first named child of node `n`.
    pub fn first_named_child(&self, n: usize) -> (r: Option<usize>)
        requires
            self.wf(),
            n < self.nodes@.len(),
        ensures
            r == self.first_named_child_of(n),
    {
        self.find_forward(Some(n), true, n + 1)
    }

    /// The next named sibling of node `n`.
    pub fn next_named_sibling(&self, n: usize) -> (r: Option<usize>)
        requires
            self.wf(),
            n < self.nodes@.len(),
        ensures
            r == self.next_named_sibling_of(n),
    {
        match self.nodes[n].parent {
            None => None,
            Some(p) => self.find_forward(Some(p), true, n + 1),
        }
    }

    /// The previous named sibling of node `n`.
    pub fn prev_named_sibling(&self, n: usize) -> (r: Option<usize>)
        requires
            self.wf(),
            n < self.nodes@.len(),
        ensures
            r == self.prev_named_sibling_of(n),
    {
        match self.nodes[n].parent {
            None => None,
            Some(p) => self.find_backward(Some(p), true, n),
        }
    }
}

fn same_parent(a: Option<usize>, b: Option<usize>) -> (r: bool)
    ensures
        r == (a == b),
{
    match (a, b) {
        (None, None) => true,
        (Some(x), Some(y)) => x == y,
        _ => false,
    }
}

} // verus!
