//! A traversal cursor over a syntax tree: a current node and its depth.
use vstd::prelude::*;

use crate::tree::SyntaxTree;

verus! {

/// A transient walk position over a `SyntaxTree`: the current node and the
/// number of levels it lies below the root.
pub struct TreeCursor {
    node: usize,
    depth: usize,
}

impl View for TreeCursor {
    /// The current node and its depth.
    type V = (usize, nat);

    closed spec fn view(&self) -> (usize, nat) {
        (self.node, self.depth as nat)
    }
}

impl TreeCursor {
    /// The cursor stands on a node of `t`, at that node's depth.
    pub open spec fn wf(&self, t: SyntaxTree) -> bool {
        &&& t.wf()
        &&& self@.0 < t.nodes@.len()
        &&& self@.1 == t.depth_of(self@.0)
    }

    /// A cursor at the root of `t`, depth 0.
    pub fn new(t: &SyntaxTree) -> (r: TreeCursor)
        requires
            t.wf(),
        ensures
            r.wf(*t),
            r@ == (0usize, 0nat),
    {
        TreeCursor { node: 0, depth: 0 }
    }

    /// The current node.
    pub fn node(&self) -> (r: usize)
        ensures
            r == self@.0,
    {
        self.node
    }

    /// The current depth.
    pub fn depth(&self) -> (r: usize)
        ensures
            r as nat == self@.1,
    {
        self.depth
    }

    /// Moves to the first child of the current node, if it has one.
    pub fn goto_first_child(&mut self, t: &SyntaxTree) -> (moved: bool)
        requires
            old(self).wf(*t),
        ensures
            final(self).wf(*t),
            moved == t.first_child_of(old(self)@.0) is Some,
            moved ==> final(self)@ == (t.first_child_of(old(self)@.0)->0, old(self)@.1 + 1),
            !moved ==> final(self)@ == old(self)@,
    {
        match t.first_child(self.node) {
            Some(c) => {
                proof {
                    t.lemma_scan_forward(Some(self.node), false, self.node + 1);
                    t.lemma_depth_bound(self.node);
                    assert(t.depth_of(c) == 1 + t.depth_of(self.node));
                }
                self.node = c;
                self.depth = self.depth + 1;
                true
            },
            None => false,
        }
    }

    /// Moves to the next sibling of the current node, if it has one.
    pub fn goto_next_sibling(&mut self, t: &SyntaxTree) -> (moved: bool)
        requires
            old(self).wf(*t),
        ensures
            final(self).wf(*t),
            moved == t.next_sibling_of(old(self)@.0) is Some,
            moved ==> final(self)@ == (t.next_sibling_of(old(self)@.0)->0, old(self)@.1),
            !moved ==> final(self)@ == old(self)@,
    {
        match t.next_sibling(self.node) {
            Some(s) => {
                proof {
                    t.lemma_scan_forward(t.parent_of(self.node), false, self.node + 1);
                    if self.node > 0 {
                        assert(t.nodes@[self.node as int].parent is Some);
                    }
                    assert(t.nodes@[s as int].parent is Some);
                    assert(t.depth_of(s) == t.depth_of(self.node));
                }
                self.node = s;
                true
            },
            None => false,
        }
    }

    /// Moves to the parent of the current node, unless it is the root.
    pub fn goto_parent(&mut self, t: &SyntaxTree) -> (moved: bool)
        requires
            old(self).wf(*t),
        ensures
            final(self).wf(*t),
            moved == t.parent_of(old(self)@.0) is Some,
            moved ==> final(self)@ == (t.parent_of(old(self)@.0)->0, (old(self)@.1 - 1) as nat),
            !moved ==> final(self)@ == old(self)@,
    {
        match t.parent(self.node) {
            Some(p) => {
                proof {
                    if self.node == 0 {
                        assert(t.nodes@[0].parent is None);
                    }
                    assert(t.nodes@[self.node as int].parent is Some);
                }
                self.node = p;
                self.depth = self.depth - 1;
                true
            },
            None => false,
        }
    }
}

/// Moving to the first child and then to the parent returns to the node the
/// cursor started from, one level up again; so does moving to a next sibling
/// and then to the parent, from a node and from its sibling alike.
pub proof fn lemma_descend_ascend_returns(t: SyntaxTree, n: usize)
    requires
        t.wf(),
        n < t.nodes@.len(),
    ensures
        t.first_child_of(n) matches Some(c) ==> t.parent_of(c) == Some(n) && t.depth_of(c) == t.depth_of(n) + 1,
        t.next_sibling_of(n) matches Some(s) ==> t.parent_of(s) == t.parent_of(n),
{
    t.lemma_scan_forward(Some(n), false, n + 1);
    if n > 0 {
        assert(t.nodes@[n as int].parent is Some);
        t.lemma_scan_forward(t.parent_of(n), false, n + 1);
    }
    if t.first_child_of(n) is Some {
        let c = t.first_child_of(n)->0;
        assert(t.nodes@[c as int].parent is Some);
    }
}

} // verus!
