//! Building a tree from nodes reported in pre-order, as a depth-first walk
//! of a parse meets them.
use vstd::prelude::*;

use crate::tree::SyntaxTree;

verus! {

/// A tree under construction and the path of open nodes, from the root to
/// the innermost. A node that is entered becomes the last child of the
/// innermost open node and is opened in turn.
pub struct TreeBuilder {
    tree: SyntaxTree,
    open: Vec<usize>,
}

impl TreeBuilder {
    /// The tree built so far.
    pub closed spec fn tree_spec(&self) -> SyntaxTree {
        self.tree
    }

    /// The open nodes, outermost first.
    pub closed spec fn open_spec(&self) -> Seq<usize> {
        self.open@
    }

    pub open spec fn wf(&self) -> bool {
        &&& self.tree_spec().wf()
        &&& forall|i: int|
            0 <= i < self.open_spec().len() ==> #[trigger] self.open_spec()[i] < self.tree_spec().nodes@.len()
    }

    /// A builder holding the root, of `kind`, over `[start, end)` of
    /// `source`, with the root open; `None` when that range does not lie
    /// within `source`.
    pub fn new(source: Vec<u8>, kind: String, named: bool, start: usize, end: usize) -> (r: Option<
        TreeBuilder,
    >)
        ensures
            r is Some <==> start <= end <= source@.len(),
            r matches Some(b) ==> {
                &&& b.wf()
                &&& b.open_spec() == seq![0usize]
                &&& b.tree_spec().source@ == source@
                &&& b.tree_spec().nodes@.len() == 1
                &&& b.tree_spec().nodes@[0].kind@ == kind@
                &&& b.tree_spec().nodes@[0].field_name is None
                &&& b.tree_spec().nodes@[0].named == named
                &&& b.tree_spec().nodes@[0].start_byte == start
                &&& b.tree_spec().nodes@[0].end_byte == end
            },
    {
        match SyntaxTree::new(source, kind, named, start, end) {
            Some(tree) => {
                let mut open: Vec<usize> = Vec::new();
                open.push(0);
                Some(TreeBuilder { tree, open })
            },
            None => None,
        }
    }

    /// Adds a node as the last child of the innermost open node and opens
    /// it. Refuses (returns `None`, the builder unchanged) when no node is
    /// open, when the byte range does not lie within the source, or when
    /// the tree has no index left.
    pub fn enter(
        &mut self,
        kind: String,
        field_name: Option<String>,
        named: bool,
        start: usize,
        end: usize,
    ) -> (r: Option<usize>)
        requires
            old(self).wf(),
        ensures
            final(self).wf(),
            r is Some <==> (old(self).open_spec().len() > 0 && start <= end
                <= old(self).tree_spec().source@.len() && old(self).tree_spec().nodes@.len() + 1
                < usize::MAX),
            r is None ==> final(self).tree_spec() == old(self).tree_spec() && final(self).open_spec()
                == old(self).open_spec(),
            r matches Some(id) ==> {
                let t0 = old(self).tree_spec();
                let t1 = final(self).tree_spec();
                &&& id == t0.nodes@.len()
                &&& final(self).open_spec() == old(self).open_spec().push(id)
                &&& t1.source@ == t0.source@
                &&& t1.nodes@.len() == id + 1
                &&& t1.nodes@.subrange(0, id as int) == t0.nodes@
                &&& t1.nodes@[id as int].kind@ == kind@
                &&& t1.nodes@[id as int].field_name == field_name
                &&& t1.nodes@[id as int].named == named
                &&& t1.nodes@[id as int].start_byte == start
                &&& t1.nodes@[id as int].end_byte == end
                &&& t1.nodes@[id as int].parent == Some(old(self).open_spec().last())
            },
    {
        let len = self.open.len();
        if len == 0 {
            return None;
        }
        let parent = self.open[len - 1];
        let r = self.tree.add_node(parent, kind, field_name, named, start, end);
        match r {
            Some(id) => {
                self.open.push(id);
                Some(id)
            },
            None => None,
        }
    }

    /// Closes the innermost open node; `false` when none is open.
    pub fn leave(&mut self) -> (closed: bool)
        requires
            old(self).wf(),
        ensures
            final(self).wf(),
            final(self).tree_spec() == old(self).tree_spec(),
            closed == (old(self).open_spec().len() > 0),
            closed ==> final(self).open_spec() == old(self).open_spec().drop_last(),
            !closed ==> final(self).open_spec() == old(self).open_spec(),
    {
        match self.open.pop() {
            Some(_) => true,
            None => false,
        }
    }

    /// The tree built.
    pub fn finish(self) -> (t: SyntaxTree)
        requires
            self.wf(),
        ensures
            t == self.tree_spec(),
            t.wf(),
    {
        self.tree
    }
}

} // verus!
