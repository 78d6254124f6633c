//! The render pass: a cursor-driven depth-first walk that yields one line per
//! node in pre-order, and the choice of the frame's hit node.
use vstd::prelude::*;

use crate::cursor::TreeCursor;
use crate::order::lemma_preorder_lists_each_node_once;
use crate::tree::SyntaxTree;

verus! {

/// One display line: a node and the depth it is indented by.
#[derive(Clone, Copy, Debug, PartialEq, Eq)]
pub struct RenderLine {
    pub node: usize,
    pub depth: usize,
}

/// The nodes of `lines`, in order.
pub open spec fn line_nodes(lines: Seq<RenderLine>) -> Seq<usize> {
    lines.map_values(|l: RenderLine| l.node)
}

/// Every line of `lines` is indented by its node's depth in `t`.
pub open spec fn lines_at_depth(t: SyntaxTree, lines: Seq<RenderLine>) -> bool {
    forall|i: int| 0 <= i < lines.len() ==> (#[trigger] lines[i]).depth == t.depth_of(lines[i].node)
}

/// An index for the parent of a level: the parent's own, or -1 above the root.
pub open spec fn level_rank(level: Option<usize>) -> int {
    match level {
        Some(p) => p as int,
        None => -1,
    }
}

/// Renders the cursor's node and each of its later siblings, each followed
/// by its subtree, then moves the cursor up to their parent, one level
/// higher: every descent below is matched by one ascent. At the root the
/// cursor stays where it is.
pub fn render_level(t: &SyntaxTree, cur: &mut TreeCursor, out: &mut Vec<RenderLine>)
    requires
        old(cur).wf(*t),
        lines_at_depth(*t, old(out)@),
    ensures
        final(cur).wf(*t),
        line_nodes(final(out)@) == line_nodes(old(out)@) + t.siblings_from(old(cur)@.0),
        lines_at_depth(*t, final(out)@),
        match t.parent_of(old(cur)@.0) {
            Some(p) => final(cur)@ == (p, (old(cur)@.1 - 1) as nat),
            None => final(cur)@ == old(cur)@,
        },
    decreases t.nodes@.len() - level_rank(t.parent_of(old(cur)@.0)),
{
    let ghost level = t.parent_of(cur@.0);
    let ghost c0 = cur@.0;
    let ghost out0 = line_nodes(out@);
    proof {
        if cur@.0 > 0 {
            assert(t.nodes@[cur@.0 as int].parent is Some);
        }
    }
    loop
        invariant_except_break
            level == t.parent_of(old(cur)@.0),
            cur.wf(*t),
            t.parent_of(cur@.0) == level,
            level_rank(level) < cur@.0,
            line_nodes(out@) + t.siblings_from(cur@.0) == out0 + t.siblings_from(c0),
            lines_at_depth(*t, out@),
            level is None ==> cur@ == old(cur)@,
        ensures
            cur.wf(*t),
            t.parent_of(cur@.0) == level,
            line_nodes(out@) == out0 + t.siblings_from(c0),
            lines_at_depth(*t, out@),
            level is None ==> cur@ == old(cur)@,
        decreases t.nodes@.len() - cur@.0,
    {
        let n = cur.node();
        let d = cur.depth();
        let ghost before = out@;
        out.push(RenderLine { node: n, depth: d });
        proof {
            assert(line_nodes(out@) =~= line_nodes(before) + seq![n]);
        }
        let ghost mid = out@;
        if cur.goto_first_child(t) {
            proof {
                t.lemma_scan_forward(Some(n), false, n + 1);
                assert(t.fits(cur@.0 as int, Some(n), false));
                assert(t.parent_of(cur@.0) == Some(n));
            }
            render_level(t, cur, out);
            proof {
                assert(t.subtree(n) == seq![n] + t.siblings_from(t.first_child_of(n)->0));
                assert(line_nodes(out@) =~= line_nodes(before) + t.subtree(n));
            }
        } else {
            proof {
                assert(t.subtree(n) == seq![n]);
            }
        }
        assert(line_nodes(out@) == line_nodes(before) + t.subtree(n));
        if !cur.goto_next_sibling(t) {
            proof {
                assert(t.siblings_from(n) == t.subtree(n));
            }
            break;
        }
        proof {
            t.lemma_scan_forward(t.parent_of(n), false, n + 1);
            let s = cur@.0;
            assert(t.nodes@[s as int].parent is Some);
            assert(t.siblings_from(n) == t.subtree(n) + t.siblings_from(s));
            assert(line_nodes(out@) + t.siblings_from(s) =~= line_nodes(before) + t.siblings_from(n));
            if level is None {
                assert(t.parent_of(n) is None);
                assert(false);
            }
        }
    }
    cur.goto_parent(t);
}

/// Walks the whole tree from a cursor at its root, appending one line per
/// node in pre-order, and leaves the cursor back at the root, depth 0.
pub fn walk_tree(t: &SyntaxTree, cur: &mut TreeCursor, out: &mut Vec<RenderLine>)
    requires
        old(cur).wf(*t),
        old(cur)@ == (0usize, 0nat),
        lines_at_depth(*t, old(out)@),
    ensures
        final(cur).wf(*t),
        final(cur)@ == (0usize, 0nat),
        line_nodes(final(out)@) == line_nodes(old(out)@) + t.subtree(0),
        lines_at_depth(*t, final(out)@),
{
    proof {
        assert(t.siblings_from(0) == t.subtree(0));
    }
    render_level(t, cur, out);
}

/// The display lines of `t`: one per node, in pre-order, each at its
/// node's depth; no node is repeated and none is skipped.
pub fn render_lines(t: &SyntaxTree) -> (r: Vec<RenderLine>)
    requires
        t.wf(),
    ensures
        line_nodes(r@) == t.subtree(0),
        lines_at_depth(*t, r@),
        line_nodes(r@).no_duplicates(),
        forall|x: usize| x < t.nodes@.len() ==> #[trigger] line_nodes(r@).contains(x),
        forall|i: int| 0 <= i < r@.len() ==> #[trigger] r@[i].node < t.nodes@.len(),
{
    let mut cur = TreeCursor::new(t);
    let mut out: Vec<RenderLine> = Vec::new();
    proof {
        assert(line_nodes(out@) =~= Seq::<usize>::empty());
    }
    walk_tree(t, &mut cur, &mut out);
    proof {
        assert(line_nodes(out@) =~= t.subtree(0));
        lemma_preorder_lists_each_node_once(*t);
        assert forall|i: int| 0 <= i < out@.len() implies #[trigger] out@[i].node < t.nodes@.len() by {
            assert(line_nodes(out@)[i] == out@[i].node);
        }
    }
    out
}

/// The pointer hovers line `i` (missing entries of `hovered` count as not
/// hovered).
pub open spec fn line_hovered(hovered: Seq<bool>, i: int) -> bool {
    0 <= i < hovered.len() && hovered[i]
}

/// The node of the last hovered line among the first `k` lines, if any.
pub open spec fn last_hovered(lines: Seq<RenderLine>, hovered: Seq<bool>, k: int) -> Option<usize>
    decreases k,
{
    if k <= 0 {
        None
    } else if line_hovered(hovered, k - 1) {
        Some(lines[k - 1].node)
    } else {
        last_hovered(lines, hovered, k - 1)
    }
}

/// Some line among the first `k` shows the node `selection`.
pub open spec fn shows_node(lines: Seq<RenderLine>, selection: usize, k: int) -> bool {
    exists|i: int| 0 <= i < k && #[trigger] lines[i].node == selection
}

/// The frame's hit node: a hovered line's node takes precedence over the
/// selection; then the selection, if a line shows it; else the root.
pub open spec fn spec_hit_node(lines: Seq<RenderLine>, selection: usize, hovered: Seq<bool>) -> usize {
    match last_hovered(lines, hovered, lines.len() as int) {
        Some(n) => n,
        None => if shows_node(lines, selection, lines.len() as int) {
            selection
        } else {
            0
        },
    }
}

/// With no hovered line among the first `k`, there is no last hovered one.
proof fn lemma_none_hovered(lines: Seq<RenderLine>, hovered: Seq<bool>, k: int)
    requires
        forall|i: int| 0 <= i < k ==> !#[trigger] line_hovered(hovered, i),
    ensures
        last_hovered(lines, hovered, k) is None,
    decreases k,
{
    if k > 0 {
        lemma_none_hovered(lines, hovered, k - 1);
    }
}

/// Whether a line is drawn highlighted: its node is the selection, or the
/// pointer hovers it.
pub fn line_is_hit(line: &RenderLine, selection: usize, hovered: bool) -> (r: bool)
    ensures
        r == (line.node == selection || hovered),
{
    line.node == selection || hovered
}

/// With no hovered line and no line showing the selection, the hit node is
/// the root.
proof fn lemma_nothing_hit(lines: Seq<RenderLine>, selection: usize, hovered: Seq<bool>)
    requires
        forall|i: int| 0 <= i < lines.len() ==> !#[trigger] line_hovered(hovered, i),
        forall|i: int| 0 <= i < lines.len() ==> #[trigger] lines[i].node != selection,
    ensures
        spec_hit_node(lines, selection, hovered) == 0,
{
    lemma_none_hovered(lines, hovered, lines.len() as int);
}

/// The frame's hit node: the node of the last hovered line (`hovered[i]`
/// for line `i`; missing entries count as not hovered), since hover takes
/// precedence; with no hover, `selection` if some line shows it; else the
/// root.
pub fn hit_node(lines: &Vec<RenderLine>, selection: usize, hovered: &Vec<bool>) -> (r: usize)
    ensures
        r == spec_hit_node(lines@, selection, hovered@),
        (forall|i: int| 0 <= i < lines@.len() ==> !#[trigger] line_hovered(hovered@, i)) && (forall|i: int|
            0 <= i < lines@.len() ==> #[trigger] lines@[i].node != selection) ==> r == 0,
{
    let mut hover: Option<usize> = None;
    let mut shown = false;
    let mut i: usize = 0;
    while i < lines.len()
        invariant
            i <= lines@.len(),
            hover == last_hovered(lines@, hovered@, i as int),
            shown == shows_node(lines@, selection, i as int),
        decreases lines@.len() - i,
    {
        let line = lines[i];
        if i < hovered.len() && hovered[i] {
            hover = Some(line.node);
        }
        if line.node == selection {
            shown = true;
        }
        proof {
            if shows_node(lines@, selection, i + 1) && !shows_node(lines@, selection, i as int) {
                let k = choose|k: int| 0 <= k < i + 1 && #[trigger] lines@[k].node == selection;
                assert(k == i);
            }
            if shown && line.node == selection {
                assert(lines@[i as int].node == selection);
            }
            if shows_node(lines@, selection, i as int) {
                let k = choose|k: int| 0 <= k < i && #[trigger] lines@[k].node == selection;
                assert(0 <= k < i + 1 && lines@[k].node == selection);
            }
        }
        i = i + 1;
    }
    proof {
        if (forall|i: int| 0 <= i < lines@.len() ==> !#[trigger] line_hovered(hovered@, i)) && (forall|
            i: int,
        |
            0 <= i < lines@.len() ==> #[trigger] lines@[i].node != selection) {
            lemma_nothing_hit(lines@, selection, hovered@);
        }
    }
    match hover {
        Some(n) => n,
        None => if shown {
            selection
        } else {
            0
        },
    }
}

/// How far a line at `depth` is indented: 20 units per level, saturating.
pub fn indent_of(depth: usize) -> (r: usize)
    ensures
        r == if depth * 20 <= usize::MAX { depth * 20 } else { usize::MAX as int },
{
    if depth <= usize::MAX / 20 {
        depth * 20
    } else {
        usize::MAX
    }
}

} // verus!
