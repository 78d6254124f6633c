//! The pre-order enumeration of a tree lists every node exactly once.
use vstd::prelude::*;

use crate::tree::SyntaxTree;

verus! {

/// `x` is `a` or lies below `a`.
pub open spec fn is_desc(t: SyntaxTree, x: usize, a: usize) -> bool
    decreases x,
{
    x == a || {
        let p = t.parent_of(x);
        p is Some && p->0 < x && is_desc(t, p->0, a)
    }
}

/// `x` lies in the subtree of `c` or of a later sibling of `c`.
pub open spec fn below_sibling_from(t: SyntaxTree, x: usize, c: usize) -> bool {
    exists|s: usize|
        c <= s < t.nodes@.len() && t.parent_of(s) == t.parent_of(c) && #[trigger] is_desc(t, x, s)
}

proof fn lemma_desc_deeper(t: SyntaxTree, x: usize, a: usize)
    requires
        t.wf(),
        x < t.nodes@.len(),
        is_desc(t, x, a),
        x != a,
    ensures
        a < x,
        t.depth_of(a) < t.depth_of(x),
    decreases x,
{
    let p = t.parent_of(x)->0;
    if p != a {
        lemma_desc_deeper(t, p, a);
    }
}

proof fn lemma_one_ancestor_per_depth(t: SyntaxTree, x: usize, a: usize, b: usize)
    requires
        t.wf(),
        x < t.nodes@.len(),
        is_desc(t, x, a),
        is_desc(t, x, b),
        t.depth_of(a) == t.depth_of(b),
    ensures
        a == b,
    decreases x,
{
    if x == a {
        if x != b {
            lemma_desc_deeper(t, x, b);
        }
    } else if x == b {
        lemma_desc_deeper(t, x, a);
    } else {
        lemma_one_ancestor_per_depth(t, t.parent_of(x)->0, a, b);
    }
}

/// Below a child of `n` is below `n`.
proof fn lemma_desc_through_child(t: SyntaxTree, x: usize, s: usize, n: usize)
    requires
        t.wf(),
        x < t.nodes@.len(),
        is_desc(t, x, s),
        t.parent_of(s) == Some(n),
        n < s,
    ensures
        is_desc(t, x, n),
    decreases x,
{
    if x != s {
        lemma_desc_through_child(t, t.parent_of(x)->0, s, n);
    } else {
        assert(is_desc(t, n, n));
    }
}

proof fn lemma_concat_no_duplicates(a: Seq<usize>, b: Seq<usize>)
    requires
        a.no_duplicates(),
        b.no_duplicates(),
        forall|i: int, j: int| 0 <= i < a.len() && 0 <= j < b.len() ==> a[i] != b[j],
    ensures
        (a + b).no_duplicates(),
{
    let c = a + b;
    assert forall|i: int, j: int| 0 <= i < c.len() && 0 <= j < c.len() && i != j implies c[i] != c[j] by {
        if i < a.len() && j >= a.len() {
            assert(c[j] == b[j - a.len()]);
        } else if i >= a.len() && j < a.len() {
            assert(c[i] == b[i - a.len()]);
        }
    }
}

proof fn lemma_subtree_distinct(t: SyntaxTree, n: usize)
    requires
        t.wf(),
        n < t.nodes@.len(),
    ensures
        t.subtree(n).no_duplicates(),
        forall|i: int|
            0 <= i < t.subtree(n).len() ==> #[trigger] t.subtree(n)[i] < t.nodes@.len()
                && is_desc(t, t.subtree(n)[i], n),
    decreases t.nodes@.len() - n, 0int,
{
    let fc = t.first_child_of(n);
    t.lemma_scan_forward(Some(n), false, n + 1);
    if fc is Some && n < fc->0 && fc->0 < t.nodes@.len() {
        let c = fc->0;
        lemma_siblings_distinct(t, c);
        let rest = t.siblings_from(c);
        assert forall|i: int| 0 <= i < rest.len() implies #[trigger] is_desc(t, rest[i], n) && rest[i] != n by {
            let s = choose|s: usize|
                c <= s < t.nodes@.len() && t.parent_of(s) == t.parent_of(c) && #[trigger] is_desc(t, rest[i], s);
            lemma_desc_through_child(t, rest[i], s, n);
            if rest[i] == n {
                lemma_desc_deeper(t, n, s);
            }
        }
        let head = seq![n];
        assert forall|i: int, j: int| 0 <= i < head.len() && 0 <= j < rest.len() implies head[i] != rest[j] by {
            assert(is_desc(t, rest[j], n) && rest[j] != n);
        }
        lemma_concat_no_duplicates(head, rest);
        let sub = t.subtree(n);
        assert(sub == seq![n] + rest);
        assert forall|i: int| 0 <= i < sub.len() implies #[trigger] sub[i] < t.nodes@.len()
            && is_desc(t, sub[i], n) by {
            if i > 0 {
                assert(sub[i] == rest[i - 1]);
            }
        }
    }
}

proof fn lemma_siblings_distinct(t: SyntaxTree, c: usize)
    requires
        t.wf(),
        0 < c < t.nodes@.len(),
    ensures
        t.siblings_from(c).no_duplicates(),
        forall|i: int|
            0 <= i < t.siblings_from(c).len() ==> #[trigger] t.siblings_from(c)[i] < t.nodes@.len()
                && below_sibling_from(t, t.siblings_from(c)[i], c),
    decreases t.nodes@.len() - c, 1int,
{
    assert(t.nodes@[c as int].parent is Some);
    let q = t.parent_of(c);
    lemma_subtree_distinct(t, c);
    let sub = t.subtree(c);
    assert forall|i: int| 0 <= i < sub.len() implies below_sibling_from(t, #[trigger] sub[i], c) by {
        assert(is_desc(t, sub[i], c));
    }
    let ns = t.next_sibling_of(c);
    t.lemma_scan_forward(q, false, c + 1);
    if ns is Some && c < ns->0 && ns->0 < t.nodes@.len() {
        let s2 = ns->0;
        lemma_siblings_distinct(t, s2);
        let rest = t.siblings_from(s2);
        assert(t.parent_of(s2) == q);
        assert forall|i: int| 0 <= i < rest.len() implies below_sibling_from(t, #[trigger] rest[i], c)
            && !sub.contains(rest[i]) by {
            let s = choose|s: usize|
                s2 <= s < t.nodes@.len() && t.parent_of(s) == t.parent_of(s2) && #[trigger] is_desc(t, rest[i], s);
            assert(is_desc(t, rest[i], s));
            if sub.contains(rest[i]) {
                let k = choose|k: int| 0 <= k < sub.len() && sub[k] == rest[i];
                assert(is_desc(t, sub[k], c));
                assert(t.nodes@[s as int].parent is Some);
                assert(t.depth_of(s) == t.depth_of(c));
                lemma_one_ancestor_per_depth(t, rest[i], s, c);
            }
        }
        assert forall|i: int, j: int| 0 <= i < sub.len() && 0 <= j < rest.len() implies sub[i] != rest[j] by {
            if sub[i] == rest[j] {
                assert(sub.contains(rest[j]));
            }
        }
        lemma_concat_no_duplicates(sub, rest);
        let all = t.siblings_from(c);
        assert(all == sub + rest);
        assert forall|i: int| 0 <= i < all.len() implies #[trigger] all[i] < t.nodes@.len()
            && below_sibling_from(t, all[i], c) by {
            if i >= sub.len() {
                assert(all[i] == rest[i - sub.len()]);
            } else {
                assert(all[i] == sub[i]);
            }
        }
    } else {
        assert(t.siblings_from(c) == sub);
    }
}

proof fn lemma_below_root(t: SyntaxTree, x: usize)
    requires
        t.wf(),
        x < t.nodes@.len(),
    ensures
        is_desc(t, x, 0),
    decreases x,
{
    if x > 0 {
        assert(t.nodes@[x as int].parent is Some);
        lemma_below_root(t, t.parent_of(x)->0);
    }
}

/// The child of `n` on the path from `n` down to `x`.
proof fn lemma_child_on_path(t: SyntaxTree, x: usize, n: usize) -> (a: usize)
    requires
        t.wf(),
        x < t.nodes@.len(),
        is_desc(t, x, n),
        x != n,
    ensures
        n < a <= x,
        t.parent_of(a) == Some(n),
        is_desc(t, x, a),
    decreases x,
{
    let p = t.parent_of(x)->0;
    if p == n {
        x
    } else {
        let a = lemma_child_on_path(t, p, n);
        a
    }
}

proof fn lemma_sibling_subtree_included(t: SyntaxTree, c: usize, s: usize, y: usize)
    requires
        t.wf(),
        0 < c <= s < t.nodes@.len(),
        t.parent_of(s) == t.parent_of(c),
        t.subtree(s).contains(y),
    ensures
        t.siblings_from(c).contains(y),
    decreases s - c,
{
    let sub = t.subtree(c);
    let ns = t.next_sibling_of(c);
    assert(t.nodes@[c as int].parent is Some);
    t.lemma_scan_forward(t.parent_of(c), false, c + 1);
    if s == c {
        let k = choose|k: int| 0 <= k < sub.len() && sub[k] == y;
        if ns is Some && c < ns->0 && ns->0 < t.nodes@.len() {
            assert((sub + t.siblings_from(ns->0))[k] == y);
        } else {
            assert(t.siblings_from(c)[k] == y);
        }
    } else {
        assert(t.fits(s as int, t.parent_of(c), false));
        let s2 = ns->0;
        lemma_sibling_subtree_included(t, s2, s, y);
        let rest = t.siblings_from(s2);
        let k = choose|k: int| 0 <= k < rest.len() && rest[k] == y;
        assert((sub + rest)[sub.len() + k] == y);
    }
}

proof fn lemma_subtree_covers(t: SyntaxTree, n: usize, x: usize)
    requires
        t.wf(),
        n < t.nodes@.len(),
        x < t.nodes@.len(),
        is_desc(t, x, n),
    ensures
        t.subtree(n).contains(x),
    decreases t.nodes@.len() - n,
{
    if x == n {
        assert(t.subtree(n)[0] == n);
    } else {
        let a = lemma_child_on_path(t, x, n);
        lemma_subtree_covers(t, a, x);
        t.lemma_scan_forward(Some(n), false, n + 1);
        assert(t.fits(a as int, Some(n), false));
        let c = t.first_child_of(n)->0;
        lemma_sibling_subtree_included(t, c, a, x);
        let rest = t.siblings_from(c);
        let k = choose|k: int| 0 <= k < rest.len() && rest[k] == x;
        assert((seq![n] + rest)[1 + k] == x);
    }
}

/// The pre-order enumeration from the root, which is the order of the
/// rendered lines, lists every node of the tree exactly once: each entry is
/// a node, no node is repeated and none is skipped.
pub proof fn lemma_preorder_lists_each_node_once(t: SyntaxTree)
    requires
        t.wf(),
    ensures
        t.subtree(0).no_duplicates(),
        forall|i: int| 0 <= i < t.subtree(0).len() ==> #[trigger] t.subtree(0)[i] < t.nodes@.len(),
        forall|x: usize| x < t.nodes@.len() ==> #[trigger] t.subtree(0).contains(x),
{
    lemma_subtree_distinct(t, 0);
    assert forall|x: usize| x < t.nodes@.len() implies #[trigger] t.subtree(0).contains(x) by {
        lemma_below_root(t, x);
        lemma_subtree_covers(t, 0, x);
    }
}

} // verus!
