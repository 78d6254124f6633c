//! Directional navigation: which node becomes the selection for each of the
//! four commands, from the previous selection and the tree's shape.
use vstd::prelude::*;

use crate::tree::SyntaxTree;

verus! {

/// A directional command.
#[derive(Clone, Copy, Debug, PartialEq, Eq, Structural)]
pub enum Command {
    Up,
    Down,
    Left,
    Right,
}

/// A key that issues a command: an arrow key or its letter equivalent.
#[derive(Clone, Copy, Debug, PartialEq, Eq, Structural)]
pub enum Key {
    ArrowUp,
    ArrowDown,
    ArrowLeft,
    ArrowRight,
    H,
    J,
    K,
    L,
}

/// Every key that issues a command.
pub fn command_keys() -> (r: Vec<Key>)
    ensures
        r@ == seq![Key::ArrowUp, Key::K, Key::ArrowDown, Key::J, Key::ArrowRight, Key::L, Key::ArrowLeft, Key::H],
{
    let mut v: Vec<Key> = Vec::new();
    v.push(Key::ArrowUp);
    v.push(Key::K);
    v.push(Key::ArrowDown);
    v.push(Key::J);
    v.push(Key::ArrowRight);
    v.push(Key::L);
    v.push(Key::ArrowLeft);
    v.push(Key::H);
    v
}

pub open spec fn spec_command_of_key(k: Key) -> Command {
    match k {
        Key::ArrowUp | Key::K => Command::Up,
        Key::ArrowDown | Key::J => Command::Down,
        Key::ArrowLeft | Key::H => Command::Left,
        Key::ArrowRight | Key::L => Command::Right,
    }
}

/// The command a key issues.
pub fn command_of_key(k: Key) -> (r: Command)
    ensures
        r == spec_command_of_key(k),
{
    match k {
        Key::ArrowUp | Key::K => Command::Up,
        Key::ArrowDown | Key::J => Command::Down,
        Key::ArrowLeft | Key::H => Command::Left,
        Key::ArrowRight | Key::L => Command::Right,
    }
}

/// `a` when it is present, else `b`.
pub open spec fn or_else(a: Option<usize>, b: Option<usize>) -> Option<usize> {
    if a is Some {
        a
    } else {
        b
    }
}

/// The next named sibling of the parent of `n`, if both exist.
pub open spec fn parent_next_named_sibling(t: SyntaxTree, n: usize) -> Option<usize> {
    match t.parent_of(n) {
        Some(p) => t.next_named_sibling_of(p),
        None => None,
    }
}

/// The node `cmd` moves to from `n`: the first choice of the command's
/// fallback chain that exists, or `None` when none does.
pub open spec fn step(t: SyntaxTree, n: usize, cmd: Command) -> Option<usize> {
    match cmd {
        Command::Up => or_else(t.prev_named_sibling_of(n), t.parent_of(n)),
        Command::Down => or_else(
            t.next_named_sibling_of(n),
            or_else(t.first_named_child_of(n), parent_next_named_sibling(t, n)),
        ),
        Command::Right => or_else(
            t.first_named_child_of(n),
            or_else(t.next_named_sibling_of(n), parent_next_named_sibling(t, n)),
        ),
        Command::Left => or_else(t.parent_of(n), t.prev_named_sibling_of(n)),
    }
}

/// The selection after `cmd` from `n`: the step's target, or `n` itself when
/// the command has nowhere to go.
pub open spec fn spec_next_selection(t: SyntaxTree, n: usize, cmd: Command) -> usize {
    match step(t, n, cmd) {
        Some(m) => m,
        None => n,
    }
}

/// The step of `cmd` from `n`.
fn step_exec(t: &SyntaxTree, n: usize, cmd: Command) -> (r: Option<usize>)
    requires
        t.wf(),
        n < t.nodes@.len(),
    ensures
        r == step(*t, n, cmd),
        r matches Some(m) ==> m < t.nodes@.len(),
{
    proof {
        t.lemma_scan_forward(Some(n), true, n + 1);
        if n > 0 {
            assert(t.nodes@[n as int].parent is Some);
        }
        if let Some(p) = t.parent_of(n) {
            t.lemma_scan_forward(Some(p), true, n + 1);
            t.lemma_scan_backward(Some(p), true, n as int);
            t.lemma_scan_forward(t.parent_of(p), true, p + 1);
        }
    }
    let parent_next = match t.parent(n) {
        Some(p) => t.next_named_sibling(p),
        None => None,
    };
    match cmd {
        Command::Up => match t.prev_named_sibling(n) {
            Some(s) => Some(s),
            None => t.parent(n),
        },
        Command::Down => match t.next_named_sibling(n) {
            Some(s) => Some(s),
            None => match t.first_named_child(n) {
                Some(c) => Some(c),
                None => parent_next,
            },
        },
        Command::Right => match t.first_named_child(n) {
            Some(c) => Some(c),
            None => match t.next_named_sibling(n) {
                Some(s) => Some(s),
                None => parent_next,
            },
        },
        Command::Left => match t.parent(n) {
            Some(p) => Some(p),
            None => t.prev_named_sibling(n),
        },
    }
}

/// The selection after `cmd` from the node `n`: the first choice of the
/// command's fallback chain that exists, else `n` unchanged.
pub fn next_selection(t: &SyntaxTree, n: usize, cmd: Command) -> (r: usize)
    requires
        t.wf(),
        n < t.nodes@.len(),
    ensures
        r == spec_next_selection(*t, n, cmd),
        r < t.nodes@.len(),
{
    match step_exec(t, n, cmd) {
        Some(m) => m,
        None => n,
    }
}

/// The selection `sel`, replaced by the step of `cmd` from `hit` when `fired`
/// and that step exists.
pub open spec fn apply_if(t: SyntaxTree, hit: usize, sel: usize, fired: bool, cmd: Command) -> usize {
    if fired && step(t, hit, cmd) is Some {
        step(t, hit, cmd)->0
    } else {
        sel
    }
}

/// The selection carried into the next frame, when the frame's hit node is
/// `hit` and the given commands fired: each fired command is computed from
/// `hit`, in the order up, down, right, left, and the last one that moves
/// wins; with none, `hit` itself.
pub open spec fn spec_frame_selection(
    t: SyntaxTree,
    hit: usize,
    up: bool,
    down: bool,
    right: bool,
    left: bool,
) -> usize {
    let s1 = apply_if(t, hit, hit, up, Command::Up);
    let s2 = apply_if(t, hit, s1, down, Command::Down);
    let s3 = apply_if(t, hit, s2, right, Command::Right);
    apply_if(t, hit, s3, left, Command::Left)
}

/// The selection for the next frame from this frame's hit node and the
/// commands that fired in it.
pub fn frame_selection(t: &SyntaxTree, hit: usize, up: bool, down: bool, right: bool, left: bool) -> (r:
    usize)
    requires
        t.wf(),
        hit < t.nodes@.len(),
    ensures
        r == spec_frame_selection(*t, hit, up, down, right, left),
        r < t.nodes@.len(),
{
    let mut sel = hit;
    if up {
        if let Some(m) = step_exec(t, hit, Command::Up) {
            sel = m;
        }
    }
    if down {
        if let Some(m) = step_exec(t, hit, Command::Down) {
            sel = m;
        }
    }
    if right {
        if let Some(m) = step_exec(t, hit, Command::Right) {
            sel = m;
        }
    }
    if left {
        if let Some(m) = step_exec(t, hit, Command::Left) {
            sel = m;
        }
    }
    sel
}

/// Left from the root stays at the root: the root has no parent and no
/// previous sibling.
pub proof fn lemma_root_left_stays(t: SyntaxTree)
    requires
        t.wf(),
    ensures
        spec_next_selection(t, 0, Command::Left) == 0,
{
}

/// Down from a leaf that has no next named sibling, and whose parent has no
/// next named sibling, leaves the selection unchanged.
pub proof fn lemma_leaf_down_stays(t: SyntaxTree, n: usize)
    requires
        t.wf(),
        n < t.nodes@.len(),
        t.first_child_of(n) is None,
        t.next_named_sibling_of(n) is None,
        parent_next_named_sibling(t, n) is None,
    ensures
        spec_next_selection(t, n, Command::Down) == n,
{
    t.lemma_scan_forward(Some(n), false, n + 1);
    t.lemma_scan_forward(Some(n), true, n + 1);
    if t.first_named_child_of(n) is Some {
        let c = t.first_named_child_of(n)->0;
        assert(t.fits(c as int, Some(n), false));
    }
}

/// For a named node `n` with parent `p`, `p` has a first named child `c`;
/// Left from `c` returns to `p`, and so does Up, since `c` has no previous
/// named sibling.
pub proof fn lemma_first_named_child_returns(t: SyntaxTree, n: usize)
    requires
        t.wf(),
        0 < n < t.nodes@.len(),
        t.nodes@[n as int].named,
    ensures
        t.first_named_child_of(t.parent_of(n)->0) matches Some(c) && {
            &&& t.parent_of(c) == t.parent_of(n)
            &&& t.prev_named_sibling_of(c) is None
            &&& spec_next_selection(t, c, Command::Left) == t.parent_of(n)->0
            &&& spec_next_selection(t, c, Command::Up) == t.parent_of(n)->0
        },
{
    assert(t.nodes@[n as int].parent is Some);
    let p = t.parent_of(n)->0;
    t.lemma_scan_forward(Some(p), true, p + 1);
    assert(t.fits(n as int, Some(p), true));
    let c = t.first_named_child_of(p)->0;
    t.lemma_scan_backward(Some(p), true, c as int);
    if t.scan_backward(Some(p), true, c as int) is Some {
        let k = t.scan_backward(Some(p), true, c as int)->0;
        assert(t.fits(k as int, Some(p), true));
        if k == 0 {
            assert(t.nodes@[0].parent is None);
        } else {
            assert(t.nodes@[k as int].parent is Some);
        }
        assert(!t.fits(k as int, Some(p), true));
    }
}

/// Up from a node with a previous named sibling moves to that sibling; Left
/// from a node with a parent moves to the parent.
pub proof fn lemma_up_left_first_choices(t: SyntaxTree, n: usize)
    requires
        t.wf(),
        n < t.nodes@.len(),
    ensures
        t.prev_named_sibling_of(n) matches Some(s) ==> spec_next_selection(t, n, Command::Up) == s,
        t.parent_of(n) matches Some(p) ==> spec_next_selection(t, n, Command::Left) == p,
{
}

} // verus!
