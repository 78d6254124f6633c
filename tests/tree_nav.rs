use syntax_nav::builder::TreeBuilder;
use syntax_nav::cursor::TreeCursor;
use syntax_nav::navigate::{
    command_keys, command_of_key, frame_selection, next_selection, Command, Key,
};
use syntax_nav::render::{
    hit_node, indent_of, line_is_hit, render_level, render_lines, walk_tree, RenderLine,
};
use syntax_nav::tree::SyntaxTree;

const SRC: &str = "fn test() -> String { return \"Hello\"; }";

fn leaf(t: &mut SyntaxTree, parent: usize, kind: &str, named: bool) -> usize {
    t.add_node(parent, kind.to_string(), None, named, 0, 0).unwrap()
}

/// function -> return_statement -> string_literal
fn scenario_tree() -> SyntaxTree {
    let mut t = SyntaxTree::new(SRC.as_bytes().to_vec(), "function".to_string(), true, 0, SRC.len())
        .unwrap();
    let r = t
        .add_node(0, "return_statement".to_string(), Some("body".to_string()), true, 22, 37)
        .unwrap();
    t.add_node(r, "string_literal".to_string(), None, true, 29, 36).unwrap();
    t
}

/// 0 root: children 1 (named), 2 ";" (anonymous), 3 (named); 1 has child 4;
/// 3 has child 5 (added last).
fn branching_tree() -> SyntaxTree {
    let mut t = SyntaxTree::new(Vec::new(), "source_file".to_string(), true, 0, 0).unwrap();
    let a = leaf(&mut t, 0, "item_a", true);
    leaf(&mut t, 0, ";", false);
    let b = leaf(&mut t, 0, "item_b", true);
    leaf(&mut t, a, "inner_a", true);
    leaf(&mut t, b, "inner_b", true);
    t
}

fn nodes(lines: &[RenderLine]) -> Vec<usize> {
    lines.iter().map(|l| l.node).collect()
}

#[test]
fn scenario_function_return_string() {
    let t = scenario_tree();
    let mut sel = 0;
    assert_eq!(t.nodes[sel].kind, "function");
    sel = next_selection(&t, sel, Command::Right);
    assert_eq!(t.nodes[sel].kind, "return_statement");
    sel = next_selection(&t, sel, Command::Right);
    assert_eq!(t.nodes[sel].kind, "string_literal");
    sel = next_selection(&t, sel, Command::Left);
    assert_eq!(t.nodes[sel].kind, "return_statement");
    sel = next_selection(&t, sel, Command::Up);
    assert_eq!(t.nodes[sel].kind, "function");
    sel = next_selection(&t, sel, Command::Down);
    assert_eq!(t.nodes[sel].kind, "return_statement");
}

#[test]
fn render_lines_are_pre_order_with_depths() {
    let t = branching_tree();
    let lines = render_lines(&t);
    assert_eq!(nodes(&lines), vec![0, 1, 4, 2, 3, 5]);
    let depths: Vec<usize> = lines.iter().map(|l| l.depth).collect();
    assert_eq!(depths, vec![0, 1, 2, 1, 1, 2]);
}

#[test]
fn render_lines_of_scenario_tree() {
    let t = scenario_tree();
    let lines = render_lines(&t);
    assert_eq!(nodes(&lines), vec![0, 1, 2]);
    assert_eq!(lines[2].depth, 2);
}

#[test]
fn render_lines_of_single_root() {
    let t = SyntaxTree::new(Vec::new(), "source_file".to_string(), true, 0, 0).unwrap();
    let lines = render_lines(&t);
    assert_eq!(lines, vec![RenderLine { node: 0, depth: 0 }]);
}

#[test]
fn walk_tree_returns_cursor_to_root() {
    let t = branching_tree();
    let mut cur = TreeCursor::new(&t);
    let mut out = Vec::new();
    walk_tree(&t, &mut cur, &mut out);
    assert_eq!(cur.node(), 0);
    assert_eq!(cur.depth(), 0);
    assert_eq!(out.len(), 6);
}

#[test]
fn cursor_moves() {
    let t = branching_tree();
    let mut cur = TreeCursor::new(&t);
    assert!(!cur.goto_parent(&t));
    assert!(!cur.goto_next_sibling(&t));
    assert!(cur.goto_first_child(&t));
    assert_eq!((cur.node(), cur.depth()), (1, 1));
    assert!(cur.goto_next_sibling(&t));
    assert_eq!((cur.node(), cur.depth()), (2, 1));
    assert!(!cur.goto_first_child(&t));
    assert!(cur.goto_next_sibling(&t));
    assert!(cur.goto_first_child(&t));
    assert_eq!((cur.node(), cur.depth()), (5, 2));
    assert!(!cur.goto_next_sibling(&t));
    assert!(cur.goto_parent(&t));
    assert_eq!((cur.node(), cur.depth()), (3, 1));
}

#[test]
fn hit_node_falls_back_to_root() {
    let t = branching_tree();
    let lines = render_lines(&t);
    assert_eq!(hit_node(&lines, 99, &vec![false; lines.len()]), 0);
    assert_eq!(hit_node(&lines, 99, &Vec::new()), 0);
}

#[test]
fn hit_node_matches_selection() {
    let t = branching_tree();
    let lines = render_lines(&t);
    assert_eq!(hit_node(&lines, 4, &vec![false; lines.len()]), 4);
}

#[test]
fn hit_node_hover_wins_before_or_after_selection() {
    let t = branching_tree();
    let lines = render_lines(&t);
    // Lines are 0, 1, 4, 2, 3, 5: the selection 1 is line 1, the hover is line 4 (node 3).
    let mut hovered = vec![false; lines.len()];
    hovered[4] = true;
    assert_eq!(hit_node(&lines, 1, &hovered), 3);
    // A hover before the selected line still takes precedence.
    let mut hovered = vec![false; lines.len()];
    hovered[0] = true;
    assert_eq!(hit_node(&lines, 5, &hovered), 0);
}

#[test]
fn hover_takes_precedence_over_selection() {
    // A root with one child: the pointer over the root's line, the child selected.
    let mut t = SyntaxTree::new(Vec::new(), "root".to_string(), true, 0, 0).unwrap();
    let child = leaf(&mut t, 0, "child", true);
    let lines = render_lines(&t);
    assert_eq!(hit_node(&lines, child, &vec![true, false]), 0);
    assert_eq!(hit_node(&lines, child, &vec![false, false]), child);
    // With several hovered lines, the last one wins.
    assert_eq!(hit_node(&lines, 0, &vec![true, true]), child);
}

#[test]
fn selection_not_shown_falls_back_to_root() {
    let t = scenario_tree();
    let lines = render_lines(&t);
    assert_eq!(hit_node(&lines[..1].to_vec(), 2, &Vec::new()), 0);
}

#[test]
fn render_level_returns_cursor_to_parent() {
    let t = branching_tree();
    let mut cur = TreeCursor::new(&t);
    assert!(cur.goto_first_child(&t));
    assert_eq!((cur.node(), cur.depth()), (1, 1));
    let mut out = Vec::new();
    render_level(&t, &mut cur, &mut out);
    assert_eq!((cur.node(), cur.depth()), (0, 0));
    assert_eq!(nodes(&out), vec![1, 4, 2, 3, 5]);
    // From a deeper level the cursor comes back one level up.
    let mut cur = TreeCursor::new(&t);
    assert!(cur.goto_first_child(&t));
    assert!(cur.goto_next_sibling(&t));
    assert!(cur.goto_next_sibling(&t));
    assert!(cur.goto_first_child(&t));
    let mut out = Vec::new();
    render_level(&t, &mut cur, &mut out);
    assert_eq!((cur.node(), cur.depth()), (3, 1));
    assert_eq!(out, vec![RenderLine { node: 5, depth: 2 }]);
}

#[test]
fn line_highlighting() {
    let line = RenderLine { node: 3, depth: 1 };
    assert!(line_is_hit(&line, 3, false));
    assert!(line_is_hit(&line, 0, true));
    assert!(!line_is_hit(&line, 0, false));
}

#[test]
fn root_left_stays() {
    let t = branching_tree();
    assert_eq!(next_selection(&t, 0, Command::Left), 0);
    assert_eq!(next_selection(&t, 0, Command::Up), 0);
}

#[test]
fn leaf_down_without_parent_sibling_stays() {
    let t = branching_tree();
    // Node 5 is a leaf, last child of node 3, which is the root's last child.
    assert_eq!(next_selection(&t, 5, Command::Down), 5);
    assert_eq!(next_selection(&t, 5, Command::Right), 5);
}

#[test]
fn first_named_child_left_and_up_return_to_parent() {
    let t = branching_tree();
    assert_eq!(next_selection(&t, 1, Command::Left), 0);
    assert_eq!(next_selection(&t, 1, Command::Up), 0);
    assert_eq!(next_selection(&t, 4, Command::Up), 1);
}

#[test]
fn up_prefers_previous_named_sibling() {
    let t = branching_tree();
    // The anonymous ";" between them is skipped.
    assert_eq!(next_selection(&t, 3, Command::Up), 1);
    assert_eq!(next_selection(&t, 3, Command::Left), 0);
}

#[test]
fn down_prefers_next_named_sibling_then_child_then_parent_sibling() {
    let t = branching_tree();
    assert_eq!(next_selection(&t, 1, Command::Down), 3);
    assert_eq!(next_selection(&t, 0, Command::Down), 1);
    assert_eq!(next_selection(&t, 4, Command::Down), 3);
}

#[test]
fn right_prefers_child_then_sibling_then_parent_sibling() {
    let t = branching_tree();
    assert_eq!(next_selection(&t, 1, Command::Right), 4);
    assert_eq!(next_selection(&t, 4, Command::Right), 3);
    let mut t2 = branching_tree();
    let c = leaf(&mut t2, 0, "item_c", true);
    assert_eq!(next_selection(&t2, 5, Command::Right), c);
    let d = leaf(&mut t2, 1, "inner_a2", true);
    assert_eq!(next_selection(&t2, 4, Command::Right), d);
}

#[test]
fn anonymous_node_moves_by_named_relations() {
    let t = branching_tree();
    assert_eq!(next_selection(&t, 2, Command::Down), 3);
    assert_eq!(next_selection(&t, 2, Command::Up), 1);
    assert_eq!(next_selection(&t, 2, Command::Left), 0);
}

#[test]
fn frame_selection_applies_fired_commands_from_hit() {
    let t = branching_tree();
    assert_eq!(frame_selection(&t, 3, false, false, false, false), 3);
    assert_eq!(frame_selection(&t, 3, true, false, false, false), 1);
    // Up and Left both fire: each from the hit node, the later one wins.
    assert_eq!(frame_selection(&t, 3, true, false, false, true), 0);
    // Down fires but has nowhere to go, so Up's result stands.
    assert_eq!(frame_selection(&t, 5, true, true, false, false), 3);
}

#[test]
fn keys_map_to_commands() {
    assert_eq!(command_of_key(Key::ArrowUp), Command::Up);
    assert_eq!(command_of_key(Key::K), Command::Up);
    assert_eq!(command_of_key(Key::ArrowDown), Command::Down);
    assert_eq!(command_of_key(Key::J), Command::Down);
    assert_eq!(command_of_key(Key::ArrowLeft), Command::Left);
    assert_eq!(command_of_key(Key::H), Command::Left);
    assert_eq!(command_of_key(Key::ArrowRight), Command::Right);
    assert_eq!(command_of_key(Key::L), Command::Right);
    assert_eq!(command_keys().len(), 8);
}

#[test]
fn tree_building_refuses_bad_input() {
    assert!(SyntaxTree::new(vec![1, 2], "x".to_string(), true, 1, 3).is_none());
    assert!(SyntaxTree::new(vec![1, 2], "x".to_string(), true, 2, 1).is_none());
    let mut t = SyntaxTree::new(vec![1, 2], "x".to_string(), true, 0, 2).unwrap();
    assert_eq!(t.add_node(5, "y".to_string(), None, true, 0, 1), None);
    assert_eq!(t.add_node(0, "y".to_string(), None, true, 0, 3), None);
    assert_eq!(t.nodes.len(), 1);
    assert_eq!(t.add_node(0, "y".to_string(), None, true, 0, 1), Some(1));
    assert_eq!(t.parent(1), Some(0));
    assert_eq!(t.parent(0), None);
}

#[test]
fn node_text_is_the_byte_range() {
    let t = scenario_tree();
    assert_eq!(t.node_text(2), b"\"Hello\"".to_vec());
    assert_eq!(t.node_text(0), SRC.as_bytes().to_vec());
}

#[test]
fn tree_relations() {
    let t = branching_tree();
    assert_eq!(t.first_child(0), Some(1));
    assert_eq!(t.next_sibling(1), Some(2));
    assert_eq!(t.next_named_sibling(1), Some(3));
    assert_eq!(t.prev_named_sibling(3), Some(1));
    assert_eq!(t.first_named_child(3), Some(5));
    assert_eq!(t.first_child(2), None);
    assert_eq!(t.next_sibling(0), None);
}

#[test]
fn indent_scales_with_depth() {
    assert_eq!(indent_of(0), 0);
    assert_eq!(indent_of(3), 60);
    assert_eq!(indent_of(usize::MAX), usize::MAX);
}

#[test]
fn builder_adds_nodes_in_walk_order() {
    let mut b = TreeBuilder::new(vec![0; 10], "root".to_string(), true, 0, 10).unwrap();
    assert_eq!(b.enter("a".to_string(), Some("name".to_string()), true, 0, 4), Some(1));
    assert_eq!(b.enter("a1".to_string(), None, true, 1, 2), Some(2));
    assert!(b.leave());
    assert!(b.leave());
    assert_eq!(b.enter("b".to_string(), None, false, 4, 10), Some(3));
    // A range beyond the source is refused.
    assert_eq!(b.enter("bad".to_string(), None, true, 4, 11), None);
    assert!(b.leave());
    assert!(b.leave());
    assert!(!b.leave());
    // With no open node there is no parent for a new one.
    assert_eq!(b.enter("c".to_string(), None, true, 0, 1), None);
    let t = b.finish();
    assert_eq!(t.nodes.len(), 4);
    assert_eq!(t.nodes[0].field_name, None);
    assert_eq!(t.parent(1), Some(0));
    assert_eq!(t.parent(2), Some(1));
    assert_eq!(t.parent(3), Some(0));
    assert_eq!(t.nodes[1].field_name.as_deref(), Some("name"));
    assert!(!t.nodes[3].named);
    let lines = render_lines(&t);
    assert_eq!(nodes(&lines), vec![0, 1, 2, 3]);
}

#[test]
fn builder_refuses_root_outside_source() {
    assert!(TreeBuilder::new(vec![0; 3], "root".to_string(), true, 0, 4).is_none());
}
