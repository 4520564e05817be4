use swayward::elements::SizingMode;
use swayward::tiling_tree::{
    layouts_parallel, Direction, InsertTarget, Layout, NodeId, NodeKind, TilingTree, TitlebarState, TreeNode,
};

fn tree_with(windows: &[u64]) -> TilingTree {
    let mut tree = TilingTree::new();
    for w in windows {
        tree.add_tile(*w, InsertTarget::Focused, true, SizingMode::Normal, None);
    }
    tree
}

fn children(tree: &TilingTree, id: NodeId) -> Vec<NodeId> {
    match tree.node(id) {
        Some(TreeNode::Split { children, .. }) => children,
        _ => panic!("not a split"),
    }
}

fn layout(tree: &TilingTree, id: NodeId) -> Layout {
    match tree.node(id) {
        Some(TreeNode::Split { layout, .. }) => layout,
        _ => panic!("not a split"),
    }
}

fn window_order(tree: &TilingTree) -> Vec<u64> {
    tree.windows().into_iter().map(|(_, w)| w).collect()
}

fn n(i: u64) -> NodeId {
    NodeId(i)
}

#[test]
fn new_tree_is_empty() {
    let tree = TilingTree::new();
    assert!(tree.is_empty());
    assert_eq!(tree.focus(), None);
    assert_eq!(tree.root(), n(0));
    assert!(tree.is_split(n(0)));
    assert_eq!(children(&tree, n(0)), vec![]);
    assert_eq!(layout(&tree, n(0)), Layout::SplitH);
}

#[test]
fn add_tile_goes_after_the_focus() {
    let mut tree = tree_with(&[1, 2, 3]);
    assert_eq!(children(&tree, n(0)), vec![n(1), n(2), n(3)]);
    assert_eq!(tree.focus(), Some(n(3)));
    tree.activate_window(1);
    let id = tree.add_tile(4, InsertTarget::Focused, true, SizingMode::Normal, None);
    assert_eq!(id, n(4));
    assert_eq!(window_order(&tree), vec![1, 4, 2, 3]);
    assert_eq!(tree.focus(), Some(n(4)));
}

#[test]
fn add_tile_without_activation_keeps_focus() {
    let mut tree = tree_with(&[1, 2]);
    let id = tree.add_tile(3, InsertTarget::Node(n(1)), false, SizingMode::Normal, None);
    assert_eq!(window_order(&tree), vec![1, 3, 2]);
    assert_eq!(tree.focus(), Some(n(2)));
    assert_eq!(tree.focus_rank_for_window(3), Some(1));
    assert_eq!(id, n(3));
}

#[test]
fn add_fullscreen_tile_is_pending_fullscreen() {
    let mut tree = tree_with(&[1]);
    tree.add_tile(2, InsertTarget::Focused, true, SizingMode::Fullscreen, None);
    assert!(tree.is_pending_fullscreen(2));
    assert!(!tree.is_pending_fullscreen(1));
    assert_eq!(tree.fullscreen_window(), Some(2));
    tree.add_tile(3, InsertTarget::Focused, true, SizingMode::Maximized, None);
    assert!(tree.is_pending_maximized(3));
}

#[test]
fn remove_tile_returns_the_window() {
    let mut tree = tree_with(&[1, 2, 3]);
    assert_eq!(tree.remove_tile(2), Some(2));
    assert_eq!(window_order(&tree), vec![1, 3]);
    assert_eq!(tree.focus(), Some(n(3)));
    assert_eq!(tree.remove_tile(2), None);
}

#[test]
fn remove_focused_tile_focuses_most_recent() {
    let mut tree = tree_with(&[1, 2, 3]);
    tree.activate_window(1);
    tree.activate_window(3);
    assert_eq!(tree.remove_tile(3), Some(3));
    assert_eq!(tree.focus(), Some(n(1)));
}

#[test]
fn removing_every_window_clears_focus() {
    let mut tree = tree_with(&[1, 2]);
    tree.remove_tile(1);
    tree.remove_tile(2);
    assert!(tree.is_empty());
    assert_eq!(tree.focus(), None);
    assert_eq!(children(&tree, n(0)), vec![]);
}

#[test]
fn focus_moves_left_and_wraps() {
    let mut tree = tree_with(&[1, 2, 3]);
    assert!(tree.focus_left(false));
    assert_eq!(tree.focus(), Some(n(2)));
    assert!(tree.focus_left(false));
    assert_eq!(tree.focus(), Some(n(1)));
    assert!(tree.focus_left(false));
    assert_eq!(tree.focus(), Some(n(3)));
}

#[test]
fn focus_across_the_axis_finds_nothing() {
    let mut tree = tree_with(&[1, 2]);
    assert!(!tree.focus_up(false));
    assert_eq!(tree.focus(), Some(n(2)));
}

#[test]
fn focus_up_or_left_falls_back_to_left() {
    let mut tree = tree_with(&[1, 2]);
    tree.focus_up_or_left(false);
    assert_eq!(tree.focus(), Some(n(1)));
}

#[test]
fn focus_parent_and_child() {
    let mut tree = tree_with(&[1, 2]);
    assert!(tree.focus_parent());
    assert_eq!(tree.focus(), Some(n(0)));
    assert!(tree.root_is_focused());
    assert!(!tree.focus_parent());
    assert!(tree.focus_child());
    assert_eq!(tree.focus(), Some(n(2)));
}

#[test]
fn focus_next_prev_sibling_wraps() {
    let mut tree = tree_with(&[1, 2, 3]);
    assert!(tree.focus_next_prev_sibling(true, false));
    assert_eq!(tree.focus(), Some(n(1)));
    assert!(tree.focus_next_prev_sibling(false, false));
    assert_eq!(tree.focus(), Some(n(3)));
}

#[test]
fn focus_from_output_enters_near_side() {
    let mut tree = tree_with(&[1, 2, 3]);
    tree.activate_window(2);
    assert!(tree.focus_from_output_direction(Direction::Left));
    assert_eq!(tree.focus(), Some(n(3)));
    assert!(tree.focus_from_output_direction(Direction::Right));
    assert_eq!(tree.focus(), Some(n(1)));
    let mut empty = TilingTree::new();
    assert!(!empty.focus_from_output_direction(Direction::Left));
}

#[test]
fn move_right_steps_past_a_leaf() {
    let mut tree = tree_with(&[1, 2, 3]);
    tree.activate_window(1);
    assert!(tree.move_right());
    assert_eq!(window_order(&tree), vec![2, 1, 3]);
    assert_eq!(tree.focus(), Some(n(1)));
}

#[test]
fn move_left_at_the_edge_does_nothing() {
    let mut tree = tree_with(&[1, 2, 3]);
    tree.activate_window(1);
    assert!(!tree.move_left());
    assert_eq!(window_order(&tree), vec![1, 2, 3]);
}

#[test]
fn move_up_wraps_the_root() {
    let mut tree = tree_with(&[1, 2, 3]);
    tree.activate_window(2);
    assert!(tree.move_up());
    let root = tree.root();
    assert_eq!(layout(&tree, root), Layout::SplitV);
    let kids = children(&tree, root);
    assert_eq!(kids.len(), 2);
    assert_eq!(kids[0], n(2));
    assert_eq!(layout(&tree, kids[1]), Layout::SplitH);
    assert_eq!(children(&tree, kids[1]), vec![n(1), n(3)]);
    assert_eq!(tree.focus(), Some(n(2)));
}

#[test]
fn move_with_one_window_only_turns_the_root() {
    let mut tree = tree_with(&[1]);
    assert!(!tree.move_down());
    assert_eq!(layout(&tree, n(0)), Layout::SplitV);
    assert_eq!(children(&tree, n(0)), vec![n(1)]);
}

#[test]
fn move_into_a_neighbouring_container() {
    let mut tree = tree_with(&[1, 2, 3]);
    tree.activate_window(1);
    tree.nest_focused_window();
    // The root now holds a vertical split with 2 and 1, then 3.
    let kids = children(&tree, n(0));
    assert_eq!(kids.len(), 2);
    let nested = kids[0];
    assert_eq!(children(&tree, nested), vec![n(2), n(1)]);
    tree.activate_window(3);
    assert!(tree.move_left());
    assert_eq!(window_order(&tree), vec![2, 1, 3]);
    assert!(tree.contains_node(nested, n(3)));
}

#[test]
fn nest_and_unnest() {
    let mut tree = tree_with(&[1, 2, 3]);
    tree.activate_window(1);
    tree.nest_focused_window();
    let kids = children(&tree, n(0));
    assert_eq!(kids, vec![n(4), n(3)]);
    assert_eq!(layout(&tree, n(4)), Layout::SplitV);
    assert_eq!(children(&tree, n(4)), vec![n(2), n(1)]);
    tree.unnest_focused_window();
    assert_eq!(children(&tree, n(0)), vec![n(2), n(1), n(3)]);
    assert!(!tree.contains(n(4)));
}

#[test]
fn nest_two_windows_turns_their_parent() {
    let mut tree = tree_with(&[1, 2]);
    tree.activate_window(1);
    tree.nest_focused_window();
    assert_eq!(layout(&tree, n(0)), Layout::SplitV);
    assert_eq!(children(&tree, n(0)), vec![n(2), n(1)]);
}

#[test]
fn nest_or_unnest_left_nests_at_the_top() {
    let mut tree = tree_with(&[1, 2, 3]);
    tree.nest_or_unnest_window_left(Some(3));
    assert_eq!(tree.focus(), Some(n(3)));
    let kids = children(&tree, n(0));
    assert_eq!(kids.len(), 2);
    assert_eq!(children(&tree, kids[1]), vec![n(3), n(2)]);
}

#[test]
fn swap_nodes_errors() {
    let mut tree = tree_with(&[1, 2, 3]);
    assert_eq!(tree.swap_nodes(n(1), n(99)), Err("No matching node."));
    assert_eq!(tree.swap_nodes(n(1), n(1)), Err("Cannot swap a container with itself"));
    assert_eq!(tree.swap_nodes(n(0), n(1)), Err("Cannot swap ancestor and descendant"));
    assert_eq!(tree.swap_nodes(n(1), n(3)), Ok(()));
    assert_eq!(children(&tree, n(0)), vec![n(3), n(2), n(1)]);
}

#[test]
fn swap_into_tabs_hands_focus_over() {
    let mut tree = tree_with(&[1, 2, 3]);
    tree.activate_window(1);
    tree.nest_focused_window();
    assert!(tree.set_layout(n(4), Layout::Tabbed));
    tree.activate_window(3);
    assert_eq!(tree.swap_nodes(n(3), n(2)), Ok(()));
    assert_eq!(children(&tree, n(4)), vec![n(3), n(1)]);
    assert_eq!(children(&tree, n(0)), vec![n(4), n(2)]);
    assert_eq!(tree.focus(), Some(n(2)));
}

#[test]
fn move_subtree_to_index_clamps() {
    let mut tree = tree_with(&[1, 2, 3]);
    assert!(tree.move_subtree_to_index(n(1), 10));
    assert_eq!(window_order(&tree), vec![2, 3, 1]);
    assert_eq!(tree.focus(), Some(n(1)));
    assert!(!tree.move_subtree_to_index(n(1), 2));
    assert!(tree.move_subtree_to_first(n(1)));
    assert_eq!(window_order(&tree), vec![1, 2, 3]);
    assert!(!tree.move_subtree_to_first(n(0)));
}

#[test]
fn move_focused_to_last_moves_the_column() {
    let mut tree = tree_with(&[1, 2, 3]);
    tree.activate_window(1);
    assert_eq!(tree.active_column_idx(), 0);
    assert!(tree.move_focused_to_last());
    assert_eq!(window_order(&tree), vec![2, 3, 1]);
    assert_eq!(tree.active_column_idx(), 2);
}

#[test]
fn move_subtree_to_node_after_a_leaf() {
    let mut tree = tree_with(&[1, 2, 3]);
    assert!(tree.move_subtree_to_node(n(3), n(1)));
    assert_eq!(window_order(&tree), vec![1, 3, 2]);
    assert!(!tree.move_subtree_to_node(n(0), n(1)));
    assert!(!tree.move_subtree_to_node(n(2), n(2)));
}

#[test]
fn fullscreen_blocks_moves_inside_it() {
    let mut tree = tree_with(&[1, 2]);
    assert!(tree.set_fullscreen(2, true));
    assert_eq!(tree.fullscreen_window(), Some(2));
    assert!(tree.fullscreen_contains_window(2));
    assert!(!tree.fullscreen_contains_window(1));
    assert!(!tree.move_left());
    assert_eq!(window_order(&tree), vec![1, 2]);
    assert!(tree.set_fullscreen(2, false));
    assert_eq!(tree.fullscreen_window(), None);
}

#[test]
fn maximize_toggles() {
    let mut tree = tree_with(&[1]);
    assert!(tree.set_maximized(1, true));
    assert!(!tree.set_maximized(1, true));
    assert!(tree.is_pending_maximized(1));
    assert!(tree.set_maximized(1, false));
    assert!(!tree.set_maximized(9, true));
}

#[test]
fn internal_edges_border_siblings() {
    let tree = tree_with(&[1, 2, 3]);
    assert!(tree.is_internal_edge(2, Some(Direction::Left)));
    assert!(!tree.is_internal_edge(1, Some(Direction::Left)));
    assert!(tree.is_internal_edge(1, Some(Direction::Right)));
    assert!(!tree.is_internal_edge(2, Some(Direction::Up)));
    assert!(!tree.is_internal_edge(2, None));
}

#[test]
fn tab_title_focuses_the_active_tab() {
    let mut tree = tree_with(&[1, 2, 3]);
    tree.set_layout(n(0), Layout::Tabbed);
    assert_eq!(tree.tab_indicator_focus_target(1), Some(3));
    assert_eq!(tree.tab_indicator_focus_target(7), None);
}

#[test]
fn focus_history_ranks() {
    let mut tree = tree_with(&[1, 2, 3]);
    assert_eq!(tree.window_focus_history(), vec![3, 2, 1]);
    assert_eq!(tree.focus_rank_for_window(1), Some(2));
    tree.restore_focus_rank(1, 0);
    assert_eq!(tree.window_focus_history(), vec![1, 3, 2]);
    tree.restore_window_focus_history(&vec![2, 9, 2, 3]);
    assert_eq!(tree.window_focus_history(), vec![2, 3]);
    assert_eq!(tree.focus_rank_for_window(1), None);
}

#[test]
fn depth_and_branches() {
    let mut tree = tree_with(&[1, 2, 3]);
    tree.activate_window(1);
    tree.nest_focused_window();
    assert_eq!(tree.node_depth(n(0)), 0);
    assert_eq!(tree.node_depth(n(4)), 1);
    assert_eq!(tree.node_depth(n(1)), 2);
    assert_eq!(tree.root_branch(n(1)), Some(n(4)));
    assert_eq!(tree.non_root_parent_for_window(1), Some(n(4)));
    assert_eq!(tree.non_root_parent_for_window(3), None);
}

#[test]
fn depth_first_order() {
    let mut tree = tree_with(&[1, 2, 3]);
    tree.activate_window(1);
    tree.nest_focused_window();
    assert_eq!(tree.iter_depth_first(), vec![n(0), n(4), n(2), n(1), n(3)]);
    assert_eq!(tree.leaf_ids_in(n(4)), vec![n(2), n(1)]);
    assert_eq!(tree.windows_in(n(0)), vec![2, 1, 3]);
}

#[test]
fn parallel_layouts() {
    assert!(layouts_parallel(Layout::SplitH, Layout::Tabbed));
    assert!(layouts_parallel(Layout::Stacked, Layout::SplitV));
    assert!(!layouts_parallel(Layout::SplitH, Layout::SplitV));
}

#[test]
fn remove_undoes_add() {
    let mut tree = tree_with(&[1, 2, 3]);
    let before = window_order(&tree);
    let id = tree.add_tile(9, InsertTarget::Focused, false, SizingMode::Normal, None);
    assert_eq!(tree.remove_tile_node(id), Some(9));
    assert_eq!(window_order(&tree), before);
}

#[test]
fn swap_twice_restores() {
    let mut tree = tree_with(&[1, 2, 3, 4]);
    tree.activate_window(1);
    tree.nest_focused_window();
    let before = tree.iter_depth_first();
    assert_eq!(tree.swap_nodes(n(1), n(4)), Ok(()));
    assert_ne!(tree.iter_depth_first(), before);
    assert_eq!(tree.swap_nodes(n(1), n(4)), Ok(()));
    assert_eq!(tree.iter_depth_first(), before);
}

#[test]
fn reindex_back_restores() {
    let mut tree = tree_with(&[1, 2, 3, 4]);
    assert!(tree.move_subtree_to_index(n(2), 3));
    assert_eq!(window_order(&tree), vec![1, 3, 4, 2]);
    assert!(tree.move_subtree_to_index(n(2), 1));
    assert_eq!(window_order(&tree), vec![1, 2, 3, 4]);
}

#[test]
fn moves_keep_the_windows() {
    let mut tree = tree_with(&[1, 2, 3, 4]);
    let mut expected = window_order(&tree);
    expected.sort();
    for dir in [Direction::Up, Direction::Left, Direction::Down, Direction::Right, Direction::Left] {
        tree.move_focused_direction(dir);
        let mut now = window_order(&tree);
        now.sort();
        assert_eq!(now, expected);
    }
}

#[test]
fn visible_windows_follow_the_layout() {
    let mut tree = tree_with(&[1, 2, 3]);
    assert_eq!(tree.visible_window_count(), 3);
    assert_eq!(tree.visible_leaves(), vec![n(1), n(2), n(3)]);
    assert!(tree.set_layout(n(0), Layout::Tabbed));
    assert_eq!(tree.visible_leaves(), vec![n(3)]);
    tree.activate_window(1);
    assert_eq!(tree.visible_leaves(), vec![n(1)]);
    assert_eq!(tree.visible_window_count(), 1);
}

#[test]
fn visible_windows_under_fullscreen() {
    let mut tree = tree_with(&[1, 2]);
    assert!(tree.set_fullscreen(1, true));
    assert_eq!(tree.visible_leaves(), vec![n(1)]);
    assert_eq!(tree.visible_window_count(), 1);
    let empty = TilingTree::new();
    assert_eq!(empty.visible_window_count(), 0);
}

#[test]
fn titlebar_states() {
    let mut tree = tree_with(&[1, 2, 3]);
    tree.activate_window(1);
    tree.nest_focused_window();
    assert!(tree.set_layout(n(0), Layout::Tabbed));
    assert_eq!(tree.focus(), Some(n(1)));
    assert_eq!(tree.titlebar_state(n(1), true, false), TitlebarState::Focused);
    assert_eq!(tree.titlebar_state(n(1), false, false), TitlebarState::FocusedInactive);
    assert_eq!(tree.titlebar_state(n(2), true, false), TitlebarState::FocusedTabTitle);
    assert_eq!(tree.titlebar_state(n(3), true, false), TitlebarState::Unfocused);
    assert_eq!(tree.titlebar_state(n(3), true, true), TitlebarState::Urgent);
    let empty = TilingTree::new();
    assert_eq!(empty.titlebar_state(n(0), true, false), TitlebarState::Unfocused);
}

#[test]
fn workspace_layout_wraps_top_level_windows() {
    let mut tree = TilingTree::new();
    let first = tree.add_tile(1, InsertTarget::Focused, true, SizingMode::Normal, Some(Layout::Tabbed));
    assert_eq!(first, n(1));
    let kids = children(&tree, n(0));
    assert_eq!(kids.len(), 1);
    assert_eq!(layout(&tree, kids[0]), Layout::Tabbed);
    assert_eq!(children(&tree, kids[0]), vec![n(1)]);
    // A window added next to a window inside the tabs joins the tabs.
    let second = tree.add_tile(2, InsertTarget::Focused, true, SizingMode::Normal, Some(Layout::Tabbed));
    assert_eq!(children(&tree, kids[0]), vec![n(1), second]);
    assert_eq!(window_order(&tree), vec![1, 2]);
}

#[test]
fn removing_keeps_the_order_of_the_rest() {
    let mut tree = tree_with(&[1, 2, 3, 4]);
    tree.activate_window(2);
    tree.nest_focused_window();
    let before = window_order(&tree);
    assert_eq!(tree.remove_tile(3), Some(3));
    let expected: Vec<u64> = before.into_iter().filter(|w| *w != 3).collect();
    assert_eq!(window_order(&tree), expected);
}

#[test]
fn detach_and_attach_a_window() {
    let mut source = tree_with(&[1, 2, 3]);
    let (subtree, parent) = source.detach_subtree(n(2)).unwrap();
    assert_eq!(parent, Some(n(0)));
    assert_eq!(subtree.windows(), vec![2]);
    assert_eq!(window_order(&source), vec![1, 3]);
    assert!(!subtree.has_fullscreen());
    source.finish_subtree_detach(parent);
    assert_eq!(window_order(&source), vec![1, 3]);

    let mut target = tree_with(&[7, 8]);
    target.activate_window(7);
    let (top, remapped) = target.attach_subtree(subtree);
    assert_eq!(remapped, vec![(n(2), top)]);
    assert_eq!(window_order(&target), vec![7, 2, 8]);
    assert_eq!(target.focus(), Some(n(1)));
}

#[test]
fn detach_a_container_keeps_its_shape() {
    let mut source = tree_with(&[1, 2, 3]);
    source.activate_window(1);
    source.nest_focused_window();
    // The root now holds a vertical split with windows 2 and 1, then 3.
    let container = children(&source, n(0))[0];
    let (subtree, _) = source.detach_subtree(container).unwrap();
    assert_eq!(subtree.windows(), vec![2, 1]);
    assert_eq!(window_order(&source), vec![3]);

    let mut target = TilingTree::new();
    let (top, remapped) = target.attach_subtree_at(subtree, None);
    assert_eq!(remapped.len(), 3);
    assert_eq!(layout(&target, top), Layout::SplitV);
    assert_eq!(window_order(&target), vec![2, 1]);
    // An empty tree takes the focus of the subtree's most recent window.
    let focused = target.focus().unwrap();
    assert!(matches!(target.node(focused), Some(TreeNode::Leaf { window: 1 })));
}

#[test]
fn detach_the_root_takes_everything() {
    let mut source = tree_with(&[1, 2]);
    let (subtree, parent) = source.detach_subtree(n(0)).unwrap();
    assert_eq!(parent, None);
    assert_eq!(subtree.windows(), vec![1, 2]);
    assert!(source.is_empty());
    assert_eq!(layout(&source, n(0)), Layout::SplitH);
    assert!(source.detach_subtree(n(0)).is_none());
    assert!(source.detach_subtree(n(9)).is_none());
}

#[test]
fn swapping_root_modes() {
    let mut a = tree_with(&[1]);
    assert!(a.set_fullscreen(1, true));
    let mut b = tree_with(&[2]);
    let (mut first, _) = a.detach_subtree(n(1)).unwrap();
    let (mut second, _) = b.detach_subtree(n(1)).unwrap();
    assert!(first.has_fullscreen());
    first.swap_root_mode(&mut second);
    assert!(!first.has_fullscreen());
    assert!(second.has_fullscreen());
}

#[test]
fn nesting_trades_the_window_order() {
    let mut tree = tree_with(&[1, 2, 3]);
    tree.activate_window(1);
    tree.nest_focused_window();
    assert_eq!(window_order(&tree), vec![2, 1, 3]);
    tree.activate_window(2);
    tree.unnest_focused_window();
    assert_eq!(window_order(&tree), vec![1, 2, 3]);
}

#[test]
fn nest_or_unnest_left_trades_with_the_left_window() {
    let mut tree = tree_with(&[1, 2, 3]);
    tree.nest_or_unnest_window_left(Some(3));
    assert_eq!(window_order(&tree), vec![1, 3, 2]);
}

#[test]
fn swap_subtrees_between_trees() {
    let mut first = tree_with(&[1, 2, 3]);
    let mut second = tree_with(&[7, 8]);
    let swapped = first.swap_subtrees_with(n(2), &mut second, n(2));
    assert_eq!(swapped, Some((vec![(n(2), n(3))], vec![(n(2), n(4))])));
    assert_eq!(window_order(&first), vec![1, 8, 3]);
    assert_eq!(window_order(&second), vec![7, 2]);
    assert_eq!(first.swap_subtrees_with(n(0), &mut second, n(1)), None);
    assert_eq!(window_order(&first), vec![1, 8, 3]);
}

#[test]
fn swapping_a_maximized_window_with_a_container() {
    let mut tree = tree_with(&[1, 2, 3]);
    tree.activate_window(1);
    tree.nest_focused_window();
    // The root holds the vertical split n(4) with 2 and 1, then 3.
    assert!(tree.set_maximized(3, true));
    assert_eq!(tree.swap_nodes(n(3), n(4)), Ok(()));
    assert_eq!(children(&tree, n(0)), vec![n(3), n(4)]);
    // The window takes the container's plain mode; the container is not maximized.
    assert!(!tree.is_pending_maximized(3));
    assert_eq!(window_order(&tree), vec![3, 2, 1]);
}

#[test]
fn moving_out_of_and_into_a_container() {
    let mut tree = tree_with(&[1, 2, 3]);
    tree.activate_window(1);
    tree.nest_focused_window();
    tree.activate_window(2);
    // Right: out of the vertical split n(4), just before window 3.
    tree.swap_window_horizontal(true);
    assert_eq!(children(&tree, n(0)), vec![n(4), n(2), n(3)]);
    assert_eq!(window_order(&tree), vec![1, 2, 3]);
    // Left: into the split across the axis, after its focused window 1.
    tree.swap_window_horizontal(false);
    assert_eq!(children(&tree, n(4)), vec![n(1), n(2)]);
    assert_eq!(window_order(&tree), vec![1, 2, 3]);
}

#[test]
fn setting_title_formats() {
    let mut tree = tree_with(&[1, 2]);
    assert!(!tree.set_title_format(n(1), String::from("x")));
    assert_eq!(tree.title_format(n(0)), None);
    assert!(tree.set_title_format(n(0), String::from("[%title]")));
    assert_eq!(tree.title_format(n(0)).map(|f| f.as_str()), Some("[%title]"));
    assert!(tree.set_title_format(n(0), String::from("%title")));
    assert_eq!(tree.title_format(n(0)), None);
}

#[test]
fn window_of_a_leaf() {
    let tree = tree_with(&[5, 6]);
    assert_eq!(tree.window_for_node(n(2)), Some(6));
    assert_eq!(tree.window_for_node(n(0)), None);
    assert_eq!(tree.window_for_node(n(9)), None);
}

#[test]
fn ipc_skeleton_reports_every_node_in_preorder() {
    let mut tree = tree_with(&[1, 2, 3]);
    tree.activate_window(1);
    tree.nest_focused_window();
    assert!(tree.set_title_format(n(4), String::from("[%title]")));
    let entries = tree.ipc_skeleton();
    let ids: Vec<NodeId> = entries.iter().map(|e| e.id).collect();
    assert_eq!(ids, vec![n(0), n(4), n(2), n(1), n(3)]);
    assert_eq!(entries[0].parent, None);
    assert_eq!(entries[1].parent, Some(n(0)));
    assert_eq!(entries[3].parent, Some(n(4)));
    assert_eq!(entries[1].kind, NodeKind::Split(Layout::SplitV));
    assert_eq!(entries[3].kind, NodeKind::Leaf(1));
    let focused: Vec<bool> = entries.iter().map(|e| e.focused).collect();
    assert_eq!(focused, vec![false, false, false, true, false]);
    // The split holding the focused window comes first, then the rest.
    assert_eq!(entries[0].focus, vec![n(4), n(3)]);
    assert_eq!(entries[1].focus, vec![n(1), n(2)]);
    assert_eq!(entries[2].focus, vec![]);
    assert_eq!(entries[1].title.as_deref(), Some("[%title]"));
    assert_eq!(entries[0].title, None);
    assert!(entries.iter().all(|e| e.fullscreen.is_none()));
}

#[test]
fn title_formats_outlive_other_edits() {
    let mut tree = tree_with(&[1, 2]);
    assert!(tree.set_title_format(n(0), String::from("<%title>")));
    tree.add_tile(3, InsertTarget::Focused, true, SizingMode::Normal, None);
    assert!(tree.move_left());
    tree.focus_parent();
    tree.remove_tile(2);
    assert_eq!(tree.title_format(n(0)).map(|f| f.as_str()), Some("<%title>"));
}
