use game_core::dock::{
    dock_placement, path_go_left, path_goes_left, DockingNode, Split, EVEN_SPLIT_BITS, VIEWPORT_WINDOW,
};
use game_core::ui::{char_to_atlas_pos, hash_location, Draggable, ResizeEdges, TextDirection};
use game_core::windows::{
    frame_layers, layer_tier, order_by_key, order_by_layer, press_focus, reorder_layers, TabList, UiWindows,
    WindowFocus,
};
use game_core::widgets::{dropdown_step, header_click};
use std::collections::HashSet;
use std::collections::HashMap;

fn leaf(w: u32) -> Box<DockingNode> {
    Box::new(DockingNode::Leaf { window: w })
}

fn node(split: Split, l: Box<DockingNode>, r: Box<DockingNode>) -> DockingNode {
    DockingNode::Node { split, extend_bits: EVEN_SPLIT_BITS, left: l, right: r }
}

fn leaves(t: &DockingNode) -> Vec<u32> {
    match t {
        DockingNode::Leaf { window } => vec![*window],
        DockingNode::Node { left, right, .. } => {
            let mut v = leaves(left);
            v.extend(leaves(right));
            v
        }
    }
}

fn sample() -> DockingNode {
    node(Split::Horizontal, leaf(1), Box::new(node(Split::Vertical, leaf(2), leaf(3))))
}

#[test]
fn dock_contains_and_default() {
    let t = sample();
    assert!(t.contains(1));
    assert!(t.contains(3));
    assert!(!t.contains(4));
    match DockingNode::default() {
        DockingNode::Leaf { window } => assert_eq!(window, VIEWPORT_WINDOW),
        _ => panic!("default is a leaf"),
    }
    assert_eq!(Split::Horizontal.to_bytes(), 0);
    assert_eq!(Split::Vertical.to_bytes(), 1);
}

#[test]
fn undock_collapses_the_parent() {
    let mut t = sample();
    assert!(!t.undock(2));
    assert_eq!(leaves(&t), vec![1, 3]);
    match &t {
        DockingNode::Node { split, right, .. } => {
            assert_eq!(*split, Split::Horizontal);
            assert!(matches!(**right, DockingNode::Leaf { window: 3 }));
        }
        _ => panic!("root stays a node"),
    }
    assert!(!t.undock(1));
    assert_eq!(leaves(&t), vec![3]);
    assert!(matches!(t, DockingNode::Leaf { window: 3 }));
    // the last leaf is reported empty and kept
    assert!(t.undock(3));
    assert_eq!(leaves(&t), vec![3]);
    // a window that is not docked changes nothing
    let mut t = sample();
    assert!(!t.undock(9));
    assert_eq!(leaves(&t), vec![1, 2, 3]);
}

#[test]
fn remap_renames_leaves() {
    let mut m = HashMap::new();
    m.insert(1u32, 0u32);
    m.insert(3u32, 1u32);
    let t = sample().remap(&m);
    assert_eq!(leaves(&t), vec![0, 2, 1]);
}

#[test]
fn insert_beside_and_placement() {
    let mut t = DockingNode::Leaf { window: 5 };
    t.insert_beside(6, Split::Vertical, true);
    assert_eq!(leaves(&t), vec![6, 5]);
    match &t {
        DockingNode::Node { split, extend_bits, .. } => {
            assert_eq!(*split, Split::Vertical);
            assert_eq!(f32::from_bits(*extend_bits), 0.5);
        }
        _ => panic!("expected a node"),
    }
    let mut t = DockingNode::Leaf { window: 5 };
    t.insert_beside(6, Split::Horizontal, false);
    assert_eq!(leaves(&t), vec![5, 6]);

    assert_eq!(dock_placement(false, false, false, true), Some((Split::Horizontal, false)));
    assert_eq!(dock_placement(false, true, false, false), Some((Split::Vertical, false)));
    assert_eq!(dock_placement(true, false, false, false), Some((Split::Vertical, true)));
    assert_eq!(dock_placement(false, false, true, false), Some((Split::Horizontal, true)));
    assert_eq!(dock_placement(true, false, false, true), Some((Split::Vertical, false)));
    assert_eq!(dock_placement(false, false, false, false), None);
}

#[test]
fn resize_paths() {
    let p = path_go_left(0, 0);
    assert_eq!(p, 1);
    let p = path_go_left(p, 2);
    assert_eq!(p, 0b101);
    assert!(path_goes_left(p, 0));
    assert!(!path_goes_left(p, 1));
    assert!(path_goes_left(p, 2));
    assert!(path_goes_left(u64::MAX, 63));
}

#[test]
fn window_slots_are_reused() {
    let mut t = UiWindows::from_windows(vec!["a", "b", "c"]);
    assert_eq!(t.windows, vec![Some("a"), Some("b"), Some("c")]);
    assert!(t.free_slots.is_empty());
    assert_eq!(t.remove(1), "b");
    assert_eq!(t.windows, vec![Some("a"), None, Some("c")]);
    assert_eq!(t.free_slots, vec![1]);
    t.append("d");
    assert_eq!(t.windows, vec![Some("a"), Some("d"), Some("c")]);
    assert!(t.free_slots.is_empty());
    t.append("e");
    assert_eq!(t.windows, vec![Some("a"), Some("d"), Some("c"), Some("e")]);
    // the most recently freed slot is taken first
    t.remove(0);
    t.remove(2);
    t.append("f");
    assert_eq!(t.windows, vec![None, Some("d"), Some("f"), Some("e")]);
    assert_eq!(t.free_slots, vec![0]);
}

#[test]
fn save_remap_numbers_open_windows() {
    let mut t = UiWindows::from_windows(vec![1, 2, 3, 4]);
    t.remove(1);
    let m = t.save_remap();
    assert_eq!(m.len(), 3);
    assert_eq!(m.get(&0), Some(&0));
    assert_eq!(m.get(&1), None);
    assert_eq!(m.get(&2), Some(&1));
    assert_eq!(m.get(&3), Some(&2));
}

#[test]
fn windows_are_ordered_by_layer() {
    assert_eq!(order_by_layer(&vec![Some(3), None, Some(1), Some(3)]), vec![2, 0, 3]);
    assert_eq!(order_by_layer(&vec![None, None]), Vec::<usize>::new());
    assert_eq!(order_by_key(&vec![Some(9), Some(2), None, Some(2)]), vec![1, 3, 0]);
}

#[test]
fn layers_are_reassigned_by_tier() {
    assert_eq!(layer_tier(true, true), 0);
    assert_eq!(layer_tier(true, false), 0);
    assert_eq!(layer_tier(false, false), 1);
    assert_eq!(layer_tier(false, true), 2);
    let slots = vec![Some((1u8, 5u32)), None, Some((0, 9)), Some((2, 0)), Some((1, 5))];
    assert_eq!(reorder_layers(&slots), vec![Some(1), None, Some(0), Some(3), Some(2)]);
    let slots = vec![Some((1u8, 7u32)), Some((1, 2))];
    assert_eq!(reorder_layers(&slots), vec![Some(1), Some(0)]);
}

#[test]
fn location_hash_values() {
    fn reference(file: &str, line: u32, col: u32) -> u64 {
        let mut h: u64 = 0xcbf29ce484222325;
        for b in file.bytes() {
            h ^= b as u64;
            h = h.wrapping_mul(0x100000003b4c61);
        }
        h ^= line as u64;
        h = h.wrapping_mul(0x100000003b4c61);
        h ^= col as u64;
        h.wrapping_mul(0x100000003b4c61)
    }
    let empty = 0xcbf29ce484222325u64.wrapping_mul(0x100000003b4c61).wrapping_mul(0x100000003b4c61);
    assert_eq!(hash_location("", 0, 0), empty);
    assert_eq!(hash_location("src/ui.rs", 12, 7), reference("src/ui.rs", 12, 7));
    assert_ne!(hash_location("a.rs", 1, 2), hash_location("a.rs", 2, 1));
}

#[test]
fn atlas_positions() {
    assert_eq!(char_to_atlas_pos('A'), (65 * 14, 0));
    assert_eq!(char_to_atlas_pos('\u{0101}'), (14, 30));
    assert_eq!(char_to_atlas_pos('\u{ffff}'), (255 * 14, 255 * 30));
    assert_eq!(char_to_atlas_pos('\u{1F600}'), (0, 0));
}

#[test]
fn text_directions_and_edges() {
    assert_eq!(TextDirection::default(), TextDirection::Right);
    assert_eq!(TextDirection::Right.advance(), (1, 0));
    assert_eq!(TextDirection::Left.advance(), (-1, 0));
    assert_eq!(TextDirection::Down.advance(), (0, 1));
    assert_eq!(TextDirection::Up.advance(), (0, -1));
    assert_eq!(TextDirection::Right.ascent(), (0, 1));
    assert_eq!(TextDirection::Left.ascent(), (0, -1));
    assert_eq!(TextDirection::Down.ascent(), (-1, 0));
    assert_eq!(TextDirection::Up.ascent(), (1, 0));
    let e = ResizeEdges::default();
    assert!(!e.any());
    let e = ResizeEdges { top: false, bottom: false, left: true, right: false };
    assert!(e.any());
    assert_ne!(Draggable::Element(1), Draggable::DragAndDrop(1));
    assert_eq!(Draggable::Window, Draggable::Window);
}

#[test]
fn tabs_detach_and_merge() {
    let mut t = TabList { tabs: vec!["a", "b", "c"], active_tab: 2 };
    assert!(t.drags_tab());
    assert_eq!(t.detach_tab(2), Some("c"));
    assert_eq!(t.tabs, vec!["a", "b"]);
    assert_eq!(t.active_tab, 1);
    let mut one = TabList { tabs: vec!["x"], active_tab: 0 };
    assert!(!one.drags_tab());
    assert_eq!(one.detach_tab(0), None);
    assert_eq!(one.tabs, vec!["x"]);
    t.merge_tabs(vec!["x", "y"]);
    assert_eq!(t.tabs, vec!["a", "b", "x", "y"]);
    assert_eq!(t.active_tab, 2);
    let mut first = TabList { tabs: vec![1, 2], active_tab: 0 };
    assert_eq!(first.detach_tab(0), Some(1));
    assert_eq!(first.active_tab, 0);
}

#[test]
fn header_click_collapses_and_reopens() {
    let mut collapsed: HashSet<u64> = HashSet::new();
    assert!(header_click(&mut collapsed, 7, false));
    assert!(collapsed.is_empty());
    assert!(!header_click(&mut collapsed, 7, true));
    assert!(collapsed.contains(&7));
    assert!(!header_click(&mut collapsed, 7, false));
    assert!(header_click(&mut collapsed, 9, false));
    assert!(header_click(&mut collapsed, 7, true));
    assert!(collapsed.is_empty());
}

#[test]
fn dropdown_opens_picks_and_closes() {
    // A click on the button opens the list; nothing is picked yet.
    assert_eq!(dropdown_step(None, 5, 0, true, None), (Some(5), 0));
    // Another element had the focus: the click takes it.
    assert_eq!(dropdown_step(Some(3), 5, 0, true, None), (Some(5), 0));
    // A pick in the open list selects it and closes the list.
    assert_eq!(dropdown_step(Some(5), 5, 0, false, Some(2)), (None, 2));
    // A click on the button of an open list closes it; a pick is ignored.
    assert_eq!(dropdown_step(Some(5), 5, 1, true, Some(2)), (None, 1));
    // A closed dropdown keeps the focus where it was.
    assert_eq!(dropdown_step(Some(3), 5, 1, false, Some(2)), (Some(3), 1));
}

#[test]
fn press_focuses_topmost_hovered_window() {
    assert_eq!(press_focus(&vec![false, true, true]), Some(1));
    assert_eq!(press_focus(&vec![true, false]), Some(0));
    assert_eq!(press_focus(&vec![false, false]), None);
    assert_eq!(press_focus(&vec![]), None);
}

#[test]
fn dock_at_any_leaf_then_undock_restores_tree() {
    for path in [vec![true], vec![false, true], vec![false, false]] {
        for before in [true, false] {
            let mut t = sample();
            t.dock_at(&path, 0, 9, Split::Vertical, before);
            assert!(t.contains(9));
            assert_eq!(leaves(&t).len(), 4);
            assert!(!t.undock(9));
            assert_eq!(format!("{:?}", t), format!("{:?}", sample()));
        }
    }
    // A path that stops at an inner node, or runs past a leaf, docks nothing.
    let mut t = sample();
    t.dock_at(&vec![false], 0, 9, Split::Horizontal, true);
    assert_eq!(format!("{:?}", t), format!("{:?}", sample()));
    t.dock_at(&vec![true, true], 0, 9, Split::Horizontal, true);
    assert_eq!(format!("{:?}", t), format!("{:?}", sample()));
}

#[test]
fn reorder_layers_ranks_by_tier() {
    // docked (tier 0), free (1), focused (2), with old layers that disagree
    let slots = vec![Some((2u8, 0u32)), Some((1, 9)), None, Some((0, 40)), Some((1, 3))];
    let layers = reorder_layers(&slots);
    assert_eq!(layers, vec![Some(3), Some(2), None, Some(0), Some(1)]);
    let mut taken: Vec<u32> = layers.iter().flatten().copied().collect();
    taken.sort();
    assert_eq!(taken, vec![0, 1, 2, 3]);
}

#[test]
fn focus_follows_presses_and_moves() {
    let mut f: WindowFocus<&str> = WindowFocus::new();
    assert_eq!(f.slot(), None);
    f.on_press(Some(2), "fresh");
    assert_eq!(f.holder, Some((2, "fresh")));
    f.holder = Some((2, "dragging"));
    f.on_press(Some(2), "fresh");
    assert_eq!(f.holder, Some((2, "dragging")));
    f.on_press(Some(0), "fresh");
    assert_eq!(f.holder, Some((0, "fresh")));
    f.move_focus(3, 1);
    assert_eq!(f.slot(), Some(0));
    f.move_focus(0, 4);
    assert_eq!(f.holder, Some((4, "fresh")));
    f.on_press(None, "fresh");
    assert_eq!(f.holder, None);
}

#[test]
fn frame_layers_put_docked_below_and_focused_on_top() {
    // windows 1 and 3 are docked, window 4 has the focus in the first frame
    let dock = node(Split::Horizontal, leaf(1), leaf(3));
    let layers = vec![Some(0u32), Some(5), None, Some(1), Some(2), Some(9)];
    let r = frame_layers(&layers, &dock, Some(4));
    assert_eq!(r, vec![Some(2), Some(1), None, Some(0), Some(4), Some(3)]);
    let r = frame_layers(&layers, &dock, None);
    assert_eq!(r, vec![Some(2), Some(1), None, Some(0), Some(3), Some(4)]);
}
