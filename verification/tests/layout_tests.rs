//! Tests for the layout engine: depth and draw-order structure, the
//! chain-collapse scenario, geometry filtering and the cushion ridge
//! arithmetic.

use sequoiaview_rs::aggregate::{aggregate_sizes, sort_children_by_size};
use sequoiaview_rs::layout::{
    add_ridge, collect_visible_children, compute_layout, compute_layout_lshape, pow_milli,
    rescale_exact, LayoutConfig,
};
use sequoiaview_rs::geom::Rect;
use sequoiaview_rs::tree::{FileNode, FileTree, NodeId};

fn file(name: &str, size: u64) -> FileNode {
    FileNode {
        name: sequoiaview_rs::tree::cs_new(name),
        size,
        is_dir: false,
        extension_id: 0,
        parent: None,
        children: Vec::new(),
        depth: 0,
    }
}

fn dir(name: &str) -> FileNode {
    FileNode {
        name: sequoiaview_rs::tree::cs_new(name),
        size: 0,
        is_dir: true,
        extension_id: 0,
        parent: None,
        children: Vec::new(),
        depth: 0,
    }
}

fn sample_tree() -> FileTree {
    let mut tree = FileTree::new("root");
    let docs = tree.add_child(NodeId(0), dir("docs"));
    tree.add_child(NodeId(0), file("movie.mkv", 400));
    tree.add_child(docs, file("paper.pdf", 300));
    tree.add_child(docs, file("notes.txt", 200));
    tree.add_child(NodeId(0), file("song.mp3", 100));
    aggregate_sizes(&mut tree);
    sort_children_by_size(&mut tree);
    tree
}

#[test]
fn ridge_coefficients_for_a_root_span() {
    // a root-level rectangle spanning 0..=1920 with ridge height 0.8
    let mut s1: i64 = 0;
    let mut s2: i64 = 0;
    add_ridge(0, 1920, 800, &mut s1, &mut s2);
    assert_eq!(s1, 3_200_000);
    assert_eq!(s2, -1666);
}

#[test]
fn ridge_on_degenerate_span_is_a_no_op() {
    let mut s1: i64 = 7;
    let mut s2: i64 = -9;
    add_ridge(100, 100, 800, &mut s1, &mut s2);
    assert_eq!(s1, 7);
    assert_eq!(s2, -9);
}

#[test]
fn layout_emits_root_first_with_positive_children() {
    let tree = sample_tree();
    let config = LayoutConfig::default();
    let layout = compute_layout(&tree, NodeId(0), 800, 600, &config);
    assert!(layout.rects.len() > 1);
    let root = layout.rects[0];
    assert_eq!(root.node, NodeId(0));
    assert_eq!(root.depth, 0);
    assert_eq!((root.x, root.y, root.w, root.h), (0, 0, 800, 600));
    for r in layout.rects.iter().skip(1) {
        assert!(r.w >= 1 && r.h >= 1);
    }
}

#[test]
fn every_rectangle_nests_in_an_earlier_shallower_one() {
    let tree = sample_tree();
    let config = LayoutConfig::default();
    let layout = compute_layout(&tree, NodeId(0), 800, 600, &config);
    for (j, r) in layout.rects.iter().enumerate().skip(1) {
        let found = layout.rects[..j].iter().any(|p| {
            p.depth < r.depth && p.x <= r.x && r.x + r.w <= p.x + p.w && p.y <= r.y && r.y + r.h
                <= p.y + p.h
        });
        assert!(found, "rectangle {} has no earlier enclosing ancestor", j);
    }
}

#[test]
fn dominant_child_collapses_to_the_full_inner_rectangle() {
    let mut tree = FileTree::new("root");
    let big = tree.add_child(NodeId(0), dir("cache"));
    tree.add_child(NodeId(0), file("a.txt", 5));
    tree.add_child(NodeId(0), file("b.txt", 5));
    tree.add_child(big, file("blob.bin", 990));
    aggregate_sizes(&mut tree);
    sort_children_by_size(&mut tree);
    let config = LayoutConfig::default();
    let layout = compute_layout(&tree, NodeId(0), 500, 400, &config);
    // the dominant directory takes the whole inner rectangle, not a
    // squarified sliver
    assert!(layout.rects.len() >= 2);
    let collapsed = layout.rects[1];
    assert_eq!(collapsed.node, big);
    assert_eq!((collapsed.x, collapsed.y, collapsed.w, collapsed.h), (0, 0, 500, 400));
    assert_eq!(collapsed.depth, 1);
}

#[test]
fn node_lookup_points_back_at_the_rectangle() {
    let tree = sample_tree();
    let config = LayoutConfig::default();
    let layout = compute_layout(&tree, NodeId(0), 800, 600, &config);
    for (node, idx) in layout.node_to_rect.iter() {
        assert_eq!(layout.rects[*idx].node.0, *node);
    }
    let hit = layout.rect_index_of(0).expect("root is always visible");
    assert_eq!(layout.rects[hit].node, NodeId(0));
}

#[test]
fn lshape_layout_keeps_the_root_and_structure() {
    let tree = sample_tree();
    let config = LayoutConfig::default();
    let excl = Rect { x: 0, y: 0, w: 200, h: 150 };
    let layout = compute_layout_lshape(&tree, NodeId(0), 800, 600, excl, &config);
    assert!(layout.rects.len() >= 1);
    assert_eq!(layout.rects[0].node, NodeId(0));
    for r in layout.rects.iter().skip(1) {
        assert!(r.w >= 1 && r.h >= 1);
        // children stay clear of the reserved corner
        assert!(r.x >= 208 || r.y >= 158);
    }
}

#[test]
fn rescaling_hits_the_target_exactly() {
    let scaled = rescale_exact(&vec![300, 200, 100], 999);
    assert_eq!(scaled.len(), 3);
    assert_eq!(scaled.iter().sum::<i64>(), 999);
    assert!(scaled[0] >= scaled[1] && scaled[1] >= scaled[2]);
}

#[test]
fn decay_powers_stay_in_range() {
    assert_eq!(pow_milli(1000, 7), 1000);
    assert_eq!(pow_milli(500, 2), 250);
    assert_eq!(pow_milli(920, 1), 920);
    assert_eq!(pow_milli(0, 3), 0);
}

#[test]
fn kept_children_cover_the_whole_inner_area() {
    let mut tree = FileTree::new("root");
    for k in 0..20 {
        tree.add_child(NodeId(0), file(&format!("f{}", k), 100 + k as u64));
    }
    aggregate_sizes(&mut tree);
    sort_children_by_size(&mut tree);
    let total = tree.get(NodeId(0)).size;
    let config = LayoutConfig::default();
    let (ids, areas) = collect_visible_children(&tree, NodeId(0), total, 44100, &config);
    assert_eq!(ids.len(), areas.len());
    assert!(!areas.is_empty());
    assert_eq!(areas.iter().sum::<i64>(), 44100);
    for w in areas.windows(2) {
        assert!(w[0] >= w[1]);
    }
}

#[test]
fn tail_truncation_still_covers_everything() {
    let mut tree = FileTree::new("root");
    // one dominant file and a long tail of tiny ones
    tree.add_child(NodeId(0), file("big.bin", 1_000_000));
    for k in 0..50 {
        tree.add_child(NodeId(0), file(&format!("tiny{}", k), 1));
    }
    aggregate_sizes(&mut tree);
    sort_children_by_size(&mut tree);
    let total = tree.get(NodeId(0)).size;
    let mut config = LayoutConfig::default();
    config.max_children_per_dir = 8;
    let (ids, areas) = collect_visible_children(&tree, NodeId(0), total, 250_000, &config);
    assert!(ids.len() <= 8);
    assert_eq!(areas.iter().sum::<i64>(), 250_000);
}

#[test]
fn rescaling_follows_the_exact_floor_plus_remainder_rule() {
    // total 500 rescaled to 1000: floors 600, 300, 100 sum to the target
    // exactly here, so the remainder spreads over the first zero items
    let scaled = rescale_exact(&vec![300, 150, 50], 1000);
    assert_eq!(scaled.iter().sum::<i64>(), 1000);
    assert_eq!(scaled, vec![600, 300, 100]);
    // an uneven target leaves a remainder for the largest items
    let uneven = rescale_exact(&vec![300, 150, 50], 999);
    assert_eq!(uneven, vec![599 + 1, 299 + 1, 99]);
}

#[test]
fn guard_cases_leave_only_the_root() {
    let tree = sample_tree();
    let mut config = LayoutConfig::default();
    config.max_depth = 0;
    let shallow = compute_layout(&tree, NodeId(0), 800, 600, &config);
    assert_eq!(shallow.rects.len(), 1);
    let config2 = LayoutConfig::default();
    let tiny = compute_layout(&tree, NodeId(0), 4, 4, &config2);
    assert_eq!(tiny.rects.len(), 1); // 16 px^2 is under the 49 px^2 floor
    let empty_tree = FileTree::new("root");
    let empty = compute_layout(&empty_tree, NodeId(0), 800, 600, &config2);
    assert_eq!(empty.rects.len(), 1); // aggregated size zero
}

#[test]
fn lookup_is_total_and_aligned() {
    let tree = sample_tree();
    let layout = compute_layout(&tree, NodeId(0), 800, 600, &LayoutConfig::default());
    assert_eq!(layout.node_to_rect.len(), layout.rects.len());
    for (i, entry) in layout.node_to_rect.iter().enumerate() {
        assert_eq!(entry.1, i);
        assert_eq!(entry.0, layout.rects[i].node.0);
    }
}
