//! Tests for the rasterizer: buffer shape, background and coverage.

use sequoiaview_rs::aggregate::{aggregate_sizes, sort_children_by_size};
use sequoiaview_rs::colors::ColorSettings;
use sequoiaview_rs::cushion::{isqrt, rasterize_cushions, CushionConfig};
use sequoiaview_rs::layout::{compute_layout, LayoutConfig};
use sequoiaview_rs::tree::{FileNode, FileTree, NodeId};

fn file(name: &str, size: u64) -> FileNode {
    FileNode {
        name: sequoiaview_rs::tree::cs_new(name),
        size,
        is_dir: false,
        extension_id: 0,
        parent: None,
        children: Vec::new(),
        depth: 0,
    }
}

#[test]
fn buffer_has_exactly_width_height_four_bytes() {
    let tree = FileTree::new("root");
    let layout = compute_layout(&tree, NodeId(0), 64, 48, &LayoutConfig::default());
    let buf = rasterize_cushions(
        64,
        48,
        &layout.rects,
        &tree,
        &CushionConfig::default(),
        &ColorSettings::default(),
    );
    assert_eq!(buf.len(), 64 * 48 * 4);
}

#[test]
fn zero_viewport_gives_an_empty_buffer() {
    let tree = FileTree::new("root");
    let layout = compute_layout(&tree, NodeId(0), 0, 0, &LayoutConfig::default());
    let buf = rasterize_cushions(
        0,
        16,
        &layout.rects,
        &tree,
        &CushionConfig::default(),
        &ColorSettings::default(),
    );
    assert_eq!(buf.len(), 0);
}

#[test]
fn covered_pixels_leave_the_background() {
    let mut tree = FileTree::new("root");
    tree.add_child(NodeId(0), file("movie.mkv", 600));
    tree.add_child(NodeId(0), file("song.mp3", 400));
    aggregate_sizes(&mut tree);
    sort_children_by_size(&mut tree);
    let layout = compute_layout(&tree, NodeId(0), 32, 32, &LayoutConfig::default());
    assert!(layout.rects.len() > 1);
    let buf = rasterize_cushions(
        32,
        32,
        &layout.rects,
        &tree,
        &CushionConfig::default(),
        &ColorSettings::default(),
    );
    let mut non_background = 0;
    for p in 0..(32 * 32) {
        let px = &buf[p * 4..p * 4 + 4];
        assert_eq!(px[3], 255);
        if (px[0], px[1], px[2]) != (20, 22, 28) {
            non_background += 1;
        }
    }
    assert!(non_background > 0);
}

#[test]
fn fast_and_full_modes_both_cover() {
    let mut tree = FileTree::new("root");
    tree.add_child(NodeId(0), file("blob.bin", 100));
    aggregate_sizes(&mut tree);
    sort_children_by_size(&mut tree);
    let layout = compute_layout(&tree, NodeId(0), 16, 16, &LayoutConfig::default());
    let mut fast_config = CushionConfig::default();
    fast_config.fast_lighting = true;
    let full = rasterize_cushions(
        16,
        16,
        &layout.rects,
        &tree,
        &CushionConfig::default(),
        &ColorSettings::default(),
    );
    let fast = rasterize_cushions(
        16,
        16,
        &layout.rects,
        &tree,
        &fast_config,
        &ColorSettings::default(),
    );
    assert_eq!(full.len(), 16 * 16 * 4);
    assert_eq!(fast.len(), 16 * 16 * 4);
    assert!(full.chunks(4).any(|p| (p[0], p[1], p[2]) != (20, 22, 28)));
    assert!(fast.chunks(4).any(|p| (p[0], p[1], p[2]) != (20, 22, 28)));
}

#[test]
fn integer_square_roots_are_exact() {
    assert_eq!(isqrt(0), 0);
    assert_eq!(isqrt(1), 1);
    assert_eq!(isqrt(3), 1);
    assert_eq!(isqrt(4), 2);
    assert_eq!(isqrt(1_000_000_000_000), 1_000_000);
    assert_eq!(isqrt(u64::MAX), 4_294_967_295);
}
