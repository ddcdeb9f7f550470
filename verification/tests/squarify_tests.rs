//! Tests for the squarified packer: the regression cases plus area
//! conservation and tiling scenarios.

use sequoiaview_rs::geom::{squarify, Rect};

fn area_sum(rects: &[Rect]) -> i64 {
    rects.iter().map(|r| r.w * r.h).sum()
}

#[test]
fn single_item_fills_viewport_without_axis_swap() {
    let rects = squarify(&vec![1920 * 1080], 0, 0, 1920, 1080);
    assert_eq!(rects.len(), 1);
    let r = rects[0];
    assert!(r.w == 1920);
    assert!(r.h == 1080);
}

#[test]
fn layout_preserves_area_for_simple_case() {
    let areas = vec![400, 300, 200, 100];
    let rects = squarify(&areas, 0, 0, 50, 20);
    let total_in: i64 = areas.iter().sum();
    let total_out = area_sum(&rects);
    assert!(total_in == total_out);
}

#[test]
fn four_children_pack_into_fifty_by_twenty() {
    let areas = vec![400, 300, 200, 100];
    let rects = squarify(&areas, 0, 0, 50, 20);
    assert_eq!(rects.len(), 4);
    assert_eq!(area_sum(&rects), 1000);
    for r in &rects {
        assert!(r.w > 0);
        assert!(r.h > 0);
        assert!(r.x >= 0 && r.x + r.w <= 50);
        assert!(r.y >= 0 && r.y + r.h <= 20);
    }
}

#[test]
fn exact_tiling_when_areas_fill_the_rectangle() {
    let areas = vec![500, 300, 120, 60, 20];
    assert_eq!(areas.iter().sum::<i64>(), 1000);
    let rects = squarify(&areas, 7, -3, 40, 25);
    assert_eq!(rects.len(), 5);
    assert_eq!(area_sum(&rects), 1000);
}

#[test]
fn underfull_input_loses_less_than_the_short_side() {
    let areas = vec![70, 20, 9];
    let rects = squarify(&areas, 0, 0, 30, 10);
    let total_out = area_sum(&rects);
    assert!(total_out <= 99);
    assert!(99 - total_out < 10);
}

#[test]
fn degenerate_rectangle_yields_nothing() {
    let rects = squarify(&vec![100, 50], 0, 0, 0, 20);
    assert_eq!(rects.len(), 0);
}

#[test]
fn empty_area_list_yields_nothing() {
    let rects = squarify(&vec![], 0, 0, 100, 100);
    assert_eq!(rects.len(), 0);
}
