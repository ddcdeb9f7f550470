//! Tests for the arena tree, aggregation, sorting, navigation, tooltips,
//! colors and the MFT byte readers.

use sequoiaview_rs::aggregate::{aggregate_sizes, sort_children_by_size};
use sequoiaview_rs::colors::{hsv_to_rgb, mode_name, trim_leading_dots, AppColor, ColorMode};
use sequoiaview_rs::extensions::{categorize_extension, FileCategory};
use sequoiaview_rs::mft::{
    apply_fixups, is_mft_available, parse_data_runs, parse_mft_attributes, read_u16_le,
    read_u32_le, read_u48_le, read_u64_le,
};
use sequoiaview_rs::nav::NavigationState;
use sequoiaview_rs::tooltip::{build_path, build_tooltip, format_size, u64_to_string};
use sequoiaview_rs::tree::{cs_new, cs_str, FileNode, FileTree, NodeId};
use sequoiaview_rs::ui::{hit_test, sidebar_panel_bounds, vibrancy_value_from_track_x};

fn file(name: &str, size: u64) -> FileNode {
    FileNode {
        name: cs_new(name),
        size,
        is_dir: false,
        extension_id: 0,
        parent: None,
        children: Vec::new(),
        depth: 0,
    }
}

fn dir(name: &str) -> FileNode {
    FileNode {
        name: cs_new(name),
        size: 0,
        is_dir: true,
        extension_id: 0,
        parent: None,
        children: Vec::new(),
        depth: 0,
    }
}

#[test]
fn aggregation_sums_children_bottom_up() {
    let mut tree = FileTree::new("root");
    let sub = tree.add_child(NodeId(0), dir("sub"));
    tree.add_child(sub, file("a", 30));
    tree.add_child(sub, file("b", 12));
    tree.add_child(NodeId(0), file("c", 8));
    aggregate_sizes(&mut tree);
    assert_eq!(tree.get(sub).size, 42);
    assert_eq!(tree.get(NodeId(0)).size, 50);
}

#[test]
fn children_sort_largest_first() {
    let mut tree = FileTree::new("root");
    tree.add_child(NodeId(0), file("small", 1));
    tree.add_child(NodeId(0), file("large", 100));
    tree.add_child(NodeId(0), file("middle", 10));
    aggregate_sizes(&mut tree);
    sort_children_by_size(&mut tree);
    let kids = tree.children(NodeId(0));
    let sizes: Vec<u64> = kids.iter().map(|id| tree.get(*id).size).collect();
    assert_eq!(sizes, vec![100, 10, 1]);
}

#[test]
fn navigation_drills_and_returns() {
    let mut tree = FileTree::new("root");
    let sub = tree.add_child(NodeId(0), dir("sub"));
    let f = tree.add_child(sub, file("a", 1));
    let mut nav = NavigationState::new(NodeId(0));
    assert!(nav.drill_down(sub, &tree));
    assert_eq!(nav.current_root, sub);
    assert_eq!(nav.depth(), 1);
    // drilling into a file goes to its parent; already there, so nothing
    assert!(!nav.drill_down(f, &tree));
    assert!(nav.navigate_up());
    assert_eq!(nav.current_root, NodeId(0));
    assert!(!nav.navigate_up());
    nav.drill_down(sub, &tree);
    nav.navigate_home(NodeId(0));
    assert_eq!(nav.current_root, NodeId(0));
    assert_eq!(nav.depth(), 0);
}

#[test]
fn tooltip_paths_and_counts() {
    let mut tree = FileTree::new("C:");
    let sub = tree.add_child(NodeId(0), dir("games"));
    let f = tree.add_child(sub, file("save.dat", 2048));
    aggregate_sizes(&mut tree);
    assert_eq!(build_path(&tree, f), "C:\\games\\save.dat");
    let t = build_tooltip(&tree, sub);
    assert!(t.is_dir);
    assert_eq!(t.child_count, Some(1));
    assert_eq!(t.name, "games");
    let tf = build_tooltip(&tree, f);
    assert!(!tf.is_dir);
    assert_eq!(tf.child_count, None);
    assert_eq!(tf.size_display, "2.0 KB");
}

#[test]
fn sizes_format_with_units() {
    assert_eq!(u64_to_string(0), "0");
    assert_eq!(u64_to_string(907), "907");
    assert_eq!(u64_to_string(12345678901234567890), "12345678901234567890");
    assert_eq!(format_size(0), "0 B");
    assert_eq!(format_size(999), "999 B");
    assert_eq!(format_size(1024), "1.0 KB");
    assert_eq!(format_size(1536), "1.5 KB");
    assert_eq!(format_size(1048576), "1.00 MB");
    assert_eq!(format_size(5 * 1024 * 1024 * 1024), "5.00 GB");
    assert_eq!(format_size(1024 * 1024 * 1024 * 1024), "1.00 TB");
}

#[test]
fn extensions_map_to_their_categories() {
    assert_eq!(categorize_extension("jpg"), FileCategory::Image);
    assert_eq!(categorize_extension("JPG"), FileCategory::Image);
    assert_eq!(categorize_extension("mkv"), FileCategory::Video);
    assert_eq!(categorize_extension("FLAC"), FileCategory::Audio);
    assert_eq!(categorize_extension("pdf"), FileCategory::Document);
    assert_eq!(categorize_extension("epub"), FileCategory::Ebook);
    assert_eq!(categorize_extension("7z"), FileCategory::Archive);
    assert_eq!(categorize_extension("rs"), FileCategory::Code);
    assert_eq!(categorize_extension("exe"), FileCategory::Executable);
    assert_eq!(categorize_extension("toml"), FileCategory::Config);
    assert_eq!(categorize_extension("woff2"), FileCategory::Font);
    assert_eq!(categorize_extension("deb"), FileCategory::Installer);
    assert_eq!(categorize_extension("gltf"), FileCategory::Asset3D);
    assert_eq!(categorize_extension("bak"), FileCategory::Backup);
    assert_eq!(categorize_extension("sqlite"), FileCategory::Database);
    assert_eq!(categorize_extension("iso"), FileCategory::DiskImage);
    assert_eq!(categorize_extension("whatisthis"), FileCategory::Other);
    assert_eq!(categorize_extension(""), FileCategory::Other);
}

#[test]
fn color_conversions_stay_in_range() {
    let c = hsv_to_rgb(527, 680, 920);
    assert!(c.r <= 1000 && c.g <= 1000 && c.b <= 1000);
    let lighter = AppColor::new(900, 900, 900).lighten(200);
    assert_eq!((lighter.r, lighter.g, lighter.b), (1000, 1000, 1000));
    let darker = AppColor::new(100, 150, 200).darken(150);
    assert_eq!((darker.r, darker.g, darker.b), (0, 0, 50));
    assert_eq!(mode_name(ColorMode::Category), "Category");
    assert_eq!(mode_name(ColorMode::CategoryExtension), "Cat+Ext");
    assert_eq!(mode_name(ColorMode::ExtensionHash), "Ext Hash");
}

#[test]
fn little_endian_readers_decode_exactly() {
    let data: Vec<u8> = vec![0x34, 0x12, 0x78, 0x56, 0xBC, 0x9A, 0xF0, 0xDE, 0x01];
    assert_eq!(read_u16_le(&data, 0), 0x1234);
    assert_eq!(read_u32_le(&data, 0), 0x5678_1234);
    assert_eq!(read_u64_le(&data, 0), 0xDEF0_9ABC_5678_1234);
    assert_eq!(read_u48_le(&data, 0), 0x9ABC_5678_1234);
    assert_eq!(read_u64_le(&data, 1), 0x01DE_F09A_BC56_7812);
}

#[test]
fn data_runs_decode_offsets_and_lengths() {
    // one run: header 0x21 = 1 length byte, 2 offset bytes
    let data: Vec<u8> = vec![0x21, 0x18, 0x34, 0x56, 0x00];
    let extents = parse_data_runs(&data, 4096).expect("one run");
    assert_eq!(extents.len(), 1);
    assert_eq!(extents[0].length, 0x18 * 4096);
    assert_eq!(extents[0].disk_offset, 0x5634 * 4096);
    // an empty run list is rejected
    assert!(parse_data_runs(&vec![0x00], 4096).is_none());
    assert!(!is_mft_available('c'));
}

#[test]
fn hit_test_finds_the_topmost_rectangle() {
    let mut tree = FileTree::new("root");
    tree.add_child(NodeId(0), file("movie.mkv", 600));
    tree.add_child(NodeId(0), file("song.mp3", 400));
    aggregate_sizes(&mut tree);
    sort_children_by_size(&mut tree);
    let layout = sequoiaview_rs::layout::compute_layout(
        &tree,
        NodeId(0),
        100,
        100,
        &sequoiaview_rs::layout::LayoutConfig::default(),
    );
    let inside = hit_test(&layout.rects, 1, 1).expect("point is inside the viewport");
    assert!(inside != NodeId(0) || layout.rects.len() == 1);
    assert_eq!(hit_test(&layout.rects, 5000, 5000), None);
}

#[test]
fn sidebar_geometry_is_stable() {
    let b = sidebar_panel_bounds(600, 3);
    assert_eq!((b.x, b.y, b.w), (8, 8, 188));
    assert!(b.h <= 592);
    let track = sequoiaview_rs::geom::Rect { x: 10, y: 0, w: 100, h: 10 };
    assert_eq!(vibrancy_value_from_track_x(10, track), 600);
    assert_eq!(vibrancy_value_from_track_x(110, track), 2000);
    assert_eq!(vibrancy_value_from_track_x(-50, track), 600);
}

#[test]
fn compact_names_round_trip() {
    let c = cs_new("hello.txt");
    assert_eq!(cs_str(&c), "hello.txt");
}

#[test]
fn mft_attributes_yield_the_decoded_name() {
    let mut record = vec![0u8; 512];
    // first attribute begins at 56
    record[20] = 56;
    let o = 56;
    // $FILE_NAME attribute, resident, value at offset 24 inside it
    record[o] = 0x30;
    record[o + 4] = 96;
    record[o + 8] = 0;
    record[o + 9] = 0;
    record[o + 20] = 24;
    let v = o + 24;
    // parent record reference 7, name "AB", win32 namespace
    record[v] = 7;
    record[v + 0x30] = 0xD2; // stored file size 1234
    record[v + 0x31] = 0x04;
    record[v + 0x40] = 2;
    record[v + 0x41] = 1;
    record[v + 0x42] = b'A';
    record[v + 0x44] = b'B';
    // terminator
    let t = o + 96;
    record[t] = 0xFF;
    record[t + 1] = 0xFF;
    record[t + 2] = 0xFF;
    record[t + 3] = 0xFF;
    let info = parse_mft_attributes(&record, false);
    assert_eq!(info.best_name.as_deref(), Some("AB"));
    assert_eq!(info.any_name.as_deref(), Some("AB"));
    assert_eq!(info.parent_record, Some(7));
    assert_eq!(info.file_name_size, 1234);
    assert!(!info.has_attribute_list);
    assert_eq!(info.data_size, None);
}

#[test]
fn fixups_restore_sector_tails() {
    let mut record = vec![0u8; 1024];
    // update sequence array at 48: count 3 (signature plus two entries)
    record[4] = 48;
    record[6] = 3;
    // signature 0xCDAB
    record[48] = 0xAB;
    record[49] = 0xCD;
    // stored original bytes for the two sector tails
    record[50] = 0x11;
    record[51] = 0x22;
    record[52] = 0x33;
    record[53] = 0x44;
    // both sector tails currently hold the signature
    record[510] = 0xAB;
    record[511] = 0xCD;
    record[1022] = 0xAB;
    record[1023] = 0xCD;
    record[100] = 0x77;
    assert!(apply_fixups(&mut record));
    assert_eq!((record[510], record[511]), (0x11, 0x22));
    assert_eq!((record[1022], record[1023]), (0x33, 0x44));
    // unrelated bytes stay put
    assert_eq!(record[100], 0x77);
    // a record that is too short is refused untouched
    let mut small = vec![9u8; 100];
    assert!(!apply_fixups(&mut small));
    assert_eq!(small, vec![9u8; 100]);
}

#[test]
fn extensions_intern_lowercased_and_deduplicated() {
    let mut tree = FileTree::new("root");
    let a = tree.intern_extension("PDF");
    let b = tree.intern_extension("pdf");
    let c = tree.intern_extension(".mp3");
    assert_eq!(a, b);
    assert_ne!(a, c);
    assert_eq!(cs_str(&tree.extensions[a as usize]), "pdf");
    assert_eq!(tree.intern_extension(""), 0); // the no-extension entry is index zero
}

#[test]
fn set_size_changes_only_the_one_node() {
    let mut tree = FileTree::new("root");
    let f = tree.add_child(NodeId(0), file("a", 5));
    tree.set_size(f, 99);
    assert_eq!(tree.get(f).size, 99);
    assert_eq!(tree.get(NodeId(0)).size, 0);
    assert_eq!(cs_str(&tree.get(f).name), "a");
}

#[test]
fn leading_dots_are_trimmed() {
    assert_eq!(trim_leading_dots(".tar.gz"), "tar.gz");
    assert_eq!(trim_leading_dots("..a"), "a");
    assert_eq!(trim_leading_dots("plain"), "plain");
    assert_eq!(trim_leading_dots("..."), "");
}
