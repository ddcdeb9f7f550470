//! Application-side state and input logic: phases, drive entries, hit
//! testing, input-event mapping, the sidebar geometry and the file-type
//! analytics.

use vstd::prelude::*;

verus! {

use crate::tree::FileTree;
use crate::tree::NodeId;
use crate::layout::LayoutRect;
use crate::extensions::FileCategory;
use crate::extensions::categorize_extension;
use crate::geom::Rect;
use crate::geom::COORD_LIMIT;

/// Application state machine phases.
#[derive(Debug, PartialEq, Eq, Structural)]
pub enum AppPhase {
    /// Waiting for a path to scan.
    WaitingForPath,
    /// Scanning the filesystem.
    Scanning,
    /// Ready to render the treemap.
    Ready,
}

/// A mounted drive or volume offered for scanning.
#[derive(Debug, Clone)]
pub struct DriveEntry {
    pub label: String,
    pub path: String,
    pub total_bytes: u64,
    pub available_bytes: u64,
}

/// Mouse state tracking, in whole pixels.
#[derive(Debug)]
pub struct MouseState {
    pub x: i64,
    pub y: i64,
    pub left_pressed: bool,
    pub right_pressed: bool,
}

impl Default for MouseState {
    fn default() -> (m: MouseState)
        ensures
            m.x == 0 && m.y == 0 && !m.left_pressed && !m.right_pressed,
    {
        MouseState { x: 0, y: 0, left_pressed: false, right_pressed: false }
    }
}

/// Which mouse button an event names.
#[derive(Debug, Clone, Copy, PartialEq, Eq, Structural)]
pub enum MouseButtonKind {
    Left,
    Right,
    Back,
    Other,
}

/// Whether a button or key went down or up.
#[derive(Debug, Clone, Copy, PartialEq, Eq, Structural)]
pub enum PressState {
    Pressed,
    Released,
}

/// Which key an event names, reduced to what navigation reacts to.
#[derive(Debug, Clone, Copy, PartialEq, Eq, Structural)]
pub enum KeyKind {
    Backspace,
    Escape,
    Other,
}

/// Input action produced from raw input events.
#[derive(Debug, PartialEq, Eq, Structural)]
pub enum InputAction {
    /// Mouse moved to a new position.
    Hover { x: i64, y: i64 },
    /// Left click on a node: drill down.
    DrillDown { node: NodeId },
    /// Right click or backspace: navigate up.
    NavigateUp,
    /// Scroll for zoom.
    Zoom { delta: i64, x: i64, y: i64 },
    /// Window resized.
    Resize { width: u32, height: u32 },
    /// Nothing to do.
    Idle,
}

/// The point lies inside the rectangle (left/top inclusive).
pub open spec fn point_in(r: LayoutRect, x: int, y: int) -> bool {
    r.x <= x < r.x + r.w && r.y <= y < r.y + r.h
}

/// Find the rectangle under a point: the deepest one, since children are
/// appended after their ancestors.
#[verifier::loop_isolation(false)]
pub fn hit_test(layout_rects: &Vec<LayoutRect>, x: i64, y: i64) -> (r: Option<NodeId>)
    requires
        crate::cushion::raster_rects_ok(layout_rects@),
        -8 * COORD_LIMIT <= x <= 8 * COORD_LIMIT,
        -8 * COORD_LIMIT <= y <= 8 * COORD_LIMIT,
    ensures
        r is None ==> forall|j: int|
            0 <= j < layout_rects@.len() ==> !point_in(#[trigger] layout_rects@[j], x as int,
            y as int),
        r matches Some(n) ==> exists|j: int|
            0 <= j < layout_rects@.len() && point_in(#[trigger] layout_rects@[j], x as int,
            y as int) && layout_rects@[j].node == n && (forall|k: int|
                j < k < layout_rects@.len() ==> !point_in(
                    #[trigger] layout_rects@[k],
                    x as int,
                    y as int,
                )),
{
    let mut i: usize = layout_rects.len();
    while i > 0
        invariant
            i <= layout_rects@.len(),
            forall|k: int|
                i <= k < layout_rects@.len() ==> !point_in(
                    #[trigger] layout_rects@[k],
                    x as int,
                    y as int,
                ),
        decreases i,
    {
        i = i - 1;
        let rect = &layout_rects[i];
        if x >= rect.x && rect.x + rect.w > x && y >= rect.y && rect.y + rect.h > y {
            return Some(rect.node);
        }
    }
    None
}

/// Turn a mouse-button event into an action.
pub fn process_mouse_button(
    button: MouseButtonKind,
    state: PressState,
    mouse: &MouseState,
    layout_rects: &Vec<LayoutRect>,
) -> (a: InputAction)
    requires
        crate::cushion::raster_rects_ok(layout_rects@),
        -8 * COORD_LIMIT <= mouse.x <= 8 * COORD_LIMIT,
        -8 * COORD_LIMIT <= mouse.y <= 8 * COORD_LIMIT,
    ensures
        state == PressState::Released ==> a == InputAction::Idle,
        state == PressState::Pressed && (button == MouseButtonKind::Right || button
            == MouseButtonKind::Back) ==> a == InputAction::NavigateUp,
        state == PressState::Pressed && button == MouseButtonKind::Other ==> a
            == InputAction::Idle,
{
    if state == PressState::Released {
        return InputAction::Idle;
    }
    match button {
        MouseButtonKind::Left => {
            match hit_test(layout_rects, mouse.x, mouse.y) {
                Some(node) => InputAction::DrillDown { node },
                None => InputAction::Idle,
            }
        },
        MouseButtonKind::Back => InputAction::NavigateUp,
        MouseButtonKind::Right => InputAction::NavigateUp,
        MouseButtonKind::Other => InputAction::Idle,
    }
}

/// Turn a keyboard event into an action.
pub fn process_key(key: KeyKind, state: PressState) -> (a: InputAction)
    ensures
        a == (if state == PressState::Pressed && (key == KeyKind::Backspace || key
            == KeyKind::Escape) {
            InputAction::NavigateUp
        } else {
            InputAction::Idle
        }),
{
    if state == PressState::Released {
        return InputAction::Idle;
    }
    match key {
        KeyKind::Backspace => InputAction::NavigateUp,
        KeyKind::Escape => InputAction::NavigateUp,
        KeyKind::Other => InputAction::Idle,
    }
}

/// Identity of a clickable sidebar element.
#[derive(Debug, Clone)]
pub enum SidebarHitId {
    SelectDrive(String),
    CycleColorMode,
    VibrancyDown,
    VibrancyUp,
    VibrancyTrack,
    ToggleHoverInfo,
}

/// A clickable sidebar region.
#[derive(Debug, Clone)]
pub struct SidebarHitRegion {
    pub id: SidebarHitId,
    pub bounds: Rect,
}

/// Height of the sidebar panel for a number of visible drives: header,
/// drive rows, and the appearance controls.
pub fn sidebar_height(visible_drives: usize) -> (h: i64)
    requires
        visible_drives <= 12,
    ensures
        h == visible_drives * 32 + 204,
{
    let drives_h = visible_drives as i64 * 32;
    14 + 22 + drives_h + 8 + 24 + 38 + 18 + 36 + 36 + 8
}

/// The sidebar panel's screen rectangle for a viewport height and drive
/// count.
pub fn sidebar_panel_bounds(viewport_height: i64, drive_count: usize) -> (b: Rect)
    requires
        0 <= viewport_height <= COORD_LIMIT,
    ensures
        b.x == 8 && b.y == 8 && b.w == 188,
        b.h <= (if viewport_height - 8 >= 32 {
            viewport_height - 8
        } else {
            32int
        }),
{
    let visible_drives: usize = if drive_count < 12 {
        drive_count
    } else {
        12
    };
    let cap = if viewport_height - 8 >= 32 {
        viewport_height - 8
    } else {
        32
    };
    let raw = sidebar_height(visible_drives);
    let panel_h = if raw < cap {
        raw
    } else {
        cap
    };
    Rect { x: 8, y: 8, w: 188, h: panel_h }
}

/// Map a horizontal position on the vibrancy slider track to a vibrancy
/// value in thousandths, between 600 and 2000.
pub fn vibrancy_value_from_track_x(x: i64, track: Rect) -> (v: i64)
    requires
        -8 * COORD_LIMIT <= x <= 8 * COORD_LIMIT,
        -8 * COORD_LIMIT <= track.x <= 8 * COORD_LIMIT,
        0 <= track.w <= COORD_LIMIT,
    ensures
        600 <= v <= 2000,
{
    let span = if track.w >= 1 {
        track.w
    } else {
        1
    };
    let off = if x < track.x {
        0
    } else if x - track.x > span {
        span
    } else {
        x - track.x
    };
    proof {
        assert(0 <= off * 1000 <= span * 1000) by (nonlinear_arith)
            requires
                0 <= off <= span,
        ;
        vstd::arithmetic::div_mod::lemma_div_pos_is_pos(off as int * 1000, span as int);
        vstd::arithmetic::div_mod::lemma_div_is_ordered(
            off as int * 1000,
            span as int * 1000,
            span as int,
        );
        vstd::arithmetic::div_mod::lemma_div_multiples_vanish(1000int, span as int);
        assert(span as int * 1000 == (span as int) * 1000);
    }
    let t = off * 1000 / span;
    proof {
        assert(0 <= t * 1400 <= 1400000) by (nonlinear_arith)
            requires
                0 <= t <= 1000,
        ;
        vstd::arithmetic::div_mod::lemma_div_pos_is_pos(t as int * 1400, 1000int);
        vstd::arithmetic::div_mod::lemma_div_is_ordered(t as int * 1400, 1400000int, 1000int);
    }
    600 + t * 1400 / 1000
}

/// Analytics for the file-type breakdown panel.
pub struct Analytics {
    /// Total bytes per category, largest first.
    pub category_sizes: Vec<(FileCategory, u64)>,
    /// Total size of all files under the analyzed root.
    pub total_size: u64,
}

/// Whether `node` lies in the subtree under `root` (including the root
/// itself), by walking parent links, which always decrease.
#[verifier::loop_isolation(false)]
fn is_under(tree: &FileTree, node: NodeId, root: NodeId) -> (r: bool)
    requires
        tree.wf(),
        node.0 < tree.nodes@.len(),
        root.0 < tree.nodes@.len(),
{
    let mut cur = node;
    loop
        invariant
            tree.wf(),
            cur.0 < tree.nodes@.len(),
        decreases cur.0,
    {
        if cur.0 == root.0 {
            return true;
        }
        match tree.nodes[cur.index()].parent {
            Some(p) => {
                cur = p;
            },
            None => {
                return false;
            },
        }
    }
}

/// Compute the per-category byte totals of every file under `root`.
/// Sizes saturate; the result is sorted largest-first and lists only
/// categories that hold bytes.
#[verifier::loop_isolation(false)]
pub fn compute_analytics(tree: &FileTree, root: NodeId) -> (a: Analytics)
    requires
        tree.wf(),
        root.0 < tree.nodes@.len(),
    ensures
        a.category_sizes@.len() <= 16,
        forall|i: int, j: int|
            0 <= i <= j < a.category_sizes@.len() ==> (#[trigger] a.category_sizes@[i]).1 >= (
            #[trigger] a.category_sizes@[j]).1,
{
    let cats: [FileCategory; 16] = [
        FileCategory::Image,
        FileCategory::Video,
        FileCategory::Audio,
        FileCategory::Document,
        FileCategory::Ebook,
        FileCategory::Archive,
        FileCategory::Code,
        FileCategory::Executable,
        FileCategory::Config,
        FileCategory::Font,
        FileCategory::Installer,
        FileCategory::Asset3D,
        FileCategory::Backup,
        FileCategory::Database,
        FileCategory::DiskImage,
        FileCategory::Other,
    ];
    let mut sums: Vec<u64> = Vec::new();
    let mut c: usize = 0;
    while c < 16
        invariant
            c <= 16,
            sums@.len() == c,
        decreases 16 - c,
    {
        sums.push(0);
        c = c + 1;
    }
    let mut total_size: u64 = 0;
    let mut i: usize = 0;
    let len = tree.nodes.len();
    while i < len
        invariant
            len == tree.nodes@.len(),
            sums@.len() == 16,
        decreases len - i,
    {
        let node = &tree.nodes[i];
        if !node.is_dir && is_under(tree, NodeId(i as u32), root) {
            let eid = node.extension_id as usize;
            let ext_cat = if eid > 0 && eid < tree.extensions.len() {
                categorize_extension(crate::tree::cs_str(&tree.extensions[eid]))
            } else {
                FileCategory::Other
            };
            let slot: usize = match ext_cat {
                FileCategory::Image => 0,
                FileCategory::Video => 1,
                FileCategory::Audio => 2,
                FileCategory::Document => 3,
                FileCategory::Ebook => 4,
                FileCategory::Archive => 5,
                FileCategory::Code => 6,
                FileCategory::Executable => 7,
                FileCategory::Config => 8,
                FileCategory::Font => 9,
                FileCategory::Installer => 10,
                FileCategory::Asset3D => 11,
                FileCategory::Backup => 12,
                FileCategory::Database => 13,
                FileCategory::DiskImage => 14,
                FileCategory::Other => 15,
            };
            let sz = node.size;
            let cur = sums[slot];
            let updated = if cur > u64::MAX - sz {
                u64::MAX
            } else {
                cur + sz
            };
            sums[slot] = updated;
            total_size = if total_size > u64::MAX - sz {
                u64::MAX
            } else {
                total_size + sz
            };
        }
        i = i + 1;
    }
    // collect the non-empty categories, largest first
    let mut category_sizes: Vec<(FileCategory, u64)> = Vec::new();
    let mut taken: Vec<bool> = Vec::new();
    let mut t: usize = 0;
    while t < 16
        invariant
            t <= 16,
            taken@.len() == t,
        decreases 16 - t,
    {
        taken.push(false);
        t = t + 1;
    }
    let mut round: usize = 0;
    while round < 16
        invariant
            round <= 16,
            sums@.len() == 16,
            taken@.len() == 16,
            category_sizes@.len() <= round,
            forall|a2: int, b2: int|
                0 <= a2 <= b2 < category_sizes@.len() ==> (
                #[trigger] category_sizes@[a2]).1 >= (#[trigger] category_sizes@[b2]).1,
            forall|a2: int, k: int|
                0 <= a2 < category_sizes@.len() && 0 <= k < 16 && !(#[trigger] taken@[k]) ==> (
                #[trigger] category_sizes@[a2]).1 >= sums@[k],
        decreases 16 - round,
    {
        let mut best: usize = 16;
        let mut best_size: u64 = 0;
        let mut k: usize = 0;
        while k < 16
            invariant
                k <= 16,
                sums@.len() == 16,
                taken@.len() == 16,
                best <= 16,
                best < 16 ==> !taken@[best as int] && best_size == sums@[best as int],
                best == 16 ==> best_size == 0,
                forall|q: int| 0 <= q < k && !taken@[q] ==> sums@[q] <= best_size,
            decreases 16 - k,
        {
            if !taken[k] && sums[k] > best_size {
                best = k;
                best_size = sums[k];
            }
            k = k + 1;
        }
        if best == 16 || best_size == 0 {
            break ;
        }
        taken[best] = true;
        category_sizes.push((cats[best], best_size));
        round = round + 1;
        proof {
            assert(forall|a2: int|
                0 <= a2 < category_sizes@.len() - 1 ==> (#[trigger] category_sizes@[a2]).1
                    >= best_size);
        }
    }
    Analytics { category_sizes, total_size }
}

} // verus!
