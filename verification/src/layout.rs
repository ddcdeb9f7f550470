//! The treemap layout engine: recursive squarified packing per directory,
//! with level-of-detail culling, single-child chain collapsing, nested
//! frame and header insets, and cushion surface-coefficient accumulation.

use vstd::prelude::*;

verus! {

use crate::geom::COORD_LIMIT;
use crate::geom::AREA_LIMIT;
use crate::tree::FileTree;
use crate::tree::NodeId;
use crate::geom::total_of;
use crate::geom::lemma_total_of_push;
use crate::geom::lemma_total_of_nonneg;

/// One ridge contribution never exceeds this many micro-units, so a stack
/// of ridges stays far from overflowing an `i64`.
pub const RIDGE_STEP: i64 = 110_000_000_000_000;

/// Deepest nesting a configuration may ask for. Keeps accumulated surface
/// coefficients bounded.
pub const DEPTH_LIMIT: u16 = 1024;

/// Cushion ridge heights are given in thousandths; this is the largest
/// accepted height (a thousand times the usual paper value).
pub const HEIGHT_LIMIT: i64 = 100000;

/// Accumulated cushion surface coefficients, in millionths: the height
/// field is `z(x, y) = sx1*x + sx2*x^2 + sy1*y + sy2*y^2` after dividing
/// each coefficient by one million.
#[derive(Clone, Copy, Debug, PartialEq, Eq, Structural)]
pub struct Surface {
    pub sx1: i64,
    pub sx2: i64,
    pub sy1: i64,
    pub sy2: i64,
}

impl Surface {
    /// The flat surface: no ridges yet.
    pub fn flat() -> (s: Surface)
        ensures
            s == (Surface { sx1: 0i64, sx2: 0i64, sy1: 0i64, sy2: 0i64 }),
    {
        Surface { sx1: 0, sx2: 0, sy1: 0, sy2: 0 }
    }
}

/// Every coefficient is bounded by `steps` ridge contributions.
pub open spec fn surf_bounded(s: Surface, steps: int) -> bool {
    &&& -steps * RIDGE_STEP <= s.sx1 <= steps * RIDGE_STEP
    &&& -steps * RIDGE_STEP <= s.sx2 <= steps * RIDGE_STEP
    &&& -steps * RIDGE_STEP <= s.sy1 <= steps * RIDGE_STEP
    &&& -steps * RIDGE_STEP <= s.sy2 <= steps * RIDGE_STEP
}

/// Truncating division for a signed numerator and positive denominator,
/// matching machine division.
pub open spec fn div_trunc(a: int, b: int) -> int {
    if a >= 0 {
        a / b
    } else {
        -((-a) / b)
    }
}

/// The linear coefficient one ridge over `[lo, hi]` with height `h`
/// thousandths adds: `4*h*(hi+lo)/(hi-lo)` in millionths.
pub open spec fn ridge_linear(lo: int, hi: int, h: int) -> int {
    if hi - lo < 1 {
        0
    } else {
        div_trunc(4 * h * (hi + lo) * 1000, hi - lo)
    }
}

/// The quadratic coefficient the same ridge adds: `-4*h/(hi-lo)` in
/// millionths.
pub open spec fn ridge_quad(lo: int, hi: int, h: int) -> int {
    if hi - lo < 1 {
        0
    } else {
        -((4 * h * 1000) / (hi - lo))
    }
}

/// Add one cushion ridge along one axis, spanning `[lo, hi]` with height
/// `h_milli` thousandths: the incremental coefficient update of van Wijk
/// and van de Wetering's cushion treemaps. A degenerate span contributes
/// nothing.
pub fn add_ridge(lo: i64, hi: i64, h_milli: i64, s1: &mut i64, s2: &mut i64)
    requires
        -4 * COORD_LIMIT <= lo <= 4 * COORD_LIMIT,
        -4 * COORD_LIMIT <= hi <= 4 * COORD_LIMIT,
        0 <= h_milli <= HEIGHT_LIMIT,
        -(DEPTH_LIMIT + 1) * RIDGE_STEP <= *old(s1) <= (DEPTH_LIMIT + 1) * RIDGE_STEP,
        -(DEPTH_LIMIT + 1) * RIDGE_STEP <= *old(s2) <= (DEPTH_LIMIT + 1) * RIDGE_STEP,
    ensures
        *final(s1) == *old(s1) + ridge_linear(lo as int, hi as int, h_milli as int),
        *final(s2) == *old(s2) + ridge_quad(lo as int, hi as int, h_milli as int),
        -RIDGE_STEP <= ridge_linear(lo as int, hi as int, h_milli as int) <= RIDGE_STEP,
        -RIDGE_STEP <= ridge_quad(lo as int, hi as int, h_milli as int) <= 0,
{
    let denom = hi - lo;
    proof {
        if denom >= 1 {
            lemma_ridge_bounds(lo as int, hi as int, h_milli as int);
        }
    }
    if denom < 1 {
        return ;
    }
    let span = hi + lo;
    let lin: i64 = if span >= 0 {
        (4 * h_milli * span * 1000) / denom
    } else {
        -((4 * h_milli * (-span) * 1000) / denom)
    };
    let quad: i64 = (4 * h_milli * 1000) / denom;
    *s1 = *s1 + lin;
    *s2 = *s2 - quad;
}

/// The two ridge coefficients stay within one `RIDGE_STEP`, and every
/// partial product on the way there fits comfortably in a machine word.
proof fn lemma_ridge_bounds(lo: int, hi: int, h: int)
    requires
        -4 * COORD_LIMIT <= lo <= 4 * COORD_LIMIT,
        -4 * COORD_LIMIT <= hi <= 4 * COORD_LIMIT,
        0 <= h <= HEIGHT_LIMIT,
        hi - lo >= 1,
    ensures
        -RIDGE_STEP <= ridge_linear(lo, hi, h) <= RIDGE_STEP,
        -RIDGE_STEP <= ridge_quad(lo, hi, h) <= 0,
        0 <= 4 * h * (if hi + lo >= 0 {
            hi + lo
        } else {
            -(hi + lo)
        }) <= 104857600000,
        0 <= 4 * h * (if hi + lo >= 0 {
            hi + lo
        } else {
            -(hi + lo)
        }) * 1000 <= RIDGE_STEP,
        4 * h * (-(hi + lo)) * 1000 == -(4 * h * (hi + lo) * 1000),
{
    let d = hi - lo;
    let span = if hi + lo >= 0 {
        hi + lo
    } else {
        -(hi + lo)
    };
    assert(0 <= span <= 8 * COORD_LIMIT);
    assert(0 <= 4 * h * span <= 104857600000 && 0 <= 4 * h * span * 1000 <= 104857600000000
        && 4 * h * (-(hi + lo)) * 1000 == -(4 * h * (hi + lo) * 1000)) by (nonlinear_arith)
        requires
            0 <= h <= 100000 && 0 <= span <= 262144,
    ;
    vstd::arithmetic::div_mod::lemma_div_nonincreasing(4 * h * span * 1000, d);
    vstd::arithmetic::div_mod::lemma_div_pos_is_pos(4 * h * span * 1000, d);
    vstd::arithmetic::div_mod::lemma_div_nonincreasing(4 * h * 1000, d);
    vstd::arithmetic::div_mod::lemma_div_pos_is_pos(4 * h * 1000, d);
    assert(4 * h * 1000 <= RIDGE_STEP);
}

/// Immutable configuration for one layout pass. Lengths are whole pixels,
/// areas square pixels; decay factors, coverage targets and the
/// chain-collapse thresholds are thousandths.
#[derive(Clone, Copy, Debug)]
pub struct LayoutConfig {
    /// Minimum screen area (px^2) to lay out a directory's interior.
    pub min_area: i64,
    /// Minimum side length (px) to render a node.
    pub min_side: i64,
    /// Minimum side length (px) required before recursing into a directory.
    pub recurse_min_side: i64,
    /// Base padding between siblings (px).
    pub padding: i64,
    /// Per-level decay of the padding (thousandths; 1000 keeps it constant).
    pub padding_falloff_milli: i64,
    /// Directory frame thickness (px).
    pub dir_frame_px: i64,
    /// Directory header-band height (px).
    pub dir_header_px: i64,
    /// Per-level decay for frame and header (thousandths).
    pub dir_frame_falloff_milli: i64,
    /// Maximum recursion depth.
    pub max_depth: u16,
    /// Fractional area coverage to keep per directory before truncating the
    /// tail of small children (thousandths).
    pub child_coverage_milli: i64,
    /// Hard cap on visible children per directory.
    pub max_children_per_dir: usize,
    /// Target aspect ratio for the squarified packing (thousandths).
    pub aspect_tolerance_milli: i64,
    /// Initial cushion ridge height (thousandths).
    pub cushion_height_milli: i64,
    /// Per-level decay of the ridge height (thousandths).
    pub cushion_falloff_milli: i64,
    /// A child directory holding at least this share of the parent's bytes
    /// is a chain-collapse candidate (thousandths).
    pub chain_dominance_milli: i64,
    /// ... provided its siblings together hold at most this share
    /// (thousandths).
    pub chain_sibling_milli: i64,
}

impl LayoutConfig {
    /// The ranges under which a layout pass is well behaved.
    pub open spec fn wf(self) -> bool {
        &&& 0 <= self.min_area <= AREA_LIMIT
        &&& 0 <= self.min_side <= COORD_LIMIT
        &&& 0 <= self.recurse_min_side <= COORD_LIMIT
        &&& 0 <= self.padding <= COORD_LIMIT
        &&& 0 <= self.padding_falloff_milli <= 1000
        &&& 0 <= self.dir_frame_px <= COORD_LIMIT
        &&& 0 <= self.dir_header_px <= COORD_LIMIT
        &&& 0 <= self.dir_frame_falloff_milli <= 1000
        &&& self.max_depth <= DEPTH_LIMIT
        &&& 0 <= self.child_coverage_milli <= 1000
        &&& 1 <= self.max_children_per_dir <= 100000
        &&& 0 <= self.cushion_height_milli <= HEIGHT_LIMIT
        &&& 0 <= self.cushion_falloff_milli <= 1000
        &&& 0 <= self.chain_dominance_milli <= 1000
        &&& 0 <= self.chain_sibling_milli <= 1000
    }
}

impl Default for LayoutConfig {
    /// Defaults tuned for readable million-node treemaps.
    fn default() -> (c: LayoutConfig)
        ensures
            c.wf(),
            c.min_area == 49,
            c.min_side == 6,
            c.recurse_min_side == 28,
            c.padding == 0,
            c.padding_falloff_milli == 1000,
            c.dir_frame_px == 2,
            c.dir_header_px == 16,
            c.dir_frame_falloff_milli == 920,
            c.max_depth == 64,
            c.child_coverage_milli == 995,
            c.max_children_per_dir == 1200,
            c.aspect_tolerance_milli == 1000,
            c.cushion_height_milli == 800,
            c.cushion_falloff_milli == 750,
            c.chain_dominance_milli == 980,
            c.chain_sibling_milli == 20,
    {
        LayoutConfig {
            min_area: 49,
            min_side: 6,
            recurse_min_side: 28,
            padding: 0,
            padding_falloff_milli: 1000,
            dir_frame_px: 2,
            dir_header_px: 16,
            dir_frame_falloff_milli: 920,
            max_depth: 64,
            child_coverage_milli: 995,
            max_children_per_dir: 1200,
            aspect_tolerance_milli: 1000,
            cushion_height_milli: 800,
            cushion_falloff_milli: 750,
            chain_dominance_milli: 980,
            chain_sibling_milli: 20,
        }
    }
}

/// A decay factor in thousandths raised to a power, staying in
/// `[0, 1000]`.
pub open spec fn spec_pow_milli(f: int, e: int) -> int
    decreases e,
{
    if e <= 0 {
        1000
    } else {
        spec_pow_milli(f, e - 1) * f / 1000
    }
}

/// Raise a decay factor (thousandths) to a power by repeated scaling.
#[verifier::loop_isolation(false)]
pub fn pow_milli(factor: i64, exp: u16) -> (r: i64)
    requires
        0 <= factor <= 1000,
    ensures
        r == spec_pow_milli(factor as int, exp as int),
        0 <= r <= 1000,
{
    let mut r: i64 = 1000;
    let mut k: u16 = 0;
    while k < exp
        invariant
            k <= exp,
            0 <= r <= 1000,
            r == spec_pow_milli(factor as int, k as int),
        decreases exp - k,
    {
        proof {
            assert(0 <= r * factor <= 1000000) by (nonlinear_arith)
                requires
                    0 <= r <= 1000 && 0 <= factor <= 1000,
            ;
            vstd::arithmetic::div_mod::lemma_div_pos_is_pos((r as int) * (factor as int), 1000int);
            vstd::arithmetic::div_mod::lemma_div_is_ordered(
                (r as int) * (factor as int),
                1000000int,
                1000int,
            );
        }
        r = r * factor / 1000;
        k = k + 1;
    }
    r
}

/// One positioned, visible tree node in screen space.
#[derive(Clone, Copy, Debug, PartialEq, Eq, Structural)]
pub struct LayoutRect {
    /// The tree node this rectangle shows.
    pub node: NodeId,
    pub x: i64,
    pub y: i64,
    pub w: i64,
    pub h: i64,
    /// Nesting depth from the layout root (root = 0); a chain collapse
    /// advances it by one per collapsed level.
    pub depth: u16,
    /// Accumulated cushion coefficients of this rectangle and all of its
    /// ancestors.
    pub surface: Surface,
}

/// The full result of one layout pass.
pub struct Layout {
    /// All visible rectangles, root first, parents before children.
    pub rects: Vec<LayoutRect>,
    /// Raw node id to index into `rects`, one entry per rectangle.
    pub node_to_rect: Vec<(u32, usize)>,
}

impl Layout {
    /// The index into `rects` recorded for a node, if the node is
    /// visible.
    pub fn rect_index_of(&self, node: u32) -> (r: Option<usize>)
        requires
            map_wf(self.node_to_rect@, self.rects@),
        ensures
            r matches Some(ix) ==> ix < self.rects@.len() && self.rects@[ix as int].node.0
                == node,
            r is None ==> forall|k: int|
                0 <= k < self.rects@.len() ==> (#[trigger] self.rects@[k]).node.0 != node,
    {
        let mut k: usize = 0;
        while k < self.node_to_rect.len()
            invariant
                k <= self.node_to_rect@.len(),
                map_wf(self.node_to_rect@, self.rects@),
                forall|q: int| 0 <= q < k ==> (#[trigger] self.rects@[q]).node.0 != node,
            decreases self.node_to_rect@.len() - k,
        {
            let entry = self.node_to_rect[k];
            proof {
                assert(self.node_to_rect@[k as int].0 == self.rects@[k as int].node.0);
            }
            if entry.0 == node {
                return Some(entry.1);
            }
            k = k + 1;
        }
        None
    }
}

/// A node sits at the head of a collapsible link: it has exactly one
/// child and that child is a directory.
pub open spec fn single_dir_link(tree: FileTree, id: NodeId) -> bool {
    &&& tree.nodes@[id.0 as int].children@.len() == 1
    &&& tree.nodes@[tree.nodes@[id.0 as int].children@[0].0 as int].is_dir
}

/// The terminal of the single-directory chain starting at `id`, together
/// with the number of links walked to reach it.
pub open spec fn spec_chain_end(tree: FileTree, id: NodeId) -> (NodeId, int)
    decreases tree.nodes@.len() - id.0 when tree.wf() && id.0 < tree.nodes@.len()
{
    if single_dir_link(tree, id) {
        let tail = spec_chain_end(tree, tree.nodes@[id.0 as int].children@[0]);
        (tail.0, tail.1 + 1)
    } else {
        (id, 0)
    }
}

/// Collapse a pure single-directory chain (a directory whose only child
/// is a directory, and so on) into its terminal directory, returning it
/// together with the number of levels skipped. This removes repeated
/// full-rectangle nesting that would otherwise draw as a stack of frames.
pub fn collapse_single_dir_chain(tree: &FileTree, start: NodeId) -> (r: (NodeId, usize))
    requires
        tree.wf(),
        start.0 < tree.nodes@.len(),
    ensures
        r.0.0 < tree.nodes@.len(),
        start.0 <= r.0.0,
        tree.nodes@[start.0 as int].is_dir ==> tree.nodes@[r.0.0 as int].is_dir,
        r.0 == spec_chain_end(*tree, start).0,
        r.1 as int == spec_chain_end(*tree, start).1,
{
    let mut node = start;
    let mut collapsed: usize = 0;
    loop
        invariant
            tree.wf(),
            node.0 < tree.nodes@.len(),
            start.0 <= node.0,
            collapsed <= node.0,
            tree.nodes@[start.0 as int].is_dir ==> tree.nodes@[node.0 as int].is_dir,
            spec_chain_end(*tree, start).0 == spec_chain_end(*tree, node).0,
            spec_chain_end(*tree, start).1 == spec_chain_end(*tree, node).1 + collapsed,
        ensures
            node.0 < tree.nodes@.len(),
            start.0 <= node.0,
            tree.nodes@[start.0 as int].is_dir ==> tree.nodes@[node.0 as int].is_dir,
            spec_chain_end(*tree, start).0 == node,
            spec_chain_end(*tree, start).1 == collapsed,
        decreases tree.nodes@.len() - node.0,
    {
        let kids = &tree.nodes[node.index()].children;
        if kids.len() != 1 {
            proof {
                assert(!single_dir_link(*tree, node));
            }
            break ;
        }
        let first = kids[0];
        if !tree.nodes[first.index()].is_dir {
            proof {
                assert(!single_dir_link(*tree, node));
            }
            break ;
        }
        proof {
            assert(single_dir_link(*tree, node));
            assert(spec_chain_end(*tree, node) == (
                spec_chain_end(*tree, first).0,
                spec_chain_end(*tree, first).1 + 1,
            ));
        }
        node = first;
        collapsed = collapsed + 1;
    }
    (node, collapsed)
}

/// The directory child holding the most bytes among the first `upto`
/// children (the earliest one on ties), with its size.
pub open spec fn spec_best_dir_child(tree: FileTree, parent: NodeId, upto: int) -> Option<
    (NodeId, u64),
>
    decreases upto,
{
    if upto <= 0 {
        None
    } else {
        let prev = spec_best_dir_child(tree, parent, upto - 1);
        let c = tree.nodes@[parent.0 as int].children@[upto - 1];
        if tree.nodes@[c.0 as int].is_dir {
            match prev {
                Option::None => Some((c, tree.nodes@[c.0 as int].size)),
                Option::Some(b) => if tree.nodes@[c.0 as int].size > b.1 {
                    Some((c, tree.nodes@[c.0 as int].size))
                } else {
                    prev
                },
            }
        } else {
            prev
        }
    }
}

/// Find the directory child of `parent` holding the most bytes, together
/// with its size and the saturating total size of all children. Returns
/// `None` when no child is a directory.
#[verifier::loop_isolation(false)]
pub fn dominant_dir_child(tree: &FileTree, parent: NodeId) -> (r: Option<(NodeId, u64, u64)>)
    requires
        tree.wf(),
        parent.0 < tree.nodes@.len(),
    ensures
        ({
            let best = spec_best_dir_child(
                *tree,
                parent,
                tree.nodes@[parent.0 as int].children@.len() as int,
            );
            let total = crate::aggregate::sat_u64(
                crate::aggregate::child_size_sum(
                    tree.nodes@,
                    parent.0 as int,
                    tree.nodes@[parent.0 as int].children@.len() as int,
                ),
            );
            match r {
                Option::None => best is None,
                Option::Some(d) => best == Some((d.0, d.1)) && d.2 == total,
            }
        }),
        r matches Some(d) ==> {
            &&& d.0.0 < tree.nodes@.len()
            &&& tree.nodes@[parent.0 as int].children@.contains(d.0)
            &&& tree.nodes@[d.0.0 as int].is_dir
            &&& d.1 == tree.nodes@[d.0.0 as int].size
            &&& forall|k: int|
                0 <= k < tree.nodes@[parent.0 as int].children@.len()
                    && tree.nodes@[(#[trigger] tree.nodes@[parent.0 as int].children@[k]).0 as int].is_dir
                    ==> tree.nodes@[tree.nodes@[parent.0 as int].children@[k].0 as int].size
                    <= d.1
        },
        r is None ==> forall|k: int|
            0 <= k < tree.nodes@[parent.0 as int].children@.len() ==> !tree.nodes@[(
            #[trigger] tree.nodes@[parent.0 as int].children@[k]).0 as int].is_dir,
{
    let pi = parent.index();
    let child_count = tree.nodes[pi].children.len();
    let mut best: Option<(NodeId, u64)> = None;
    let mut total: u64 = 0;
    let mut k: usize = 0;
    while k < child_count
        invariant
            k <= child_count,
            child_count == tree.nodes@[pi as int].children@.len(),
            pi == parent.0 as int,
            best == spec_best_dir_child(*tree, parent, k as int),
            total == crate::aggregate::sat_u64(
                crate::aggregate::child_size_sum(tree.nodes@, pi as int, k as int),
            ),
            best matches Some(b) ==> {
                &&& b.0.0 < tree.nodes@.len()
                &&& tree.nodes@[pi as int].children@.contains(b.0)
                &&& tree.nodes@[b.0.0 as int].is_dir
                &&& b.1 == tree.nodes@[b.0.0 as int].size
                &&& forall|q: int|
                    0 <= q < k && tree.nodes@[(
                    #[trigger] tree.nodes@[pi as int].children@[q]).0 as int].is_dir
                        ==> tree.nodes@[tree.nodes@[pi as int].children@[q].0 as int].size <= b.1
            },
            best is None ==> forall|q: int|
                0 <= q < k ==> !tree.nodes@[(
                #[trigger] tree.nodes@[pi as int].children@[q]).0 as int].is_dir,
        decreases child_count - k,
    {
        let child = tree.nodes[pi].children[k];
        let node_size = tree.nodes[child.index()].size;
        total = if total > u64::MAX - node_size {
            u64::MAX
        } else {
            total + node_size
        };
        if tree.nodes[child.index()].is_dir {
            best = match best {
                None => Some((child, node_size)),
                Some((bid, bsz)) => if node_size > bsz {
                    Some((child, node_size))
                } else {
                    Some((bid, bsz))
                },
            };
        }
        k = k + 1;
    }
    match best {
        None => None,
        Some((bid, bsz)) => Some((bid, bsz, total)),
    }
}

/// The proportional screen share of a child of byte size `sz` inside a
/// parent of size `p` spread over `t` square pixels, clamped to `t`.
pub open spec fn share_of(sz: int, t: int, p: int) -> int {
    let raw = sz * t / p;
    if raw > t {
        t
    } else {
        raw
    }
}

/// Shares grow with size.
proof fn lemma_share_mono(sz1: int, sz2: int, t: int, p: int)
    requires
        0 <= sz1 <= sz2,
        0 <= t,
        1 <= p,
    ensures
        share_of(sz1, t, p) <= share_of(sz2, t, p),
{
    vstd::arithmetic::mul::lemma_mul_inequality(sz1, sz2, t);
    vstd::arithmetic::div_mod::lemma_div_is_ordered(sz1 * t, sz2 * t, p);
}

/// Pick the children worth drawing inside `total_area` square pixels and
/// give each its share, largest first.
///
/// Children are sorted by size, a prefix is kept (always the largest;
/// at least eight; then until the coverage target is met, capped at the
/// configured maximum), and the kept shares are rescaled so they sum to
/// exactly `total_area`: the truncated tail's mass is redistributed
/// rather than left as a visible hole.
#[verifier::loop_isolation(false)]
#[verifier::rlimit(60)]
pub fn collect_visible_children(
    tree: &FileTree,
    parent: NodeId,
    parent_size: u64,
    total_area: i64,
    config: &LayoutConfig,
) -> (r: (Vec<NodeId>, Vec<i64>))
    requires
        tree.wf(),
        parent.0 < tree.nodes@.len(),
        1 <= parent_size,
        0 <= total_area <= AREA_LIMIT,
        config.wf(),
    ensures
        r.0@.len() == r.1@.len(),
        r.0@.len() <= config.max_children_per_dir,
        forall|k: int|
            0 <= k < r.0@.len() ==> (#[trigger] r.0@[k]).0 < tree.nodes@.len()
                && tree.nodes@[parent.0 as int].children@.contains(r.0@[k]),
        crate::geom::all_nonneg(r.1@),
        crate::geom::sorted_desc(r.1@),
        r.1@.len() >= 1 ==> crate::geom::total_of(r.1@) == total_area,
        crate::aggregate::ids_sorted_by_size_desc(tree.nodes@, r.0@),
        (exists|k: int|
            0 <= k < tree.nodes@[parent.0 as int].children@.len() && share_of(
                tree.nodes@[(#[trigger] tree.nodes@[parent.0 as int].children@[k]).0 as int].size as int,
                total_area as int,
                parent_size as int,
            ) >= 1) ==> r.0@.len() >= 1,
        r.0@.len() >= 1 ==> forall|k: int|
            0 <= k < tree.nodes@[parent.0 as int].children@.len() ==> tree.nodes@[(
            #[trigger] tree.nodes@[parent.0 as int].children@[k]).0 as int].size
                <= tree.nodes@[r.0@[0].0 as int].size,
{
    proof {
        broadcast use vstd::seq_lib::group_to_multiset_ensures;

    }
    let kids = tree.children(parent);
    let ghost kids0 = kids@;
    let sorted_ids = crate::aggregate::sort_ids_by_size_desc(tree, kids);

    // proportional share per child, skipping the empty ones
    let mut ids: Vec<NodeId> = Vec::new();
    let mut areas: Vec<i64> = Vec::new();
    let mut k: usize = 0;
    while k < sorted_ids.len()
        invariant
            k <= sorted_ids@.len(),
            ids@.len() == areas@.len(),
            forall|q: int|
                0 <= q < ids@.len() ==> (#[trigger] ids@[q]).0 < tree.nodes@.len()
                    && tree.nodes@[parent.0 as int].children@.contains(ids@[q]),
            forall|q: int|
                0 <= q < areas@.len() ==> 1 <= #[trigger] areas@[q] <= total_area
                    && areas@[q] == share_of(
                    tree.nodes@[ids@[q].0 as int].size as int,
                    total_area as int,
                    parent_size as int,
                ),
            forall|a: int, b: int|
                0 <= a <= b < ids@.len() ==> tree.nodes@[(#[trigger] ids@[a]).0 as int].size
                    >= tree.nodes@[(#[trigger] ids@[b]).0 as int].size,
            forall|q: int, m: int|
                0 <= q < ids@.len() && k <= m < sorted_ids@.len() ==> tree.nodes@[(
                #[trigger] ids@[q]).0 as int].size >= tree.nodes@[(
                #[trigger] sorted_ids@[m]).0 as int].size,
            crate::geom::sorted_desc(areas@),
            ids@.len() == 0 ==> forall|q: int|
                0 <= q < k ==> share_of(
                    tree.nodes@[(#[trigger] sorted_ids@[q]).0 as int].size as int,
                    total_area as int,
                    parent_size as int,
                ) < 1,
            ids@.len() >= 1 ==> ids@[0] == sorted_ids@[0],
        decreases sorted_ids@.len() - k,
    {
        let id = sorted_ids[k];
        let sz = tree.nodes[id.index()].size;
        proof {
            assert((sz as int) * (total_area as int) <= 0xFFFF_FFFF_FFFF_FFFF * 0x4000_0000)
                by (nonlinear_arith)
                requires
                    0 <= sz <= 0xFFFF_FFFF_FFFF_FFFF && 0 <= total_area <= 0x4000_0000,
            ;
        }
        let num: u128 = (sz as u128) * (total_area as u128);
        let raw: u128 = num / (parent_size as u128);
        let a: i64 = if raw > (total_area as u128) {
            total_area
        } else {
            raw as i64
        };
        proof {
            vstd::arithmetic::div_mod::lemma_div_pos_is_pos(
                (sz as int) * (total_area as int),
                parent_size as int,
            );
            assert(a == share_of(sz as int, total_area as int, parent_size as int));
        }
        if a >= 1 {
            proof {
                assert forall|q: int| 0 <= q < ids@.len() implies tree.nodes@[(
                    #[trigger] ids@[q]).0 as int].size >= sz
                    && areas@[q] >= a by {
                    lemma_share_mono(
                        sz as int,
                        tree.nodes@[ids@[q].0 as int].size as int,
                        total_area as int,
                        parent_size as int,
                    );
                }
                if ids@.len() == 0 && k > 0 {
                    // a later child cannot be the first to clear the share
                    // floor: the largest child clears it first
                    assert(tree.nodes@[sorted_ids@[0].0 as int].size >= tree.nodes@[(
                    sorted_ids@[k as int]).0 as int].size);
                    lemma_share_mono(
                        sz as int,
                        tree.nodes@[sorted_ids@[0].0 as int].size as int,
                        total_area as int,
                        parent_size as int,
                    );
                    assert(false);
                }
            }
            ids.push(id);
            areas.push(a);
        }
        k = k + 1;
    }

    if ids.len() == 0 {
        proof {
            // nothing cleared the share floor: no child has a visible share
            let children = tree.nodes@[parent.0 as int].children@;
            assert forall|k2: int|
                0 <= k2 < children.len() implies share_of(
                tree.nodes@[(#[trigger] children[k2]).0 as int].size as int,
                total_area as int,
                parent_size as int,
            ) < 1 by {
                assert(kids0.contains(children[k2]));
                assert(sorted_ids@.to_multiset().count(children[k2]) > 0);
                assert(sorted_ids@.contains(children[k2]));
                let m = choose|m: int|
                    0 <= m < sorted_ids@.len() && sorted_ids@[m] == children[k2];
                assert(share_of(
                    tree.nodes@[sorted_ids@[m].0 as int].size as int,
                    total_area as int,
                    parent_size as int,
                ) < 1);
            }
        }
        return (ids, areas);
    }

    // level-of-detail truncation: keep a prefix
    let mut kept: usize = 0;
    let mut covered: i64 = 0;
    while kept < ids.len()
        invariant
            kept <= ids@.len(),
            kept <= config.max_children_per_dir,
            covered == total_of(areas@.subrange(0, kept as int)),
            0 <= covered <= kept * (AREA_LIMIT as int),
        decreases ids@.len() - kept,
    {
        if kept >= config.max_children_per_dir {
            break ;
        }
        proof {
            assert(covered <= 100000 * (AREA_LIMIT as int)) by (nonlinear_arith)
                requires
                    0 <= covered <= kept * (AREA_LIMIT as int) && kept < 100000,
            ;
            assert(config.child_coverage_milli * total_area <= 1000 * (AREA_LIMIT as int))
                by (nonlinear_arith)
                requires
                    0 <= config.child_coverage_milli <= 1000 && 0 <= total_area <= AREA_LIMIT,
            ;
        }
        let keep = kept == 0 || kept < 8 || covered * 1000 < config.child_coverage_milli
            * total_area;
        if !keep {
            break ;
        }
        proof {
            lemma_total_of_push(areas@.subrange(0, kept as int), areas@[kept as int]);
            assert(areas@.subrange(0, kept as int + 1) =~= areas@.subrange(
                0,
                kept as int,
            ).push(areas@[kept as int]));
        }
        covered = covered + areas[kept];
        kept = kept + 1;
    }
    proof {
        assert(kept >= 1);
        lemma_total_of_nonneg(areas@.subrange(1, kept as int));
        assert(areas@.subrange(0, kept as int)[0] == areas@[0]);
        crate::geom::lemma_total_of_first(areas@.subrange(0, kept as int));
        assert(areas@.subrange(0, kept as int).subrange(1, kept as int) =~= areas@.subrange(
            1,
            kept as int,
        ));
        assert(covered >= areas@[0]);
        assert(covered >= 1);
    }

    // exact redistribution: floors first, then one extra pixel of area to
    // the first few children so the kept set sums to exactly `total_area`
    let mut out_ids: Vec<NodeId> = Vec::new();
    let mut floors: Vec<i64> = Vec::new();
    let mut cum_b: i64 = 0;
    let mut cum_f: i64 = 0;
    let mut j: usize = 0;
    while j < kept
        invariant
            j <= kept,
            kept <= ids@.len(),
            ids@.len() == areas@.len(),
            out_ids@.len() == j,
            floors@.len() == j,
            out_ids@ == ids@.subrange(0, j as int),
            covered == total_of(areas@.subrange(0, kept as int)),
            1 <= covered <= kept * (AREA_LIMIT as int),
            cum_b == total_of(areas@.subrange(0, j as int)),
            0 <= cum_b <= covered,
            0 <= cum_f,
            cum_f == total_of(floors@),
            cum_f <= total_area,
            0 <= cum_b * total_area - covered * cum_f,
            cum_b * total_area - covered * cum_f <= j * (covered - 1),
            forall|q: int|
                0 <= q < j ==> 0 <= #[trigger] floors@[q] <= total_area && floors@[q] == (
                areas@[q] * total_area) / (covered as int),
            forall|a: int, b: int| 0 <= a <= b < j ==> floors@[a] >= floors@[b],
        decreases kept - j,
    {
        let b = areas[j];
        proof {
            // the tail of the kept prefix is non-negative, so b fits under covered
            lemma_total_of_push(areas@.subrange(0, j as int), b);
            assert(areas@.subrange(0, j as int + 1) =~= areas@.subrange(0, j as int).push(b));
            crate::geom::lemma_total_of_split(areas@.subrange(0, kept as int), j as int + 1);
            assert(areas@.subrange(0, kept as int).subrange(0, j as int + 1) =~= areas@.subrange(
                0,
                j as int + 1,
            ));
            lemma_total_of_nonneg(areas@.subrange(0, kept as int).subrange(j as int + 1,
                kept as int));
            assert(cum_b + b <= covered);
            assert(b * total_area <= covered * total_area) by (nonlinear_arith)
                requires
                    0 <= b <= covered && 0 <= total_area,
            ;
            vstd::arithmetic::div_mod::lemma_fundamental_div_mod(
                (b as int) * (total_area as int),
                covered as int,
            );
            vstd::arithmetic::div_mod::lemma_mod_division_less_than_divisor(
                (b as int) * (total_area as int),
                covered as int,
            );
            vstd::arithmetic::div_mod::lemma_div_pos_is_pos(
                (b as int) * (total_area as int),
                covered as int,
            );
            vstd::arithmetic::div_mod::lemma_div_is_ordered(
                (b as int) * (total_area as int),
                (covered as int) * (total_area as int),
                covered as int,
            );
            vstd::arithmetic::div_mod::lemma_div_multiples_vanish(
                total_area as int,
                covered as int,
            );
            assert(0 <= (b as int) * (total_area as int) <= (AREA_LIMIT as int) * (
            AREA_LIMIT as int)) by (nonlinear_arith)
                requires
                    0 <= b <= AREA_LIMIT && 0 <= total_area <= AREA_LIMIT,
            ;
        }
        let f = b * total_area / covered;
        proof {
            let bi = b as int;
            let ti = total_area as int;
            let ci = covered as int;
            let fi = f as int;
            assert(ci * fi <= bi * ti < ci * fi + ci);
            assert((cum_b + bi) * ti - ci * (cum_f + fi) == (cum_b * ti - ci * cum_f) + (bi * ti
                - ci * fi)) by (nonlinear_arith);
            assert((j + 1) * (ci - 1) == j * (ci - 1) + (ci - 1)) by (nonlinear_arith);
            assert(cum_f + fi <= ti) by (nonlinear_arith)
                requires
                    ci * (cum_f + fi) <= (cum_b + bi) * ti && cum_b + bi <= ci && 1 <= ci && 0
                        <= ti && 0 <= cum_f + fi,
            ;
            lemma_total_of_push(floors@, f);
            if j > 0 {
                assert forall|a: int, q: int| 0 <= a <= q < j + 1 implies floors@.push(f)[a]
                    >= floors@.push(f)[q] by {
                    if q == j && a < j {
                        vstd::arithmetic::mul::lemma_mul_inequality(bi, areas@[a] as int, ti);
                        vstd::arithmetic::div_mod::lemma_div_is_ordered(
                            bi * ti,
                            (areas@[a] as int) * ti,
                            ci,
                        );
                    }
                }
            }
            assert(out_ids@.push(ids@[j as int]) =~= ids@.subrange(0, j as int + 1));
        }
        out_ids.push(ids[j]);
        floors.push(f);
        cum_b = cum_b + b;
        cum_f = cum_f + f;
        j = j + 1;
    }
    proof {
        assert(areas@.subrange(0, j as int) == areas@.subrange(0, kept as int));
        assert(cum_b == covered);
        // covered * (total_area - cum_f) is the sum of the per-child division
        // remainders, which is non-negative and under kept * covered
        assert(covered * (total_area - cum_f) == cum_b * total_area - covered * cum_f)
            by (nonlinear_arith)
            requires
                cum_b == covered,
        ;
        assert(0 <= total_area - cum_f < kept as int) by (nonlinear_arith)
            requires
                0 <= covered * (total_area - cum_f) <= kept as int * (covered - 1) && 1 <= covered
                    && 1 <= kept as int,
        ;
    }
    let remainder: i64 = total_area - cum_f;
    let mut final_areas: Vec<i64> = Vec::new();
    let mut q: usize = 0;
    while q < kept
        invariant
            q <= kept,
            kept == floors@.len(),
            0 <= remainder < kept as int,
            final_areas@.len() == q,
            forall|a: int|
                0 <= a < q ==> #[trigger] final_areas@[a] == floors@[a] + (if a
                    < remainder as int {
                    1int
                } else {
                    0int
                }),
            total_of(final_areas@) == total_of(floors@.subrange(0, q as int)) + (if q as int
                <= remainder as int {
                q as int
            } else {
                remainder as int
            }),
            forall|q2: int|
                0 <= q2 < kept ==> 0 <= #[trigger] floors@[q2] <= total_area,
            forall|a: int, b: int| 0 <= a <= b < kept ==> floors@[a] >= floors@[b],
        decreases kept - q,
    {
        let add: i64 = if q < remainder as usize {
            1
        } else {
            0
        };
        let v = floors[q] + add;
        proof {
            lemma_total_of_push(final_areas@, v);
            lemma_total_of_push(floors@.subrange(0, q as int), floors@[q as int]);
            assert(floors@.subrange(0, q as int + 1) =~= floors@.subrange(0, q as int).push(
                floors@[q as int],
            ));
        }
        final_areas.push(v);
        q = q + 1;
    }
    proof {
        assert(floors@.subrange(0, kept as int) == floors@);
        assert(total_of(final_areas@) == total_of(floors@) + remainder);
        assert(crate::geom::sorted_desc(final_areas@));
        assert(crate::geom::all_nonneg(final_areas@));
        // the kept ids are a prefix of the size-sorted ids, so they stay
        // size-sorted and start with the overall largest child
        let children = tree.nodes@[parent.0 as int].children@;
        assert(out_ids@[0] == sorted_ids@[0]);
        assert forall|c: int, d: int|
            0 <= c <= d < out_ids@.len() implies tree.nodes@[(
            #[trigger] out_ids@[c]).0 as int].size >= tree.nodes@[(
            #[trigger] out_ids@[d]).0 as int].size by {
            assert(out_ids@[c] == ids@[c] && out_ids@[d] == ids@[d]);
        }
        assert forall|k2: int|
            0 <= k2 < children.len() implies tree.nodes@[(
            #[trigger] children[k2]).0 as int].size <= tree.nodes@[out_ids@[0].0 as int].size by {
            assert(kids0.contains(children[k2]));
            assert(sorted_ids@.to_multiset().count(children[k2]) > 0);
            assert(sorted_ids@.contains(children[k2]));
            let m = choose|m: int| 0 <= m < sorted_ids@.len() && sorted_ids@[m] == children[k2];
            assert(tree.nodes@[sorted_ids@[0].0 as int].size >= tree.nodes@[(
            sorted_ids@[m]).0 as int].size);
        }
    }
    (out_ids, final_areas)
}

/// Rectangle `j` is geometrically inside rectangle `k` and strictly
/// deeper.
pub open spec fn nested_in(rs: Seq<LayoutRect>, j: int, k: int) -> bool {
    &&& rs[k].depth < rs[j].depth
    &&& rs[k].x <= rs[j].x
    &&& rs[j].x + rs[j].w <= rs[k].x + rs[k].w
    &&& rs[k].y <= rs[j].y
    &&& rs[j].y + rs[j].h <= rs[k].y + rs[k].h
}

/// Structure of an emitted rectangle list: every rectangle after the root
/// has positive extent (sub-pixel children are filtered, never emitted)
/// and sits, earlier in the list, inside a strictly shallower rectangle —
/// so parents always precede children and depths strictly increase along
/// nesting.
pub open spec fn rects_wf(rs: Seq<LayoutRect>) -> bool {
    forall|j: int|
        1 <= j < rs.len() ==> {
            &&& (#[trigger] rs[j]).w >= 1
            &&& rs[j].h >= 1
            &&& rs[j].w <= COORD_LIMIT
            &&& rs[j].h <= COORD_LIMIT
            &&& -4 * COORD_LIMIT <= rs[j].x <= 4 * COORD_LIMIT
            &&& -4 * COORD_LIMIT <= rs[j].y <= 4 * COORD_LIMIT
            &&& surf_bounded(rs[j].surface, DEPTH_LIMIT as int + 1)
            &&& exists|k: int| 0 <= k < j && nested_in(rs, j, k)
        }
}

/// Every rectangle of a well-formed list lies geometrically inside the
/// first (root) rectangle, and every rectangle after the root is
/// strictly deeper than it: ancestors always stand earlier in the list
/// than their descendants.
pub proof fn lemma_nested_in_root(rs: Seq<LayoutRect>, j: int)
    requires
        rects_wf(rs),
        0 <= j < rs.len(),
    ensures
        rs[0].x <= rs[j].x,
        rs[j].x + rs[j].w <= rs[0].x + rs[0].w,
        rs[0].y <= rs[j].y,
        rs[j].y + rs[j].h <= rs[0].y + rs[0].h,
        j > 0 ==> rs[0].depth < rs[j].depth,
    decreases j,
{
    if j > 0 {
        assert(rs[j].w >= 1);
        assert(exists|k: int| 0 <= k < j && nested_in(rs, j, k));
        let k = choose|k: int| 0 <= k < j && nested_in(rs, j, k);
        assert(0 <= k < j && nested_in(rs, j, k));
        lemma_nested_in_root(rs, k);
    }
}

/// The lookup list is the index-aligned companion of the rectangle
/// list: one entry per rectangle, in order, each naming that
/// rectangle's node. This makes the lookup total and consistent.
pub open spec fn map_wf(m: Seq<(u32, usize)>, rs: Seq<LayoutRect>) -> bool {
    &&& m.len() == rs.len()
    &&& forall|k: int|
        0 <= k < m.len() ==> (#[trigger] m[k]).0 == rs[k].node.0 && m[k].1 == k
}

/// Every rectangle points at a node of a tree with `n` nodes.
pub open spec fn nodes_in(rs: Seq<LayoutRect>, n: int) -> bool {
    forall|j: int| 0 <= j < rs.len() ==> (#[trigger] rs[j]).node.0 < n
}

/// The rectangle `(x, y, w, h)` lies inside `outer`.
pub open spec fn lr_contains(outer: LayoutRect, x: int, y: int, w: int, h: int) -> bool {
    &&& outer.x <= x
    &&& x + w <= outer.x + outer.w
    &&& outer.y <= y
    &&& y + h <= outer.y + outer.h
}

/// The rectangle `r` lies inside the frame `(x, y, w, h)`.
pub open spec fn lr_within(r: LayoutRect, x: int, y: int, w: int, h: int) -> bool {
    &&& x <= r.x
    &&& r.x + r.w <= x + w
    &&& y <= r.y
    &&& r.y + r.h <= y + h
}

/// The inner rectangle of a directory at a given depth: the given
/// rectangle shrunk by the sibling padding, the directory frame and the
/// header band, exactly as the layout computes them.
#[verifier::opaque]
pub open spec fn spec_inner_rect(x: int, y: int, w: int, h: int, depth: int, c: LayoutConfig) -> (
    int,
    int,
    int,
    int,
) {
    let level_scale = if depth == 0 {
        1000int
    } else {
        spec_pow_milli(c.dir_frame_falloff_milli as int, depth - 1)
    };
    let pad = if depth == 0 {
        0int
    } else {
        c.padding * spec_pow_milli(c.padding_falloff_milli as int, depth) / 1000
    };
    let frame0 = c.dir_frame_px * level_scale / 1000;
    let frame = if depth == 0 {
        0int
    } else if frame0 < 1 {
        1int
    } else {
        frame0
    };
    let hd = c.dir_header_px * level_scale / 1000;
    let cap = h * 22 / 100;
    let header = if depth == 0 {
        0int
    } else if hd > cap {
        cap
    } else {
        hd
    };
    let inset = pad + frame;
    let ix = if inset < w {
        inset
    } else {
        w
    };
    let iyo = if inset + header < h {
        inset + header
    } else {
        h
    };
    let iw = if w - 2 * inset >= 0 {
        w - 2 * inset
    } else {
        0int
    };
    let ih = if h - 2 * inset - header >= 0 {
        h - 2 * inset - header
    } else {
        0int
    };
    (x + ix, y + iyo, iw, ih)
}

/// The chain-collapse rule applies at `parent`: its best directory child
/// dominates the parent's bytes and the remaining children together stay
/// quiet, by the configured thresholds.
#[verifier::opaque]
pub open spec fn chain_collapse_applies(tree: FileTree, parent: NodeId, c: LayoutConfig) -> bool {
    let psize = tree.nodes@[parent.0 as int].size as int;
    let n = tree.nodes@[parent.0 as int].children@.len() as int;
    match spec_best_dir_child(tree, parent, n) {
        Option::None => false,
        Option::Some(b) => {
            let total = crate::aggregate::sat_u64(
                crate::aggregate::child_size_sum(tree.nodes@, parent.0 as int, n),
            );
            let sibling = if total >= b.1 as int {
                total - b.1 as int
            } else {
                0int
            };
            &&& b.1 * 1000 >= psize * c.chain_dominance_milli
            &&& sibling * 1000 <= psize * c.chain_sibling_milli
        },
    }
}

/// A surface with one more ridge added along each axis.
pub open spec fn spec_ridged(
    s: Surface,
    x0: int,
    x1: int,
    y0: int,
    y1: int,
    cushion_h: int,
) -> Surface {
    Surface {
        sx1: (s.sx1 + ridge_linear(x0, x1, cushion_h)) as i64,
        sx2: (s.sx2 + ridge_quad(x0, x1, cushion_h)) as i64,
        sy1: (s.sy1 + ridge_linear(y0, y1, cushion_h)) as i64,
        sy2: (s.sy2 + ridge_quad(y0, y1, cushion_h)) as i64,
    }
}

/// The drawn depth of a child one level under `depth`, advanced by the
/// collapsed chain links and saturated at the type's ceiling.
pub open spec fn spec_child_depth(depth: u16, collapsed: int) -> u16 {
    let extra = if collapsed > 0xFFFF {
        0xFFFFint
    } else {
        collapsed
    };
    let cd = depth + 1 + extra;
    if cd > 0xFFFF {
        0xFFFFu16
    } else {
        cd as u16
    }
}

/// The rectangle the chain-collapse branch emits: the collapsed chain's
/// terminal over the whole inner rectangle, one level deeper per
/// collapsed link, with this level's two ridges added.
#[verifier::opaque]
pub open spec fn spec_chain_rect(
    tree: FileTree,
    parent: NodeId,
    x: int,
    y: int,
    w: int,
    h: int,
    depth: u16,
    surface: Surface,
    cushion_h: int,
    c: LayoutConfig,
) -> LayoutRect {
    let gi = spec_inner_rect(x, y, w, h, depth as int, c);
    let n = tree.nodes@[parent.0 as int].children@.len() as int;
    let best = spec_best_dir_child(tree, parent, n).unwrap();
    let chain = spec_chain_end(tree, best.0);
    LayoutRect {
        node: chain.0,
        x: gi.0 as i64,
        y: gi.1 as i64,
        w: gi.2 as i64,
        h: gi.3 as i64,
        depth: spec_child_depth(depth, chain.1),
        surface: spec_ridged(surface, gi.0, gi.0 + gi.2, gi.1, gi.1 + gi.3, cushion_h),
    }
}

/// The rectangle one placed child produces: the chain-collapsed node
/// over the given cell, with this level's two ridges added.
#[verifier::opaque]
pub open spec fn spec_placed_rect(
    tree: FileTree,
    child: NodeId,
    cx: int,
    cy: int,
    cw: int,
    ch: int,
    depth: u16,
    surface: Surface,
    cushion_h: int,
) -> LayoutRect {
    let chain = if tree.nodes@[child.0 as int].is_dir {
        spec_chain_end(tree, child)
    } else {
        (child, 0int)
    };
    LayoutRect {
        node: chain.0,
        x: cx as i64,
        y: cy as i64,
        w: cw as i64,
        h: ch as i64,
        depth: spec_child_depth(depth, chain.1),
        surface: spec_ridged(surface, cx, cx + cw, cy, cy + ch, cushion_h),
    }
}

/// Appending a rectangle that nests inside an existing one keeps the list
/// well formed.
proof fn lemma_rects_wf_push(rs: Seq<LayoutRect>, r: LayoutRect, k: int)
    requires
        rects_wf(rs),
        0 <= k < rs.len(),
        1 <= r.w <= COORD_LIMIT,
        1 <= r.h <= COORD_LIMIT,
        -4 * COORD_LIMIT <= r.x <= 4 * COORD_LIMIT,
        -4 * COORD_LIMIT <= r.y <= 4 * COORD_LIMIT,
        surf_bounded(r.surface, DEPTH_LIMIT as int + 1),
        nested_in(rs.push(r), rs.len() as int, k),
    ensures
        rects_wf(rs.push(r)),
{
    let rs2 = rs.push(r);
    assert forall|j: int| 1 <= j < rs2.len() implies (#[trigger] rs2[j]).w >= 1 && rs2[j].h >= 1
        && rs2[j].w <= COORD_LIMIT && rs2[j].h <= COORD_LIMIT && -4 * COORD_LIMIT <= rs2[j].x <= 4
        * COORD_LIMIT && -4 * COORD_LIMIT <= rs2[j].y <= 4 * COORD_LIMIT && surf_bounded(
        rs2[j].surface,
        DEPTH_LIMIT as int + 1,
    ) && exists|q: int|
        0 <= q < j && nested_in(rs2, j, q) by {
        if j < rs.len() {
            assert(rs2[j] == rs[j]);
            let q = choose|q: int| 0 <= q < j && nested_in(rs, j, q);
            assert(nested_in(rs2, j, q));
        } else {
            assert(nested_in(rs2, j, k));
        }
    }
}

/// Lay out the children of `parent` inside the rectangle
/// `(x, y, w, h)`, recursively. `depth` is the drawn depth of the parent
/// rectangle (found at index `parent_pos` of the output), `surface` its
/// accumulated cushion coefficients and `cushion_h` the ridge height for
/// this level. Emits one rectangle per visible child, parents always
/// before children.
#[verifier::loop_isolation(false)]
#[verifier::rlimit(100)]
fn layout_children(
    tree: &FileTree,
    parent: NodeId,
    x: i64,
    y: i64,
    w: i64,
    h: i64,
    depth: u16,
    surface: Surface,
    cushion_h: i64,
    config: &LayoutConfig,
    rects: &mut Vec<LayoutRect>,
    node_to_rect: &mut Vec<(u32, usize)>,
    parent_pos: Ghost<int>,
)
    requires
        tree.wf(),
        parent.0 < tree.nodes@.len(),
        config.wf(),
        0 <= w <= COORD_LIMIT,
        0 <= h <= COORD_LIMIT,
        -COORD_LIMIT <= x,
        x + w <= 2 * COORD_LIMIT,
        -COORD_LIMIT <= y,
        y + h <= 2 * COORD_LIMIT,
        0 <= cushion_h <= HEIGHT_LIMIT,
        surf_bounded(surface, depth as int + 1),
        0 <= parent_pos@ < old(rects)@.len(),
        old(rects)@[parent_pos@].depth <= depth,
        lr_contains(old(rects)@[parent_pos@], x as int, y as int, w as int, h as int),
        rects_wf(old(rects)@),
        map_wf(old(node_to_rect)@, old(rects)@),
        nodes_in(old(rects)@, tree.nodes@.len() as int),
    ensures
        final(rects)@.len() >= old(rects)@.len(),
        forall|j: int| 0 <= j < old(rects)@.len() ==> final(rects)@[j] == old(rects)@[j],
        forall|j: int|
            0 <= j < old(node_to_rect)@.len() ==> final(node_to_rect)@[j] == old(
                node_to_rect,
            )@[j],
        rects_wf(final(rects)@),
        map_wf(final(node_to_rect)@, final(rects)@),
        nodes_in(final(rects)@, tree.nodes@.len() as int),
        forall|j: int|
            old(rects)@.len() <= j < final(rects)@.len() ==> lr_within(
                #[trigger] final(rects)@[j],
                x as int,
                y as int,
                w as int,
                h as int,
            ),
        depth >= config.max_depth ==> final(rects)@ == old(rects)@ && final(node_to_rect)@
            == old(node_to_rect)@,
        ({
            let gi = spec_inner_rect(x as int, y as int, w as int, h as int, depth as int,
                *config);
            let psize = tree.nodes@[parent.0 as int].size;
            &&& (depth < config.max_depth && gi.2 * gi.3 < config.min_area ==> final(rects)@
                == old(rects)@ && final(node_to_rect)@ == old(node_to_rect)@)
            &&& (depth < config.max_depth && gi.2 * gi.3 >= config.min_area && psize == 0
                ==> final(rects)@ == old(rects)@ && final(node_to_rect)@ == old(
                node_to_rect,
            )@)
            &&& (depth < config.max_depth && gi.2 * gi.3 >= config.min_area && psize >= 1
                && chain_collapse_applies(*tree, parent, *config) && gi.2 >= 1 && gi.3 >= 1
                ==> final(rects)@.len() > old(rects)@.len() && final(rects)@[old(
                rects,
            )@.len() as int] == spec_chain_rect(
                *tree,
                parent,
                x as int,
                y as int,
                w as int,
                h as int,
                depth,
                surface,
                cushion_h as int,
                *config,
            ))
            &&& (depth < config.max_depth && gi.2 * gi.3 >= config.min_area && psize >= 1
                && !chain_collapse_applies(*tree, parent, *config) && gi.2 >= 1 && gi.3 >= 1
                && config.min_area >= 1 && (exists|k: int|
                0 <= k < tree.nodes@[parent.0 as int].children@.len() && share_of(
                    tree.nodes@[(#[trigger] tree.nodes@[parent.0 as int].children@[k]).0 as int].size as int,
                    gi.2 * gi.3,
                    psize as int,
                ) >= 1) ==> final(rects)@.len() > old(rects)@.len())
        }),
    decreases (if depth >= config.max_depth {
        0int
    } else {
        config.max_depth - depth
    }), 1int,
{
    if depth >= config.max_depth {
        return ;
    }
    // insets: sibling padding, directory frame, header band, all decaying
    // with depth
    let level_scale: i64 = if depth == 0 {
        1000
    } else {
        pow_milli(config.dir_frame_falloff_milli, depth - 1)
    };
    let pad: i64 = if depth == 0 {
        0
    } else {
        let p = pow_milli(config.padding_falloff_milli, depth);
        proof {
            lemma_milli_scale(config.padding as int, p as int);
        }
        config.padding * p / 1000
    };
    let frame: i64 = if depth == 0 {
        0
    } else {
        proof {
            lemma_milli_scale(config.dir_frame_px as int, level_scale as int);
        }
        let f = config.dir_frame_px * level_scale / 1000;
        if f < 1 {
            1
        } else {
            f
        }
    };
    let header: i64 = if depth == 0 {
        0
    } else {
        proof {
            lemma_milli_scale(config.dir_header_px as int, level_scale as int);
        }
        let hd = config.dir_header_px * level_scale / 1000;
        let cap = h * 22 / 100;
        if hd > cap {
            cap
        } else {
            hd
        }
    };
    proof {
        vstd::arithmetic::div_mod::lemma_div_pos_is_pos(h as int * 22, 100int);
        vstd::arithmetic::div_mod::lemma_div_is_ordered(h as int * 22, 100 * COORD_LIMIT as int,
            100int);
        vstd::arithmetic::div_mod::lemma_div_multiples_vanish(COORD_LIMIT as int, 100int);
    }
    let inset: i64 = pad + frame;
    let ix: i64 = if inset < w {
        inset
    } else {
        w
    };
    let iyo: i64 = if inset + header < h {
        inset + header
    } else {
        h
    };
    let inner_x = x + ix;
    let inner_y = y + iyo;
    let inner_w: i64 = if w - 2 * inset >= 0 {
        w - 2 * inset
    } else {
        0
    };
    let inner_h: i64 = if h - 2 * inset - header >= 0 {
        h - 2 * inset - header
    } else {
        0
    };
    proof {
        assert(inner_x + inner_w <= x + w);
        assert(inner_y + inner_h <= y + h);
        assert(0 <= inner_w * inner_h <= AREA_LIMIT) by (nonlinear_arith)
            requires
                0 <= inner_w <= COORD_LIMIT && 0 <= inner_h <= COORD_LIMIT && AREA_LIMIT
                    == COORD_LIMIT * COORD_LIMIT,
        ;
        // the computed insets are exactly the spec mirror's
        assert((inner_x as int, inner_y as int, inner_w as int, inner_h as int)
            == spec_inner_rect(x as int, y as int, w as int, h as int, depth as int,
        *config)) by {
            reveal(spec_inner_rect);
        }
    }
    let inner_area = inner_w * inner_h;
    if inner_area < config.min_area {
        return ;
    }
    let psize = tree.nodes[parent.index()].size;
    if psize == 0 {
        return ;
    }
    // chain collapsing: one dominant child directory takes the whole
    // inner rectangle
    let dom = dominant_dir_child(tree, parent);
    if let Some((dom_id, dsize, totalc)) = dom {
        let sibling: u64 = if totalc >= dsize {
            totalc - dsize
        } else {
            0
        };
        proof {
            let big: int = 0xFFFF_FFFF_FFFF_FFFF;
            assert((dsize as int) * 1000 <= big * 1000 && (sibling as int) * 1000 <= big * 1000
                && (psize as int) * (config.chain_dominance_milli as int) <= big * 1000 && (
            psize as int) * (config.chain_sibling_milli as int) <= big * 1000)
                by (nonlinear_arith)
                requires
                    big == 0xFFFF_FFFF_FFFF_FFFF && 0 <= dsize <= 0xFFFF_FFFF_FFFF_FFFF && 0
                        <= sibling <= 0xFFFF_FFFF_FFFF_FFFF && 0 <= psize
                        <= 0xFFFF_FFFF_FFFF_FFFF && 0 <= config.chain_dominance_milli <= 1000
                        && 0 <= config.chain_sibling_milli <= 1000,
            ;
        }
        let dominant = (dsize as u128) * 1000 >= (psize as u128) * (
        config.chain_dominance_milli as u128);
        let quiet = (sibling as u128) * 1000 <= (psize as u128) * (
        config.chain_sibling_milli as u128);
        proof {
            // the machine comparison is the spec rule
            assert((dominant && quiet) == chain_collapse_applies(*tree, parent, *config)) by {
                reveal(chain_collapse_applies);
            }
        }
        if dominant && quiet {
            let (dom2, collapsed) = collapse_single_dir_chain(tree, dom_id);
            let extra: usize = if collapsed > 0xFFFF {
                0xFFFF
            } else {
                collapsed
            };
            let cd: usize = depth as usize + 1 + extra;
            let child_depth: u16 = if cd > 0xFFFF {
                0xFFFF
            } else {
                cd as u16
            };
            if inner_w >= 1 && inner_h >= 1 {
                let mut sx1 = surface.sx1;
                let mut sx2 = surface.sx2;
                let mut sy1 = surface.sy1;
                let mut sy2 = surface.sy2;
                proof {
                    lemma_surf_step(surface, depth as int);
                }
                add_ridge(inner_x, inner_x + inner_w, cushion_h, &mut sx1, &mut sx2);
                add_ridge(inner_y, inner_y + inner_h, cushion_h, &mut sy1, &mut sy2);
                let new_surface = Surface { sx1, sx2, sy1, sy2 };
                let idx = rects.len();
                let rect = LayoutRect {
                    node: dom2,
                    x: inner_x,
                    y: inner_y,
                    w: inner_w,
                    h: inner_h,
                    depth: child_depth,
                    surface: new_surface,
                };
                proof {
                    lemma_surf_grow(new_surface, depth as int + 2, DEPTH_LIMIT as int + 1);
                    assert(nested_in(rects@.push(rect), rects@.len() as int, parent_pos@));
                    lemma_rects_wf_push(rects@, rect, parent_pos@);
                }
                rects.push(rect);
                node_to_rect.push((dom2.0, idx));
                proof {
                    assert(rects@[idx as int] == spec_chain_rect(
                        *tree,
                        parent,
                        x as int,
                        y as int,
                        w as int,
                        h as int,
                        depth,
                        surface,
                        cushion_h as int,
                        *config,
                    )) by {
                        reveal(spec_chain_rect);
                        reveal(spec_inner_rect);
                    }
                }
                if inner_w >= config.recurse_min_side && inner_h >= config.recurse_min_side {
                    proof {
                        lemma_surf_grow(new_surface, depth as int + 2, child_depth as int + 1);
                        lemma_height_decay(
                            cushion_h as int,
                            config.cushion_falloff_milli as int,
                        );
                    }
                    let ghost rects_before_rec = rects@;
                    layout_children(
                        tree,
                        dom2,
                        inner_x,
                        inner_y,
                        inner_w,
                        inner_h,
                        child_depth,
                        new_surface,
                        cushion_h * config.cushion_falloff_milli / 1000,
                        config,
                        rects,
                        node_to_rect,
                        Ghost(idx as int),
                    );
                    proof {
                        // descendants sit inside the collapsed rectangle, hence
                        // inside this call's frame
                        assert forall|j: int|
                            old(rects)@.len() <= j < rects@.len() implies lr_within(
                            #[trigger] rects@[j],
                            x as int,
                            y as int,
                            w as int,
                            h as int,
                        ) by {
                            if j >= rects_before_rec.len() {
                                assert(lr_within(rects@[j], inner_x as int, inner_y as int,
                                    inner_w as int, inner_h as int));
                            } else {
                                assert(rects@[j] == rects_before_rec[j]);
                            }
                        }
                    }
                }
            }
            return ;
        }
        proof {
            // falling through: the thresholds were not met
            assert(!chain_collapse_applies(*tree, parent, *config));
        }
    }
    proof {
        if dom is None {
            assert(!chain_collapse_applies(*tree, parent, *config)) by {
                reveal(chain_collapse_applies);
            }
        }
        assert(!chain_collapse_applies(*tree, parent, *config));
    }
    // general case: pick visible children and pack them
    let (vis_ids, vis_areas) = collect_visible_children(tree, parent, psize, inner_area, config);
    proof {
        // a child with a visible share forces a nonempty kept set
        let children = tree.nodes@[parent.0 as int].children@;
        if exists|k: int|
            0 <= k < children.len() && share_of(
                tree.nodes@[(#[trigger] children[k]).0 as int].size as int,
                inner_w as int * inner_h as int,
                psize as int,
            ) >= 1 {
            let k0 = choose|k: int|
                0 <= k < children.len() && share_of(
                    tree.nodes@[(#[trigger] children[k]).0 as int].size as int,
                    inner_w as int * inner_h as int,
                    psize as int,
                ) >= 1;
            assert(share_of(
                tree.nodes@[children[k0].0 as int].size as int,
                inner_area as int,
                psize as int,
            ) >= 1);
            assert(vis_ids@.len() >= 1);
        }
    }
    if vis_ids.len() == 0 {
        return ;
    }
    let positioned = crate::geom::squarify(&vis_areas, inner_x, inner_y, inner_w, inner_h);
    let ghost rects_at_entry = rects@;
    lay_cells(
        tree,
        &vis_ids,
        &positioned,
        inner_x,
        inner_y,
        inner_w,
        inner_h,
        depth,
        surface,
        cushion_h,
        config,
        rects,
        node_to_rect,
        parent_pos,
    );
    proof {
        // cells sit inside the inner rectangle, which sits inside the frame
        assert forall|j: int|
            rects_at_entry.len() <= j < rects@.len() implies lr_within(
            #[trigger] rects@[j],
            x as int,
            y as int,
            w as int,
            h as int,
        ) by {
            assert(lr_within(rects@[j], inner_x as int, inner_y as int, inner_w as int,
                inner_h as int));
        }
        // when the kept children carry area, the packing places at least
        // one rectangle of positive extent, so something was emitted
        if inner_w >= 1 && inner_h >= 1 && config.min_area >= 1 {
            assert(total_of(vis_areas@) == inner_area);
            assert(crate::geom::area_total(positioned@) == inner_w * inner_h);
            assert forall|j: int|
                0 <= j < positioned@.len() implies (#[trigger] positioned@[j]).w >= 0
                && positioned@[j].h >= 0 by {
                assert(crate::geom::rect_within(positioned@[j], inner_x as int, inner_y as int,
                    inner_w as int, inner_h as int));
            }
            crate::geom::lemma_area_total_pos(positioned@);
        }
    }
}

/// Place one packed cell per visible child: push its (chain-collapsed)
/// rectangle with the accumulated ridges and recurse into directories
/// with room to show structure. Sub-pixel cells are dropped entirely.
#[verifier::loop_isolation(false)]
#[verifier::rlimit(100)]
fn lay_cells(
    tree: &FileTree,
    vis_ids: &Vec<NodeId>,
    positioned: &Vec<crate::geom::Rect>,
    ix: i64,
    iy: i64,
    iw: i64,
    ih: i64,
    depth: u16,
    surface: Surface,
    cushion_h: i64,
    config: &LayoutConfig,
    rects: &mut Vec<LayoutRect>,
    node_to_rect: &mut Vec<(u32, usize)>,
    parent_pos: Ghost<int>,
)
    requires
        tree.wf(),
        config.wf(),
        positioned@.len() <= vis_ids@.len(),
        forall|k: int| 0 <= k < vis_ids@.len() ==> (#[trigger] vis_ids@[k]).0 < tree.nodes@.len(),
        forall|k: int|
            0 <= k < positioned@.len() ==> crate::geom::rect_within(
                #[trigger] positioned@[k],
                ix as int,
                iy as int,
                iw as int,
                ih as int,
            ),
        0 <= iw <= COORD_LIMIT,
        0 <= ih <= COORD_LIMIT,
        -COORD_LIMIT <= ix,
        ix + iw <= 2 * COORD_LIMIT,
        -COORD_LIMIT <= iy,
        iy + ih <= 2 * COORD_LIMIT,
        depth < config.max_depth,
        0 <= cushion_h <= HEIGHT_LIMIT,
        surf_bounded(surface, depth as int + 1),
        0 <= parent_pos@ < old(rects)@.len(),
        old(rects)@[parent_pos@].depth <= depth,
        lr_contains(old(rects)@[parent_pos@], ix as int, iy as int, iw as int, ih as int),
        rects_wf(old(rects)@),
        map_wf(old(node_to_rect)@, old(rects)@),
        nodes_in(old(rects)@, tree.nodes@.len() as int),
    ensures
        final(rects)@.len() >= old(rects)@.len(),
        forall|j: int| 0 <= j < old(rects)@.len() ==> final(rects)@[j] == old(rects)@[j],
        forall|j: int|
            0 <= j < old(node_to_rect)@.len() ==> final(node_to_rect)@[j] == old(
                node_to_rect,
            )@[j],
        rects_wf(final(rects)@),
        map_wf(final(node_to_rect)@, final(rects)@),
        nodes_in(final(rects)@, tree.nodes@.len() as int),
        forall|j: int|
            old(rects)@.len() <= j < final(rects)@.len() ==> lr_within(
                #[trigger] final(rects)@[j],
                ix as int,
                iy as int,
                iw as int,
                ih as int,
            ),
        (exists|q: int|
            0 <= q < positioned@.len() && (#[trigger] positioned@[q]).w >= 1
                && positioned@[q].h >= 1) ==> final(rects)@.len() > old(rects)@.len(),
    decreases config.max_depth - depth, 0int,
{
    let ghost rects_at_entry = rects@;
    let ghost map_at_entry = node_to_rect@;
    let mut i: usize = 0;
    while i < positioned.len()
        invariant
            i <= positioned@.len(),
            rects@.len() >= rects_at_entry.len(),
            forall|j: int| 0 <= j < rects_at_entry.len() ==> rects@[j] == rects_at_entry[j],
            forall|j: int|
                0 <= j < map_at_entry.len() ==> node_to_rect@[j] == map_at_entry[j],
            rects_wf(rects@),
            map_wf(node_to_rect@, rects@),
            nodes_in(rects@, tree.nodes@.len() as int),
            rects@.len() > parent_pos@,
            rects@[parent_pos@] == rects_at_entry[parent_pos@],
            forall|j: int|
                rects_at_entry.len() <= j < rects@.len() ==> lr_within(
                    #[trigger] rects@[j],
                    ix as int,
                    iy as int,
                    iw as int,
                    ih as int,
                ),
            (exists|q: int|
                0 <= q < i && (#[trigger] positioned@[q]).w >= 1 && positioned@[q].h >= 1)
                ==> rects@.len() > rects_at_entry.len(),
        decreases positioned@.len() - i,
    {
        let pos = positioned[i];
        let mut child_id = vis_ids[i];
        let mut child_depth: u16 = depth + 1;
        if tree.nodes[child_id.index()].is_dir {
            let (c2, collapsed) = collapse_single_dir_chain(tree, child_id);
            child_id = c2;
            let extra: usize = if collapsed > 0xFFFF {
                0xFFFF
            } else {
                collapsed
            };
            let cd: usize = depth as usize + 1 + extra;
            child_depth = if cd > 0xFFFF {
                0xFFFF
            } else {
                cd as u16
            };
        }
        if pos.w >= 1 && pos.h >= 1 {
            let mut sx1 = surface.sx1;
            let mut sx2 = surface.sx2;
            let mut sy1 = surface.sy1;
            let mut sy2 = surface.sy2;
            proof {
                lemma_surf_step(surface, depth as int);
            }
            add_ridge(pos.x, pos.x + pos.w, cushion_h, &mut sx1, &mut sx2);
            add_ridge(pos.y, pos.y + pos.h, cushion_h, &mut sy1, &mut sy2);
            let new_surface = Surface { sx1, sx2, sy1, sy2 };
            let idx = rects.len();
            let rect = LayoutRect {
                node: child_id,
                x: pos.x,
                y: pos.y,
                w: pos.w,
                h: pos.h,
                depth: child_depth,
                surface: new_surface,
            };
            proof {
                lemma_surf_grow(new_surface, depth as int + 2, DEPTH_LIMIT as int + 1);
                assert(nested_in(rects@.push(rect), rects@.len() as int, parent_pos@));
                lemma_rects_wf_push(rects@, rect, parent_pos@);
            }
            rects.push(rect);
            node_to_rect.push((child_id.0, idx));
            if tree.nodes[child_id.index()].is_dir && pos.w >= config.recurse_min_side && pos.h
                >= config.recurse_min_side {
                proof {
                    lemma_surf_grow(new_surface, depth as int + 2, child_depth as int + 1);
                    lemma_height_decay(cushion_h as int, config.cushion_falloff_milli as int);
                }
                let ghost rects_before_rec = rects@;
                layout_children(
                    tree,
                    child_id,
                    pos.x,
                    pos.y,
                    pos.w,
                    pos.h,
                    child_depth,
                    new_surface,
                    cushion_h * config.cushion_falloff_milli / 1000,
                    config,
                    rects,
                    node_to_rect,
                    Ghost(idx as int),
                );
                proof {
                    // descendants sit inside the child cell, hence inside
                    // the inner rectangle
                    assert forall|j: int|
                        rects_at_entry.len() <= j < rects@.len() implies lr_within(
                        #[trigger] rects@[j],
                        ix as int,
                        iy as int,
                        iw as int,
                        ih as int,
                    ) by {
                        if j >= rects_before_rec.len() {
                            assert(lr_within(rects@[j], pos.x as int, pos.y as int,
                                pos.w as int, pos.h as int));
                        } else {
                            assert(rects@[j] == rects_before_rec[j]);
                        }
                    }
                }
            }
        }
        i = i + 1;
    }
}

/// Scaling a pixel length by a decay factor in thousandths keeps it in
/// range.
proof fn lemma_milli_scale(v: int, f: int)
    requires
        0 <= v <= COORD_LIMIT,
        0 <= f <= 1000,
    ensures
        0 <= v * f / 1000 <= v,
        v * f <= 1000 * COORD_LIMIT,
{
    assert(0 <= v * f <= v * 1000) by (nonlinear_arith)
        requires
            0 <= v && 0 <= f <= 1000,
    ;
    assert(v * 1000 == 1000 * v) by (nonlinear_arith);
    vstd::arithmetic::div_mod::lemma_div_pos_is_pos(v * f, 1000int);
    vstd::arithmetic::div_mod::lemma_div_is_ordered(v * f, 1000 * v, 1000int);
    vstd::arithmetic::div_mod::lemma_div_multiples_vanish(v, 1000int);
    vstd::arithmetic::mul::lemma_mul_inequality(v, COORD_LIMIT as int, 1000int);
}

/// What one top-level layout pass emits beyond the root rectangle, under
/// the conditions that ask for work: nothing when the root is shallow,
/// small or empty; the exact collapsed rectangle when one directory child
/// dominates; at least one child rectangle otherwise.
#[verifier::opaque]
pub open spec fn layout_fills(
    tree: FileTree,
    root: NodeId,
    x: int,
    y: int,
    w: int,
    h: int,
    c: LayoutConfig,
    l: Layout,
) -> bool {
    let is_dir = tree.nodes@[root.0 as int].is_dir;
    let psize = tree.nodes@[root.0 as int].size;
    let area = w * h;
    &&& (is_dir && c.max_depth == 0 ==> l.rects@.len() == 1)
    &&& (is_dir && c.max_depth >= 1 && area < c.min_area ==> l.rects@.len() == 1)
    &&& (is_dir && c.max_depth >= 1 && area >= c.min_area && psize == 0 ==> l.rects@.len()
        == 1)
    &&& (is_dir && c.max_depth >= 1 && area >= c.min_area && psize >= 1
        && chain_collapse_applies(tree, root, c) && w >= 1 && h >= 1 ==> l.rects@.len() >= 2
        && l.rects@[1] == spec_chain_rect(
        tree,
        root,
        x,
        y,
        w,
        h,
        0,
        Surface { sx1: 0i64, sx2: 0i64, sy1: 0i64, sy2: 0i64 },
        c.cushion_height_milli as int,
        c,
    ))
    &&& (is_dir && c.max_depth >= 1 && area >= c.min_area && psize >= 1
        && !chain_collapse_applies(tree, root, c) && w >= 1 && h >= 1 && c.min_area >= 1 && (
    exists|k: int|
        0 <= k < tree.nodes@[root.0 as int].children@.len() && share_of(
            tree.nodes@[(#[trigger] tree.nodes@[root.0 as int].children@[k]).0 as int].size as int,
            area,
            psize as int,
        ) >= 1) ==> l.rects@.len() >= 2)
}

/// Compute the layout of the subtree under `root` inside the viewport
/// `viewport_w` by `viewport_h` pixels, origin at zero.
pub fn compute_layout(
    tree: &FileTree,
    root: NodeId,
    viewport_w: i64,
    viewport_h: i64,
    config: &LayoutConfig,
) -> (l: Layout)
    requires
        tree.wf(),
        root.0 < tree.nodes@.len(),
        config.wf(),
        0 <= viewport_w <= COORD_LIMIT,
        0 <= viewport_h <= COORD_LIMIT,
    ensures
        l.rects@.len() >= 1,
        l.rects@[0] == (LayoutRect {
            node: root,
            x: 0i64,
            y: 0i64,
            w: viewport_w,
            h: viewport_h,
            depth: 0u16,
            surface: Surface { sx1: 0i64, sx2: 0i64, sy1: 0i64, sy2: 0i64 },
        }),
        rects_wf(l.rects@),
        map_wf(l.node_to_rect@, l.rects@),
        nodes_in(l.rects@, tree.nodes@.len() as int),
        !tree.nodes@[root.0 as int].is_dir ==> l.rects@.len() == 1,
        forall|j: int|
            0 <= j < l.rects@.len() ==> lr_within(#[trigger] l.rects@[j], 0, 0,
            viewport_w as int, viewport_h as int),
        layout_fills(*tree, root, 0, 0, viewport_w as int, viewport_h as int, *config, l),
{
    compute_layout_in_rect(tree, root, 0, 0, viewport_w, viewport_h, config)
}

/// Compute the layout of the subtree under `root` inside an explicit
/// rectangle (used to keep clear of reserved screen space).
pub fn compute_layout_in_rect(
    tree: &FileTree,
    root: NodeId,
    viewport_x: i64,
    viewport_y: i64,
    viewport_w: i64,
    viewport_h: i64,
    config: &LayoutConfig,
) -> (l: Layout)
    requires
        tree.wf(),
        root.0 < tree.nodes@.len(),
        config.wf(),
        0 <= viewport_w <= COORD_LIMIT,
        0 <= viewport_h <= COORD_LIMIT,
        -COORD_LIMIT <= viewport_x,
        viewport_x + viewport_w <= 2 * COORD_LIMIT,
        -COORD_LIMIT <= viewport_y,
        viewport_y + viewport_h <= 2 * COORD_LIMIT,
    ensures
        l.rects@.len() >= 1,
        l.rects@[0] == (LayoutRect {
            node: root,
            x: viewport_x,
            y: viewport_y,
            w: viewport_w,
            h: viewport_h,
            depth: 0u16,
            surface: Surface { sx1: 0i64, sx2: 0i64, sy1: 0i64, sy2: 0i64 },
        }),
        rects_wf(l.rects@),
        map_wf(l.node_to_rect@, l.rects@),
        nodes_in(l.rects@, tree.nodes@.len() as int),
        !tree.nodes@[root.0 as int].is_dir ==> l.rects@.len() == 1,
        forall|j: int|
            0 <= j < l.rects@.len() ==> lr_within(#[trigger] l.rects@[j], viewport_x as int,
            viewport_y as int, viewport_w as int, viewport_h as int),
        layout_fills(
            *tree,
            root,
            viewport_x as int,
            viewport_y as int,
            viewport_w as int,
            viewport_h as int,
            *config,
            l,
        ),
{
    let mut rects: Vec<LayoutRect> = Vec::new();
    let mut node_to_rect: Vec<(u32, usize)> = Vec::new();
    let root_rect = LayoutRect {
        node: root,
        x: viewport_x,
        y: viewport_y,
        w: viewport_w,
        h: viewport_h,
        depth: 0,
        surface: Surface::flat(),
    };
    rects.push(root_rect);
    node_to_rect.push((root.0, 0));
    if tree.nodes[root.index()].is_dir {
        layout_children(
            tree,
            root,
            viewport_x,
            viewport_y,
            viewport_w,
            viewport_h,
            0,
            Surface::flat(),
            config.cushion_height_milli,
            config,
            &mut rects,
            &mut node_to_rect,
            Ghost(0int),
        );
        proof {
            // at the root there are no insets: the inner rectangle is the
            // whole viewport
            assert(spec_inner_rect(
                viewport_x as int,
                viewport_y as int,
                viewport_w as int,
                viewport_h as int,
                0,
                *config,
            ) == (viewport_x as int, viewport_y as int, viewport_w as int, viewport_h as int))
                by {
                reveal(spec_inner_rect);
            }
        }
    }
    let l = Layout { rects, node_to_rect };
    proof {
        assert(layout_fills(
            *tree,
            root,
            viewport_x as int,
            viewport_y as int,
            viewport_w as int,
            viewport_h as int,
            *config,
            l,
        )) by {
            reveal(layout_fills);
        }
    }
    l
}

/// The rounded-down proportional shares of a list rescaled to `target`,
/// summed.
pub open spec fn floors_sum(s: Seq<i64>, target: int, total: int) -> int
    decreases s.len(),
{
    if s.len() == 0 {
        0
    } else {
        floors_sum(s.drop_last(), target, total) + ((s.last() as int) * target) / total
    }
}

/// A list of rounded-down shares sums to the spec-level share sum.
proof fn lemma_floors_sum_of(floors: Seq<i64>, areas: Seq<i64>, target: int, total: int)
    requires
        floors.len() == areas.len(),
        forall|q: int|
            0 <= q < floors.len() ==> floors[q] == ((areas[q] as int) * target) / total,
    ensures
        total_of(floors) == floors_sum(areas, target, total),
    decreases floors.len(),
{
    if floors.len() > 0 {
        lemma_floors_sum_of(floors.drop_last(), areas.drop_last(), target, total);
        assert(floors.drop_last().len() == areas.drop_last().len());
        assert(floors.last() == ((areas.last() as int) * target) / total);
    }
}

/// Rescale a sorted, non-negative area list so it sums to exactly
/// `target`: proportional shares rounded down, with the leftover pixels
/// of area handed one each to the largest items.
#[verifier::loop_isolation(false)]
#[verifier::rlimit(60)]
pub fn rescale_exact(areas: &Vec<i64>, target: i64) -> (out: Vec<i64>)
    requires
        crate::geom::all_nonneg(areas@),
        crate::geom::sorted_desc(areas@),
        1 <= total_of(areas@),
        total_of(areas@) <= AREA_LIMIT,
        0 <= target <= AREA_LIMIT,
        areas@.len() <= 100000,
    ensures
        out@.len() == areas@.len(),
        crate::geom::all_nonneg(out@),
        crate::geom::sorted_desc(out@),
        total_of(out@) == target,
        forall|k: int|
            0 <= k < out@.len() ==> #[trigger] out@[k] == ((areas@[k] as int)
                * target) / total_of(areas@) + (if k < target - floors_sum(
                areas@,
                target as int,
                total_of(areas@),
            ) {
                1int
            } else {
                0int
            }),
{
    let n = areas.len();
    let ghost whole: int = total_of(areas@);
    let mut covered: i64 = 0;
    let mut k: usize = 0;
    while k < n
        invariant
            k <= n,
            covered == total_of(areas@.subrange(0, k as int)),
            0 <= covered,
        decreases n - k,
    {
        proof {
            lemma_total_of_push(areas@.subrange(0, k as int), areas@[k as int]);
            assert(areas@.subrange(0, k as int + 1) =~= areas@.subrange(0, k as int).push(
                areas@[k as int],
            ));
            crate::geom::lemma_total_of_split(areas@, k as int + 1);
            assert(areas@.subrange(0, areas@.len() as int) =~= areas@);
            lemma_total_of_nonneg(areas@.subrange(k as int + 1, areas@.len() as int));
            assert(areas@.subrange(0, k as int + 1).subrange(0, k as int) =~= areas@.subrange(
                0,
                k as int,
            ));
        }
        covered = covered + areas[k];
        k = k + 1;
    }
    proof {
        assert(areas@.subrange(0, n as int) =~= areas@);
        assert(covered == whole);
    }
    let mut floors: Vec<i64> = Vec::new();
    let mut cum_b: i64 = 0;
    let mut cum_f: i64 = 0;
    let mut j: usize = 0;
    while j < n
        invariant
            j <= n,
            covered == whole,
            1 <= covered <= AREA_LIMIT,
            floors@.len() == j,
            cum_b == total_of(areas@.subrange(0, j as int)),
            0 <= cum_b <= covered,
            0 <= cum_f,
            cum_f == total_of(floors@),
            cum_f <= target,
            0 <= cum_b * target - covered * cum_f,
            cum_b * target - covered * cum_f <= j * (covered - 1),
            forall|q: int|
                0 <= q < j ==> 0 <= #[trigger] floors@[q] <= target && floors@[q] == (areas@[q]
                    * target) / (covered as int),
            forall|a: int, b: int| 0 <= a <= b < j ==> floors@[a] >= floors@[b],
        decreases n - j,
    {
        let b = areas[j];
        proof {
            lemma_total_of_push(areas@.subrange(0, j as int), b);
            assert(areas@.subrange(0, j as int + 1) =~= areas@.subrange(0, j as int).push(b));
            crate::geom::lemma_total_of_split(areas@, j as int + 1);
            assert(areas@.subrange(0, areas@.len() as int) =~= areas@);
            lemma_total_of_nonneg(areas@.subrange(j as int + 1, areas@.len() as int));
            assert(cum_b + b <= covered);
            assert(b * target <= covered * target) by (nonlinear_arith)
                requires
                    0 <= b <= covered && 0 <= target,
            ;
            assert(0 <= (b as int) * (target as int) <= (AREA_LIMIT as int) * (
            AREA_LIMIT as int)) by (nonlinear_arith)
                requires
                    0 <= b <= AREA_LIMIT && 0 <= target <= AREA_LIMIT,
            ;
            vstd::arithmetic::div_mod::lemma_fundamental_div_mod(
                (b as int) * (target as int),
                covered as int,
            );
            vstd::arithmetic::div_mod::lemma_mod_division_less_than_divisor(
                (b as int) * (target as int),
                covered as int,
            );
            vstd::arithmetic::div_mod::lemma_div_pos_is_pos(
                (b as int) * (target as int),
                covered as int,
            );
            vstd::arithmetic::div_mod::lemma_div_is_ordered(
                (b as int) * (target as int),
                (covered as int) * (target as int),
                covered as int,
            );
            vstd::arithmetic::div_mod::lemma_div_multiples_vanish(target as int, covered as int);
        }
        let f = b * target / covered;
        proof {
            let bi = b as int;
            let ti = target as int;
            let ci = covered as int;
            let fi = f as int;
            assert(ci * fi <= bi * ti < ci * fi + ci);
            assert((cum_b + bi) * ti - ci * (cum_f + fi) == (cum_b * ti - ci * cum_f) + (bi * ti
                - ci * fi)) by (nonlinear_arith);
            assert((j + 1) * (ci - 1) == j * (ci - 1) + (ci - 1)) by (nonlinear_arith);
            assert(cum_f + fi <= ti) by (nonlinear_arith)
                requires
                    ci * (cum_f + fi) <= (cum_b + bi) * ti && cum_b + bi <= ci && 1 <= ci && 0
                        <= ti && 0 <= cum_f + fi,
            ;
            lemma_total_of_push(floors@, f);
            if j > 0 {
                assert forall|a: int, q: int| 0 <= a <= q < j + 1 implies floors@.push(f)[a]
                    >= floors@.push(f)[q] by {
                    if q == j && a < j {
                        vstd::arithmetic::mul::lemma_mul_inequality(bi, areas@[a] as int, ti);
                        vstd::arithmetic::div_mod::lemma_div_is_ordered(
                            bi * ti,
                            (areas@[a] as int) * ti,
                            ci,
                        );
                    }
                }
            }
        }
        floors.push(f);
        cum_b = cum_b + b;
        cum_f = cum_f + f;
        j = j + 1;
    }
    proof {
        assert(areas@.subrange(0, j as int) == areas@.subrange(0, n as int));
        assert(areas@.subrange(0, n as int) =~= areas@);
        assert(cum_b == covered);
        assert(covered * (target - cum_f) == cum_b * target - covered * cum_f)
            by (nonlinear_arith)
            requires
                cum_b == covered,
        ;
        assert(0 <= target - cum_f < n as int) by (nonlinear_arith)
            requires
                0 <= covered * (target - cum_f) <= n as int * (covered - 1) && 1 <= covered && 1
                    <= n as int,
        ;
    }
    let remainder: i64 = target - cum_f;
    let mut out: Vec<i64> = Vec::new();
    let mut q: usize = 0;
    while q < n
        invariant
            q <= n,
            n == floors@.len(),
            0 <= remainder < n as int,
            out@.len() == q,
            forall|a: int|
                0 <= a < q ==> #[trigger] out@[a] == floors@[a] + (if a < remainder as int {
                    1int
                } else {
                    0int
                }),
            total_of(out@) == total_of(floors@.subrange(0, q as int)) + (if q as int
                <= remainder as int {
                q as int
            } else {
                remainder as int
            }),
            forall|q2: int| 0 <= q2 < n ==> 0 <= #[trigger] floors@[q2] <= target,
            forall|a: int, b: int| 0 <= a <= b < n ==> floors@[a] >= floors@[b],
        decreases n - q,
    {
        let add: i64 = if q < remainder as usize {
            1
        } else {
            0
        };
        let v = floors[q] + add;
        proof {
            lemma_total_of_push(out@, v);
            lemma_total_of_push(floors@.subrange(0, q as int), floors@[q as int]);
            assert(floors@.subrange(0, q as int + 1) =~= floors@.subrange(0, q as int).push(
                floors@[q as int],
            ));
        }
        out.push(v);
        q = q + 1;
    }
    proof {
        assert(floors@.subrange(0, n as int) == floors@);
        assert(total_of(out@) == total_of(floors@) + remainder);
        assert(crate::geom::sorted_desc(out@));
        assert(crate::geom::all_nonneg(out@));
        lemma_floors_sum_of(floors@, areas@, target as int, covered as int);
    }
    out
}

/// Place one child rectangle, accumulate its cushion ridges on top of the
/// parent surface, and recurse into it when it is a directory with room
/// to show structure. Sub-pixel rectangles are dropped entirely.
fn push_child_rect_and_recurse(
    tree: &FileTree,
    child: NodeId,
    cx: i64,
    cy: i64,
    cw: i64,
    ch: i64,
    depth: u16,
    parent_surface: Surface,
    cushion_h: i64,
    config: &LayoutConfig,
    rects: &mut Vec<LayoutRect>,
    node_to_rect: &mut Vec<(u32, usize)>,
    parent_pos: Ghost<int>,
)
    requires
        tree.wf(),
        child.0 < tree.nodes@.len(),
        config.wf(),
        0 <= cw <= COORD_LIMIT,
        0 <= ch <= COORD_LIMIT,
        -COORD_LIMIT <= cx,
        cx + cw <= 2 * COORD_LIMIT,
        -COORD_LIMIT <= cy,
        cy + ch <= 2 * COORD_LIMIT,
        0 <= cushion_h <= HEIGHT_LIMIT,
        depth < DEPTH_LIMIT,
        surf_bounded(parent_surface, depth as int + 1),
        0 <= parent_pos@ < old(rects)@.len(),
        old(rects)@[parent_pos@].depth <= depth,
        lr_contains(old(rects)@[parent_pos@], cx as int, cy as int, cw as int, ch as int),
        rects_wf(old(rects)@),
        map_wf(old(node_to_rect)@, old(rects)@),
        nodes_in(old(rects)@, tree.nodes@.len() as int),
    ensures
        final(rects)@.len() >= old(rects)@.len(),
        forall|j: int| 0 <= j < old(rects)@.len() ==> final(rects)@[j] == old(rects)@[j],
        forall|j: int|
            0 <= j < old(node_to_rect)@.len() ==> final(node_to_rect)@[j] == old(
                node_to_rect,
            )@[j],
        rects_wf(final(rects)@),
        map_wf(final(node_to_rect)@, final(rects)@),
        nodes_in(final(rects)@, tree.nodes@.len() as int),
        cw < 1 || ch < 1 ==> final(rects)@ == old(rects)@ && final(node_to_rect)@ == old(
            node_to_rect,
        )@,
        cw >= 1 && ch >= 1 ==> final(rects)@.len() > old(rects)@.len() && final(rects)@[old(
            rects,
        )@.len() as int] == spec_placed_rect(
            *tree,
            child,
            cx as int,
            cy as int,
            cw as int,
            ch as int,
            depth,
            parent_surface,
            cushion_h as int,
        ),
        forall|j: int|
            old(rects)@.len() <= j < final(rects)@.len() ==> lr_within(
                #[trigger] final(rects)@[j],
                cx as int,
                cy as int,
                cw as int,
                ch as int,
            ),
{
    if cw < 1 || ch < 1 {
        return ;
    }
    let mut child_id = child;
    let mut child_depth: u16 = depth + 1;
    if tree.nodes[child_id.index()].is_dir {
        let (c2, collapsed) = collapse_single_dir_chain(tree, child_id);
        child_id = c2;
        let extra: usize = if collapsed > 0xFFFF {
            0xFFFF
        } else {
            collapsed
        };
        let cd: usize = depth as usize + 1 + extra;
        child_depth = if cd > 0xFFFF {
            0xFFFF
        } else {
            cd as u16
        };
    }
    let mut sx1 = parent_surface.sx1;
    let mut sx2 = parent_surface.sx2;
    let mut sy1 = parent_surface.sy1;
    let mut sy2 = parent_surface.sy2;
    proof {
        lemma_surf_step(parent_surface, depth as int);
    }
    add_ridge(cx, cx + cw, cushion_h, &mut sx1, &mut sx2);
    add_ridge(cy, cy + ch, cushion_h, &mut sy1, &mut sy2);
    let new_surface = Surface { sx1, sx2, sy1, sy2 };
    let idx = rects.len();
    let rect = LayoutRect {
        node: child_id,
        x: cx,
        y: cy,
        w: cw,
        h: ch,
        depth: child_depth,
        surface: new_surface,
    };
    proof {
        lemma_surf_grow(new_surface, depth as int + 2, DEPTH_LIMIT as int + 1);
        assert(nested_in(rects@.push(rect), rects@.len() as int, parent_pos@));
        lemma_rects_wf_push(rects@, rect, parent_pos@);
    }
    rects.push(rect);
    node_to_rect.push((child_id.0, idx));
    proof {
        assert(rects@[idx as int] == spec_placed_rect(
            *tree,
            child,
            cx as int,
            cy as int,
            cw as int,
            ch as int,
            depth,
            parent_surface,
            cushion_h as int,
        )) by {
            reveal(spec_placed_rect);
        }
    }
    if tree.nodes[child_id.index()].is_dir && cw >= config.recurse_min_side && ch
        >= config.recurse_min_side {
        proof {
            lemma_surf_grow(new_surface, depth as int + 2, child_depth as int + 1);
            lemma_height_decay(cushion_h as int, config.cushion_falloff_milli as int);
        }
        let ghost rects_before_rec = rects@;
        layout_children(
            tree,
            child_id,
            cx,
            cy,
            cw,
            ch,
            child_depth,
            new_surface,
            cushion_h * config.cushion_falloff_milli / 1000,
            config,
            rects,
            node_to_rect,
            Ghost(idx as int),
        );
        proof {
            assert forall|j: int|
                old(rects)@.len() <= j < rects@.len() implies lr_within(
                #[trigger] rects@[j],
                cx as int,
                cy as int,
                cw as int,
                ch as int,
            ) by {
                if j < rects_before_rec.len() {
                    assert(rects@[j] == rects_before_rec[j]);
                }
            }
        }
    }
}

/// The L-shape split coordinates: the first pixel column to the right of
/// the reserved rectangle and the first pixel row below it, each with an
/// 8-pixel gap and clamped to the viewport.
pub open spec fn spec_lshape_split(
    viewport_w: int,
    viewport_h: int,
    exclusion: crate::geom::Rect,
) -> (int, int) {
    let rx_raw = exclusion.x + exclusion.w + 8;
    let sy_raw = exclusion.y + exclusion.h + 8;
    let rx = if rx_raw < 0 {
        0int
    } else if rx_raw > viewport_w {
        viewport_w
    } else {
        rx_raw
    };
    let sy = if sy_raw < 0 {
        0int
    } else if sy_raw > viewport_h {
        viewport_h
    } else {
        sy_raw
    };
    (rx, sy)
}

/// Pack one region of an L-shaped layout: rescale the given child areas
/// to the region's area, squarify them inside it, and emit the children
/// under the root rectangle at index 0.
#[verifier::loop_isolation(false)]
fn lay_region(
    tree: &FileTree,
    ids: &Vec<NodeId>,
    areas: &Vec<i64>,
    rx: i64,
    ry: i64,
    rw: i64,
    rh: i64,
    config: &LayoutConfig,
    rects: &mut Vec<LayoutRect>,
    node_to_rect: &mut Vec<(u32, usize)>,
)
    requires
        tree.wf(),
        config.wf(),
        ids@.len() == areas@.len(),
        ids@.len() <= 100000,
        forall|k: int| 0 <= k < ids@.len() ==> (#[trigger] ids@[k]).0 < tree.nodes@.len(),
        crate::geom::all_nonneg(areas@),
        crate::geom::sorted_desc(areas@),
        total_of(areas@) <= AREA_LIMIT,
        0 <= rw <= COORD_LIMIT,
        0 <= rh <= COORD_LIMIT,
        -COORD_LIMIT <= rx,
        rx + rw <= 2 * COORD_LIMIT,
        -COORD_LIMIT <= ry,
        ry + rh <= 2 * COORD_LIMIT,
        old(rects)@.len() >= 1,
        old(rects)@[0].depth == 0,
        lr_contains(old(rects)@[0], rx as int, ry as int, rw as int, rh as int),
        rects_wf(old(rects)@),
        map_wf(old(node_to_rect)@, old(rects)@),
        nodes_in(old(rects)@, tree.nodes@.len() as int),
        0 < DEPTH_LIMIT,
    ensures
        final(rects)@.len() >= old(rects)@.len(),
        forall|j: int| 0 <= j < old(rects)@.len() ==> final(rects)@[j] == old(rects)@[j],
        forall|j: int|
            0 <= j < old(node_to_rect)@.len() ==> final(node_to_rect)@[j] == old(
                node_to_rect,
            )@[j],
        rects_wf(final(rects)@),
        map_wf(final(node_to_rect)@, final(rects)@),
        nodes_in(final(rects)@, tree.nodes@.len() as int),
        forall|j: int|
            old(rects)@.len() <= j < final(rects)@.len() ==> lr_within(
                #[trigger] final(rects)@[j],
                rx as int,
                ry as int,
                rw as int,
                rh as int,
            ),
{
    proof {
        assert(0 <= rw * rh <= AREA_LIMIT) by (nonlinear_arith)
            requires
                0 <= rw <= COORD_LIMIT && 0 <= rh <= COORD_LIMIT && AREA_LIMIT == COORD_LIMIT
                    * COORD_LIMIT,
        ;
        crate::geom::lemma_total_of_nonneg(areas@);
    }
    let region_area = rw * rh;
    if ids.len() == 0 || region_area < config.min_area {
        return ;
    }
    let mut sum: i64 = 0;
    let mut k: usize = 0;
    while k < areas.len()
        invariant
            k <= areas@.len(),
            sum == total_of(areas@.subrange(0, k as int)),
            0 <= sum <= total_of(areas@),
        decreases areas@.len() - k,
    {
        proof {
            lemma_total_of_push(areas@.subrange(0, k as int), areas@[k as int]);
            assert(areas@.subrange(0, k as int + 1) =~= areas@.subrange(0, k as int).push(
                areas@[k as int],
            ));
            crate::geom::lemma_total_of_split(areas@, k as int + 1);
            assert(areas@.subrange(0, areas@.len() as int) =~= areas@);
            lemma_total_of_nonneg(areas@.subrange(k as int + 1, areas@.len() as int));
            assert(areas@.subrange(0, k as int + 1).subrange(0, k as int) =~= areas@.subrange(
                0,
                k as int,
            ));
        }
        sum = sum + areas[k];
        k = k + 1;
    }
    proof {
        assert(areas@.subrange(0, areas@.len() as int) =~= areas@);
    }
    if sum < 1 {
        return ;
    }
    let scaled = rescale_exact(areas, region_area);
    let positioned = crate::geom::squarify(&scaled, rx, ry, rw, rh);
    let ghost rects_at_entry = rects@;
    let ghost map_at_entry = node_to_rect@;
    let mut i: usize = 0;
    while i < positioned.len()
        invariant
            positioned@.len() <= ids@.len(),
            i <= positioned@.len(),
            rects@.len() >= rects_at_entry.len(),
            forall|j: int| 0 <= j < rects_at_entry.len() ==> rects@[j] == rects_at_entry[j],
            forall|j: int|
                0 <= j < map_at_entry.len() ==> node_to_rect@[j] == map_at_entry[j],
            rects_wf(rects@),
            map_wf(node_to_rect@, rects@),
            nodes_in(rects@, tree.nodes@.len() as int),
            rects@.len() >= 1,
            rects@[0] == rects_at_entry[0],
            forall|j: int|
                rects_at_entry.len() <= j < rects@.len() ==> lr_within(
                    #[trigger] rects@[j],
                    rx as int,
                    ry as int,
                    rw as int,
                    rh as int,
                ),
        decreases positioned@.len() - i,
    {
        let pos = positioned[i];
        let ghost rects_before = rects@;
        push_child_rect_and_recurse(
            tree,
            ids[i],
            pos.x,
            pos.y,
            pos.w,
            pos.h,
            0,
            Surface::flat(),
            config.cushion_height_milli,
            config,
            rects,
            node_to_rect,
            Ghost(0int),
        );
        proof {
            // the cell sits inside the region, so everything placed in it
            // does too
            assert forall|j: int|
                rects_at_entry.len() <= j < rects@.len() implies lr_within(
                #[trigger] rects@[j],
                rx as int,
                ry as int,
                rw as int,
                rh as int,
            ) by {
                if j >= rects_before.len() {
                    assert(lr_within(rects@[j], pos.x as int, pos.y as int, pos.w as int,
                        pos.h as int));
                } else {
                    assert(rects@[j] == rects_before[j]);
                }
            }
        }
        i = i + 1;
    }
}

/// Lay the treemap out around a reserved top-left rectangle, as a
/// non-overlapping L-shape: a strip to the right of the reservation plus
/// a full-width strip below it. The root's children are split between the
/// two regions in proportion to the regions' areas, preserving global
/// size proportions across the split.
#[verifier::loop_isolation(false)]
#[verifier::rlimit(100)]
#[verifier::spinoff_prover]
pub fn compute_layout_lshape(
    tree: &FileTree,
    root: NodeId,
    viewport_w: i64,
    viewport_h: i64,
    exclusion: crate::geom::Rect,
    config: &LayoutConfig,
) -> (l: Layout)
    requires
        tree.wf(),
        root.0 < tree.nodes@.len(),
        config.wf(),
        0 <= viewport_w <= COORD_LIMIT,
        0 <= viewport_h <= COORD_LIMIT,
        -COORD_LIMIT <= exclusion.x <= COORD_LIMIT,
        -COORD_LIMIT <= exclusion.y <= COORD_LIMIT,
        0 <= exclusion.w <= COORD_LIMIT,
        0 <= exclusion.h <= COORD_LIMIT,
    ensures
        l.rects@.len() >= 1,
        l.rects@[0].node == root,
        l.rects@[0].depth == 0,
        rects_wf(l.rects@),
        map_wf(l.node_to_rect@, l.rects@),
        nodes_in(l.rects@, tree.nodes@.len() as int),
        forall|j: int|
            0 <= j < l.rects@.len() ==> lr_within(#[trigger] l.rects@[j], 0, 0,
            viewport_w as int, viewport_h as int),
        !tree.nodes@[root.0 as int].is_dir ==> l.rects@.len() == 1 && l.rects@[0] == (
        LayoutRect {
            node: root,
            x: 0i64,
            y: 0i64,
            w: viewport_w,
            h: viewport_h,
            depth: 0u16,
            surface: Surface { sx1: 0i64, sx2: 0i64, sy1: 0i64, sy2: 0i64 },
        }),
        ({
            // with both L-shape regions kept, no child touches the
            // reserved corner
            let split = spec_lshape_split(viewport_w as int, viewport_h as int, exclusion);
            let top_area = (viewport_w - split.0) * split.1;
            let bot_area = viewport_w * (viewport_h - split.1);
            top_area >= config.min_area && bot_area >= config.min_area ==> forall|j: int|
                1 <= j < l.rects@.len() ==> (#[trigger] l.rects@[j]).x >= split.0
                    || l.rects@[j].y >= split.1
        }),
{
    let mut rects: Vec<LayoutRect> = Vec::new();
    let mut node_to_rect: Vec<(u32, usize)> = Vec::new();
    let root_rect = LayoutRect {
        node: root,
        x: 0,
        y: 0,
        w: viewport_w,
        h: viewport_h,
        depth: 0,
        surface: Surface::flat(),
    };
    rects.push(root_rect);
    node_to_rect.push((root.0, 0));
    if !tree.nodes[root.index()].is_dir {
        return Layout { rects, node_to_rect };
    }
    let gap: i64 = 8;
    let split_y_raw = exclusion.y + exclusion.h + gap;
    let split_y: i64 = if split_y_raw < 0 {
        0
    } else if split_y_raw > viewport_h {
        viewport_h
    } else {
        split_y_raw
    };
    let right_x_raw = exclusion.x + exclusion.w + gap;
    let right_x: i64 = if right_x_raw < 0 {
        0
    } else if right_x_raw > viewport_w {
        viewport_w
    } else {
        right_x_raw
    };
    proof {
        assert(spec_lshape_split(viewport_w as int, viewport_h as int, exclusion) == (
            right_x as int,
            split_y as int,
        ));
    }
    let top_w = viewport_w - right_x;
    let top_h = split_y;
    let bot_w = viewport_w;
    let bot_h = viewport_h - split_y;
    proof {
        assert(0 <= top_w * top_h <= AREA_LIMIT && 0 <= bot_w * bot_h <= AREA_LIMIT && top_w
            * top_h + bot_w * bot_h <= AREA_LIMIT) by (nonlinear_arith)
            requires
                0 <= top_w <= COORD_LIMIT && 0 <= top_h && 0 <= bot_w <= COORD_LIMIT && 0 <= bot_h
                    && top_h + bot_h <= COORD_LIMIT && AREA_LIMIT == COORD_LIMIT * COORD_LIMIT,
        ;
    }
    let top_area = top_w * top_h;
    let bot_area = bot_w * bot_h;
    let top_ok = top_area >= config.min_area;
    let bot_ok = bot_area >= config.min_area;
    if !top_ok && !bot_ok {
        return compute_layout_in_rect(tree, root, 0, 0, viewport_w, viewport_h, config);
    }
    if top_ok && !bot_ok {
        return compute_layout_in_rect(tree, root, right_x, 0, top_w, top_h, config);
    }
    if !top_ok && bot_ok {
        return compute_layout_in_rect(tree, root, 0, split_y, bot_w, bot_h, config);
    }
    let psize = tree.nodes[root.index()].size;
    if psize == 0 {
        return Layout { rects, node_to_rect };
    }
    lshape_fill(tree, root, right_x, split_y, top_w, top_h, bot_w, bot_h, viewport_w,
        viewport_h, config, &mut rects, &mut node_to_rect);
    Layout { rects, node_to_rect }
}

/// Fill the two L-shape regions: split the visible children at the top
/// region's share, then pack each half into its region.
#[verifier::loop_isolation(false)]
#[verifier::rlimit(100)]
#[verifier::spinoff_prover]
fn lshape_fill(
    tree: &FileTree,
    root: NodeId,
    right_x: i64,
    split_y: i64,
    top_w: i64,
    top_h: i64,
    bot_w: i64,
    bot_h: i64,
    viewport_w: i64,
    viewport_h: i64,
    config: &LayoutConfig,
    rects: &mut Vec<LayoutRect>,
    node_to_rect: &mut Vec<(u32, usize)>,
)
    requires
        tree.wf(),
        root.0 < tree.nodes@.len(),
        config.wf(),
        0 <= viewport_w <= COORD_LIMIT,
        0 <= viewport_h <= COORD_LIMIT,
        0 <= right_x <= viewport_w,
        0 <= split_y <= viewport_h,
        top_w == viewport_w - right_x,
        top_h == split_y,
        bot_w == viewport_w,
        bot_h == viewport_h - split_y,
        top_w * top_h + bot_w * bot_h <= AREA_LIMIT,
        0 <= top_w * top_h,
        0 <= bot_w * bot_h,
        tree.nodes@[root.0 as int].size >= 1,
        old(rects)@.len() == 1,
        old(rects)@[0].depth == 0,
        old(rects)@[0].x == 0,
        old(rects)@[0].y == 0,
        old(rects)@[0].w == viewport_w,
        old(rects)@[0].h == viewport_h,
        rects_wf(old(rects)@),
        map_wf(old(node_to_rect)@, old(rects)@),
        nodes_in(old(rects)@, tree.nodes@.len() as int),
    ensures
        final(rects)@.len() >= 1,
        final(rects)@[0] == old(rects)@[0],
        rects_wf(final(rects)@),
        map_wf(final(node_to_rect)@, final(rects)@),
        nodes_in(final(rects)@, tree.nodes@.len() as int),
        forall|j: int|
            1 <= j < final(rects)@.len() ==> lr_within(#[trigger] final(rects)@[j], 0, 0,
            viewport_w as int, viewport_h as int),
        forall|j: int|
            1 <= j < final(rects)@.len() ==> (#[trigger] final(rects)@[j]).x >= right_x
                || final(rects)@[j].y >= split_y,
{
    let psize = tree.nodes[root.index()].size;
    let top_area = top_w * top_h;
    let bot_area = bot_w * bot_h;
    let total_available = top_area + bot_area;
    let (vis_ids, vis_areas) = collect_visible_children(tree, root, psize, total_available,
        config);
    if vis_ids.len() == 0 {
        return ;
    }
    // route children: fill the top region to its target share, the rest
    // go below; both halves stay sorted since they are a prefix and a
    // suffix of a sorted list
    let mut t: usize = 0;
    let mut top_sum: i64 = 0;
    while t < vis_areas.len() && top_sum < top_area
        invariant
            t <= vis_areas@.len(),
            top_sum == total_of(vis_areas@.subrange(0, t as int)),
            0 <= top_sum,
        decreases vis_areas@.len() - t,
    {
        proof {
            lemma_total_of_push(vis_areas@.subrange(0, t as int), vis_areas@[t as int]);
            assert(vis_areas@.subrange(0, t as int + 1) =~= vis_areas@.subrange(
                0,
                t as int,
            ).push(vis_areas@[t as int]));
            // the growing prefix sum never exceeds the grand total
            crate::geom::lemma_total_of_split(vis_areas@, t as int + 1);
            assert(vis_areas@.subrange(0, vis_areas@.len() as int) =~= vis_areas@);
            lemma_total_of_nonneg(vis_areas@.subrange(t as int + 1, vis_areas@.len() as int));
        }
        top_sum = top_sum + vis_areas[t];
        t = t + 1;
    }
    if t == 0 {
        t = 1;
    }
    if t >= vis_ids.len() {
        t = vis_ids.len() - 1;
    }
    let mut top_ids: Vec<NodeId> = Vec::new();
    let mut top_areas: Vec<i64> = Vec::new();
    let mut bot_ids: Vec<NodeId> = Vec::new();
    let mut bot_areas: Vec<i64> = Vec::new();
    let mut k: usize = 0;
    while k < vis_ids.len()
        invariant
            k <= vis_ids@.len(),
            vis_ids@.len() == vis_areas@.len(),
            t <= vis_ids@.len(),
            top_ids@.len() == top_areas@.len(),
            bot_ids@.len() == bot_areas@.len(),
            top_ids@ == vis_ids@.subrange(0, (if k < t {
                k as int
            } else {
                t as int
            })),
            top_areas@ == vis_areas@.subrange(0, (if k < t {
                k as int
            } else {
                t as int
            })),
            k >= t ==> bot_ids@ == vis_ids@.subrange(t as int, k as int),
            k >= t ==> bot_areas@ == vis_areas@.subrange(t as int, k as int),
            k < t ==> bot_ids@.len() == 0,
            k < t ==> bot_areas@.len() == 0,
        decreases vis_ids@.len() - k,
    {
        if k < t {
            top_ids.push(vis_ids[k]);
            top_areas.push(vis_areas[k]);
        } else {
            bot_ids.push(vis_ids[k]);
            bot_areas.push(vis_areas[k]);
        }
        k = k + 1;
        proof {
            assert(top_ids@ =~= vis_ids@.subrange(0, (if k < t {
                k as int
            } else {
                t as int
            })));
            assert(top_areas@ =~= vis_areas@.subrange(0, (if k < t {
                k as int
            } else {
                t as int
            })));
            if k >= t {
                assert(bot_ids@ =~= vis_ids@.subrange(t as int, k as int));
                assert(bot_areas@ =~= vis_areas@.subrange(t as int, k as int));
            }
        }
    }
    proof {
        crate::geom::lemma_total_of_split(vis_areas@, t as int);
        assert(vis_areas@.subrange(0, vis_areas@.len() as int) =~= vis_areas@);
        lemma_total_of_nonneg(top_areas@);
        lemma_total_of_nonneg(bot_areas@);
    }
    let ghost rects_after_top = rects@;
    lay_region(tree, &top_ids, &top_areas, right_x, 0, top_w, top_h, config, rects,
        node_to_rect);
    let ghost rects_after_mid = rects@;
    lay_region(tree, &bot_ids, &bot_areas, 0, split_y, bot_w, bot_h, config, rects,
        node_to_rect);
    proof {
        assert forall|j: int|
            1 <= j < rects@.len() implies (#[trigger] rects@[j]).x >= right_x || rects@[j].y
            >= split_y by {
            if j < rects_after_mid.len() {
                assert(rects@[j] == rects_after_mid[j]);
                if j >= rects_after_top.len() {
                    assert(lr_within(rects_after_mid[j], right_x as int, 0, top_w as int,
                        top_h as int));
                }
            } else {
                assert(lr_within(rects@[j], 0, split_y as int, bot_w as int, bot_h as int));
            }
        }
    }
}

/// A decayed cushion height stays a valid cushion height.
proof fn lemma_height_decay(ch: int, f: int)
    requires
        0 <= ch <= HEIGHT_LIMIT,
        0 <= f <= 1000,
    ensures
        0 <= ch * f / 1000 <= ch,
        ch * f <= 1000 * HEIGHT_LIMIT,
{
    assert(0 <= ch * f <= ch * 1000 && ch * 1000 == 1000 * ch) by (nonlinear_arith)
        requires
            0 <= ch && 0 <= f <= 1000,
    ;
    vstd::arithmetic::div_mod::lemma_div_pos_is_pos(ch * f, 1000int);
    vstd::arithmetic::div_mod::lemma_div_is_ordered(ch * f, 1000 * ch, 1000int);
    vstd::arithmetic::div_mod::lemma_div_multiples_vanish(ch, 1000int);
    vstd::arithmetic::mul::lemma_mul_inequality(ch, HEIGHT_LIMIT as int, 1000int);
}

/// A surface bounded by `depth + 1` ridge steps fits the absolute bound
/// `add_ridge` asks for, as long as the depth is within range.
proof fn lemma_surf_step(s: Surface, depth: int)
    requires
        surf_bounded(s, depth + 1),
        0 <= depth < DEPTH_LIMIT,
    ensures
        -(DEPTH_LIMIT + 1) * RIDGE_STEP <= s.sx1 <= (DEPTH_LIMIT + 1) * RIDGE_STEP,
        -(DEPTH_LIMIT + 1) * RIDGE_STEP <= s.sx2 <= (DEPTH_LIMIT + 1) * RIDGE_STEP,
        -(DEPTH_LIMIT + 1) * RIDGE_STEP <= s.sy1 <= (DEPTH_LIMIT + 1) * RIDGE_STEP,
        -(DEPTH_LIMIT + 1) * RIDGE_STEP <= s.sy2 <= (DEPTH_LIMIT + 1) * RIDGE_STEP,
{
    assert((depth + 1) * RIDGE_STEP <= (DEPTH_LIMIT + 1) * RIDGE_STEP) by (nonlinear_arith)
        requires
            0 <= depth < DEPTH_LIMIT && RIDGE_STEP >= 0,
    ;
}

/// A surface within `a` ridge steps is within `b` steps for any larger
/// `b`.
proof fn lemma_surf_grow(s: Surface, a: int, b: int)
    requires
        surf_bounded(s, a),
        0 <= a <= b,
    ensures
        surf_bounded(s, b),
{
    assert(a * RIDGE_STEP <= b * RIDGE_STEP) by (nonlinear_arith)
        requires
            0 <= a <= b && RIDGE_STEP >= 0,
    ;
}

} // verus!
