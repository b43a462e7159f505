//! Box model layout. All sizes are integer pixel counts.
//!
//! Layout runs in one recursive pass per box: width resolution (the
//! six-way auto/over-constraint case split), position resolution,
//! child layout with vertical stacking, then height resolution.

use vstd::prelude::*;

use crate::css::Unit;
use crate::css::Value;
use crate::css::spec_is_auto;
use crate::css::spec_px;
use crate::style::Display;
use crate::style::StyledNode;
use crate::style::spec_display;
use crate::style::spec_lookup;
use crate::style::spec_value;

verus! {

/// Largest magnitude allowed for a declared pixel length and for a
/// viewport coordinate.
pub const MAX_PX: i64 = 1048576;

#[derive(Clone, Copy, Debug, PartialEq, Eq, Structural)]
pub struct Rect {
    pub x: i64,
    pub y: i64,
    pub width: i64,
    pub height: i64,
}

#[derive(Clone, Copy, Debug, PartialEq, Eq, Structural)]
pub struct EdgeSizes {
    pub left: i64,
    pub right: i64,
    pub top: i64,
    pub bottom: i64,
}

#[derive(Clone, Copy, Debug, PartialEq, Eq, Structural)]
pub struct Dimensions {
    // Position of the content area relative to the document origin:
    pub content: Rect,
    // Surrounding edges:
    pub padding: EdgeSizes,
    pub border: EdgeSizes,
}

pub open spec fn rect_zero() -> Rect {
    Rect { x: 0, y: 0, width: 0, height: 0 }
}

pub open spec fn edges_zero() -> EdgeSizes {
    EdgeSizes { left: 0, right: 0, top: 0, bottom: 0 }
}

pub open spec fn dims_zero() -> Dimensions {
    Dimensions { content: rect_zero(), padding: edges_zero(), border: edges_zero() }
}

impl Default for Rect {
    fn default() -> (r: Rect)
        ensures
            r == rect_zero(),
    {
        Rect { x: 0, y: 0, width: 0, height: 0 }
    }
}

impl Default for EdgeSizes {
    fn default() -> (r: EdgeSizes)
        ensures
            r == edges_zero(),
    {
        EdgeSizes { left: 0, right: 0, top: 0, bottom: 0 }
    }
}

impl Default for Dimensions {
    fn default() -> (r: Dimensions)
        ensures
            r == dims_zero(),
    {
        Dimensions {
            content: Rect { x: 0, y: 0, width: 0, height: 0 },
            padding: EdgeSizes { left: 0, right: 0, top: 0, bottom: 0 },
            border: EdgeSizes { left: 0, right: 0, top: 0, bottom: 0 },
        }
    }
}

/// A node in the layout tree.
pub struct LayoutBox<'a> {
    pub dimensions: Dimensions,
    pub box_type: BoxType<'a>,
    pub children: Vec<LayoutBox<'a>>,
}

#[derive(Clone, Copy)]
pub enum BoxType<'a> {
    BlockNode(&'a StyledNode<'a>),
    AnonymousBlock,
}

/// A containing block's content rectangle, as mathematical integers.
pub struct CbRect {
    pub x: int,
    pub y: int,
    pub width: int,
    pub height: int,
}

pub open spec fn rect_of(d: Dimensions) -> CbRect {
    CbRect {
        x: d.content.x as int,
        y: d.content.y as int,
        width: d.content.width as int,
        height: d.content.height as int,
    }
}

/// The style node of a block box.
pub open spec fn box_style(lb: LayoutBox) -> StyledNode {
    match lb.box_type {
        BoxType::BlockNode(s) => *s,
        BoxType::AnonymousBlock => arbitrary(),
    }
}

pub open spec fn is_block(lb: LayoutBox) -> bool {
    lb.box_type is BlockNode
}

/// Every length in the node's own property map is at most `MAX_PX` in
/// magnitude.
pub open spec fn map_bounded(m: Seq<(String, Value)>) -> bool {
    forall|k: int| 0 <= k < m.len() ==> -MAX_PX <= spec_px((#[trigger] m[k]).1) <= MAX_PX
}

/// The `width` property is absent or `auto`.
pub open spec fn spec_w_auto(sn: StyledNode) -> bool {
    match spec_value(sn, "width"@) {
        Some(v) => spec_is_auto(v),
        None => true,
    }
}

/// The pixel count of the `width` property (zero when absent or not a
/// length).
pub open spec fn spec_w_px(sn: StyledNode) -> int {
    match spec_value(sn, "width"@) {
        Some(v) => spec_px(v),
        None => 0,
    }
}

/// The pixel count of an edge property resolved through its shorthand
/// fallback, with a zero-length default.
pub open spec fn sn_px(sn: StyledNode, name: Seq<char>, fallback: Seq<char>) -> int {
    spec_px(spec_lookup(sn, name, fallback, Value::Length(0, Unit::Px)))
}

/// Whether an edge property resolved through its fallback is `auto`.
pub open spec fn spec_edge_auto(sn: StyledNode, name: Seq<char>, fallback: Seq<char>) -> bool {
    spec_is_auto(spec_lookup(sn, name, fallback, Value::Length(0, Unit::Px)))
}

/// Division by two that truncates toward zero, as the executable `/`
/// does on signed integers.
pub open spec fn div2(x: int) -> int {
    if x >= 0 {
        x / 2
    } else {
        -((-x) / 2)
    }
}

/// The resolved horizontal sizes of a block box.
pub struct UsedWidths {
    pub width: int,
    pub border_left: int,
    pub border_right: int,
    pub padding_left: int,
    pub padding_right: int,
}

/// Whether width resolution ends in the split-borders case: width is
/// explicit and both borders are still `auto` after the
/// over-constraint correction.
pub open spec fn split_borders_case(sn: StyledNode, cbw: int) -> bool {
    let w_auto = spec_w_auto(sn);
    let bl_auto0 = spec_edge_auto(sn, "border-left-width"@, "border-width"@);
    let br_auto0 = spec_edge_auto(sn, "border-right-width"@, "border-width"@);
    let total = sn_px(sn, "border-left-width"@, "border-width"@) + sn_px(
        sn,
        "border-right-width"@,
        "border-width"@,
    ) + sn_px(sn, "padding-left"@, "padding"@) + sn_px(sn, "padding-right"@, "padding"@)
        + spec_w_px(sn);
    let force = !w_auto && total > cbw;
    !w_auto && (bl_auto0 && !force) && (br_auto0 && !force)
}

/// The underflow left in the containing block: its content width minus
/// the sum of the declared sizes, `auto` counting as zero.
pub open spec fn spec_underflow(sn: StyledNode, cbw: int) -> int {
    cbw - (sn_px(sn, "border-left-width"@, "border-width"@) + sn_px(
        sn,
        "border-right-width"@,
        "border-width"@,
    ) + sn_px(sn, "padding-left"@, "padding"@) + sn_px(sn, "padding-right"@, "padding"@)
        + spec_w_px(sn))
}

/// Width resolution: the six-way case split over which of width,
/// border-left and border-right are `auto`, with the over-constraint
/// correction and the negative-underflow absorption into border-right.
pub open spec fn spec_used_widths(sn: StyledNode, cbw: int) -> UsedWidths {
    let w_auto = spec_w_auto(sn);
    let w0 = spec_w_px(sn);
    let bl_auto0 = spec_edge_auto(sn, "border-left-width"@, "border-width"@);
    let br_auto0 = spec_edge_auto(sn, "border-right-width"@, "border-width"@);
    let bl0 = sn_px(sn, "border-left-width"@, "border-width"@);
    let br0 = sn_px(sn, "border-right-width"@, "border-width"@);
    let pl = sn_px(sn, "padding-left"@, "padding"@);
    let pr = sn_px(sn, "padding-right"@, "padding"@);
    let total = bl0 + br0 + pl + pr + w0;
    let force = !w_auto && total > cbw;
    let bl_auto = bl_auto0 && !force;
    let br_auto = br_auto0 && !force;
    let underflow = cbw - total;
    if !w_auto && !bl_auto && !br_auto {
        // over-constrained: border-right absorbs the underflow
        UsedWidths {
            width: w0,
            border_left: bl0,
            border_right: br0 + underflow,
            padding_left: pl,
            padding_right: pr,
        }
    } else if !w_auto && !bl_auto && br_auto {
        UsedWidths {
            width: w0,
            border_left: bl0,
            border_right: underflow,
            padding_left: pl,
            padding_right: pr,
        }
    } else if !w_auto && bl_auto && !br_auto {
        UsedWidths {
            width: w0,
            border_left: underflow,
            border_right: br0,
            padding_left: pl,
            padding_right: pr,
        }
    } else if w_auto {
        // auto borders become zero; their pixel count already is zero
        if underflow >= 0 {
            UsedWidths {
                width: underflow,
                border_left: bl0,
                border_right: br0,
                padding_left: pl,
                padding_right: pr,
            }
        } else {
            // width cannot go negative: clamp and push the deficit right
            UsedWidths {
                width: 0,
                border_left: bl0,
                border_right: br0 + underflow,
                padding_left: pl,
                padding_right: pr,
            }
        }
    } else {
        // both borders auto: split the underflow evenly
        UsedWidths {
            width: w0,
            border_left: div2(underflow),
            border_right: div2(underflow),
            padding_left: pl,
            padding_right: pr,
        }
    }
}

/// A value found in a bounded map is a bounded length.
proof fn lemma_map_get_bounded(m: Seq<(String, Value)>, p: Seq<char>)
    requires
        map_bounded(m),
    ensures
        match crate::style::spec_map_get(m, p) {
            Some(v) => -MAX_PX <= spec_px(v) <= MAX_PX,
            None => true,
        },
    decreases m.len(),
{
    if m.len() > 0 {
        assert(map_bounded(m.drop_first())) by {
            assert forall|k: int|
                0 <= k < m.drop_first().len() implies -MAX_PX <= spec_px(
                (#[trigger] m.drop_first()[k]).1,
            ) <= MAX_PX by {
                assert(m.drop_first()[k] == m[k + 1]);
            }
        }
        lemma_map_get_bounded(m.drop_first(), p);
    }
}

/// All pixel counts read from a bounded style node are bounded.
proof fn lemma_style_reads_bounded(sn: StyledNode)
    requires
        map_bounded(sn.specified_values@),
    ensures
        -MAX_PX <= spec_w_px(sn) <= MAX_PX,
        forall|n: Seq<char>, f: Seq<char>| -MAX_PX <= #[trigger] sn_px(sn, n, f) <= MAX_PX,
{
    lemma_map_get_bounded(sn.specified_values@, "width"@);
    assert forall|n: Seq<char>, f: Seq<char>| -MAX_PX <= #[trigger] sn_px(sn, n, f)
        <= MAX_PX by {
        lemma_map_get_bounded(sn.specified_values@, n);
        lemma_map_get_bounded(sn.specified_values@, f);
    }
}

/// The resolved horizontal sizes stay within `6 * MAX_PX` of the
/// containing block width.
proof fn lemma_used_widths_bounds(sn: StyledNode, cbw: int, w: int)
    requires
        map_bounded(sn.specified_values@),
        -w <= cbw <= w,
        0 <= w,
    ensures
        ({
            let uw = spec_used_widths(sn, cbw);
            &&& -(w + 6 * MAX_PX) <= uw.width <= w + 6 * MAX_PX
            &&& -(w + 6 * MAX_PX) <= uw.border_left <= w + 6 * MAX_PX
            &&& -(w + 6 * MAX_PX) <= uw.border_right <= w + 6 * MAX_PX
            &&& -MAX_PX <= uw.padding_left <= MAX_PX
            &&& -MAX_PX <= uw.padding_right <= MAX_PX
        }),
{
    lemma_style_reads_bounded(sn);
}

/// Truncating halving of a pixel count.
fn half_of(x: i64) -> (r: i64)
    requires
        -0x4000000000000000 <= x <= 0x4000000000000000,
    ensures
        r == div2(x as int),
{
    if x >= 0 {
        x / 2
    } else {
        -((-x) / 2)
    }
}

impl Rect {
    /// The rectangle grown outward by the given edge sizes.
    pub fn expanded_by(self, edge: EdgeSizes) -> (r: Rect)
        requires
            -0x1000000000000000 <= self.x - edge.left <= 0x1000000000000000,
            -0x1000000000000000 <= self.y - edge.top <= 0x1000000000000000,
            -0x1000000000000000 <= self.width + edge.left <= 0x1000000000000000,
            -0x1000000000000000 <= self.width + edge.left + edge.right <= 0x1000000000000000,
            -0x1000000000000000 <= self.height + edge.top <= 0x1000000000000000,
            -0x1000000000000000 <= self.height + edge.top + edge.bottom <= 0x1000000000000000,
        ensures
            r.x == self.x - edge.left,
            r.y == self.y - edge.top,
            r.width == self.width + edge.left + edge.right,
            r.height == self.height + edge.top + edge.bottom,
    {
        Rect {
            x: self.x - edge.left,
            y: self.y - edge.top,
            width: self.width + edge.left + edge.right,
            height: self.height + edge.top + edge.bottom,
        }
    }
}

/// The padding box height of laid-out dimensions.
pub open spec fn spec_pb_height(d: Dimensions) -> int {
    d.content.height + d.padding.top + d.padding.bottom
}

/// The border box height of laid-out dimensions: the full visual
/// extent of the box in the block direction.
pub open spec fn spec_bb_height(d: Dimensions) -> int {
    spec_pb_height(d) + d.border.top + d.border.bottom
}

impl Dimensions {
    /// The area covered by the content area plus its padding.
    pub fn padding_box(self) -> (r: Rect)
        requires
            -0x1000000000000000 <= self.content.x - self.padding.left <= 0x1000000000000000,
            -0x1000000000000000 <= self.content.y - self.padding.top <= 0x1000000000000000,
            -0x1000000000000000 <= self.content.width + self.padding.left <= 0x1000000000000000,
            -0x1000000000000000 <= self.content.width + self.padding.left + self.padding.right
                <= 0x1000000000000000,
            -0x1000000000000000 <= self.content.height + self.padding.top <= 0x1000000000000000,
            -0x1000000000000000 <= spec_pb_height(self) <= 0x1000000000000000,
        ensures
            r.x == self.content.x - self.padding.left,
            r.y == self.content.y - self.padding.top,
            r.width == self.content.width + self.padding.left + self.padding.right,
            r.height == spec_pb_height(self),
    {
        self.content.expanded_by(self.padding)
    }

    /// The area covered by the content area plus padding and border.
    pub fn border_box(self) -> (r: Rect)
        requires
            -0x800000000000000 <= self.content.x - self.padding.left - self.border.left
                <= 0x800000000000000,
            -0x800000000000000 <= self.content.y - self.padding.top - self.border.top
                <= 0x800000000000000,
            -0x800000000000000 <= self.content.width + self.padding.left + self.padding.right
                + self.border.left <= 0x800000000000000,
            -0x800000000000000 <= self.content.width + self.padding.left + self.padding.right
                + self.border.left + self.border.right <= 0x800000000000000,
            -0x800000000000000 <= spec_pb_height(self) + self.border.top <= 0x800000000000000,
            -0x800000000000000 <= spec_bb_height(self) <= 0x800000000000000,
            -0x800000000000000 <= self.content.x - self.padding.left <= 0x800000000000000,
            -0x800000000000000 <= self.content.y - self.padding.top <= 0x800000000000000,
            -0x800000000000000 <= self.content.width + self.padding.left <= 0x800000000000000,
            -0x800000000000000 <= self.content.width + self.padding.left + self.padding.right
                <= 0x800000000000000,
            -0x800000000000000 <= self.content.height + self.padding.top <= 0x800000000000000,
            -0x800000000000000 <= spec_pb_height(self) <= 0x800000000000000,
        ensures
            r.x == self.content.x - self.padding.left - self.border.left,
            r.y == self.content.y - self.padding.top - self.border.top,
            r.width == self.content.width + self.padding.left + self.padding.right
                + self.border.left + self.border.right,
            r.height == spec_bb_height(self),
    {
        self.padding_box().expanded_by(self.border)
    }
}

pub open spec fn abs_i(x: int) -> int {
    if x >= 0 {
        x
    } else {
        -x
    }
}

/// The number of boxes in a layout subtree.
pub open spec fn bcnt(lb: LayoutBox) -> nat
    decreases lb,
{
    1 + bcnt_seq(lb.children@)
}

pub open spec fn bcnt_seq(cs: Seq<LayoutBox>) -> nat
    decreases cs,
{
    if cs.len() == 0 {
        0
    } else {
        bcnt(cs[0]) + bcnt_seq(cs.drop_first())
    }
}

proof fn lemma_bcnt_seq_split(cs: Seq<LayoutBox>, i: int)
    requires
        0 <= i <= cs.len(),
    ensures
        bcnt_seq(cs) == bcnt_seq(cs.take(i)) + bcnt_seq(cs.skip(i)),
    decreases i,
{
    if i == 0 {
        assert(cs.take(0) =~= Seq::empty());
        assert(cs.skip(0) =~= cs);
    } else {
        lemma_bcnt_seq_split(cs, i - 1);
        lemma_bcnt_seq_take(cs, i - 1);
        assert(cs.skip(i - 1).len() > 0);
        assert(cs.skip(i - 1)[0] == cs[i - 1]);
        assert(cs.skip(i - 1).drop_first() =~= cs.skip(i));
        assert(bcnt_seq(cs.skip(i - 1)) == bcnt(cs[i - 1]) + bcnt_seq(cs.skip(i)));
    }
}

proof fn lemma_bcnt_seq_take(cs: Seq<LayoutBox>, i: int)
    requires
        0 <= i < cs.len(),
    ensures
        bcnt_seq(cs.take(i + 1)) == bcnt_seq(cs.take(i)) + bcnt(cs[i]),
    decreases i,
{
    if i == 0 {
        assert(cs.take(1).len() == 1);
        assert(cs.take(1)[0] == cs[0]);
        assert(cs.take(1).drop_first() =~= Seq::empty());
        assert(cs.take(0) =~= Seq::empty());
    } else {
        lemma_bcnt_seq_take(cs.drop_first(), i - 1);
        assert(cs.take(i + 1)[0] == cs[0]);
        assert(cs.take(i + 1).drop_first() =~= cs.drop_first().take(i));
        assert(cs.take(i).drop_first() =~= cs.drop_first().take(i - 1));
        assert(cs.drop_first()[i - 1] == cs[i]);
    }
}

/// Every box in the subtree still has all-zero dimensions.
pub open spec fn fresh_boxes(lb: LayoutBox) -> bool
    decreases lb,
{
    &&& lb.dimensions == dims_zero()
    &&& forall|k: int| 0 <= k < lb.children@.len() ==> fresh_boxes(#[trigger] lb.children@[k])
}

/// Every block box in the subtree wraps a style node with bounded
/// lengths.
pub open spec fn boxes_bounded(lb: LayoutBox) -> bool
    decreases lb,
{
    &&& (lb.box_type matches BoxType::BlockNode(s) ==> map_bounded(s.specified_values@))
    &&& forall|k: int| 0 <= k < lb.children@.len() ==> boxes_bounded(#[trigger] lb.children@[k])
}

/// Magnitude budgets wide enough to lay out `n` more boxes without
/// machine-integer overflow, starting from containing block `cb`.
///
/// A child's containing block grows by at most `6 * MAX_PX` in width,
/// by the width plus `8 * MAX_PX` in x, and by the accumulated sibling
/// heights plus `2 * MAX_PX` in y, so each budget shrinks by a fixed
/// slope per box laid out; the height of a containing block is always
/// an accumulated sibling height, at most `5 * MAX_PX` per box over at
/// most 65536 boxes. A viewport bounded by `MAX_PX` meets every budget
/// with room to spare.
pub open spec fn cb_ok(cb: CbRect, n: nat) -> bool {
    &&& abs_i(cb.width) <= 1099511627776 - 7340032 * n
    &&& abs_i(cb.x) <= 144115188075855872 - 1099520016384 * n
    &&& abs_i(cb.y) <= 72057594037927936 - 343600529408 * n
    &&& abs_i(cb.height) <= 343597383680
}

proof fn lemma_bcnt_elem(cs: Seq<LayoutBox>, i: int)
    requires
        0 <= i < cs.len(),
    ensures
        bcnt(cs[i]) <= bcnt_seq(cs),
        bcnt_seq(cs.take(i)) + bcnt(cs[i]) <= bcnt_seq(cs),
{
    lemma_bcnt_seq_split(cs, i);
    assert(cs.skip(i).len() > 0);
    assert(cs.skip(i)[0] == cs[i]);
    assert(bcnt_seq(cs.skip(i)) == bcnt(cs[i]) + bcnt_seq(cs.skip(i).drop_first()));
}

/// `acc_height` reads only the first `k` elements.
proof fn lemma_acc_height_prefix(cs1: Seq<LayoutBox>, cs2: Seq<LayoutBox>, k: int)
    requires
        0 <= k <= cs1.len(),
        k <= cs2.len(),
        forall|j: int| 0 <= j < k ==> cs1[j] == cs2[j],
    ensures
        acc_height(cs1, k) == acc_height(cs2, k),
    decreases k,
{
    if k > 0 {
        lemma_acc_height_prefix(cs1, cs2, k - 1);
    }
}

/// The summed border-box heights of the first `k` children.
pub open spec fn acc_height(cs: Seq<LayoutBox>, k: int) -> int
    decreases k,
{
    if k <= 0 {
        0
    } else {
        acc_height(cs, k - 1) + spec_bb_height(cs[k - 1].dimensions)
    }
}

/// `n` is `o` laid out against containing block `cb`: an anonymous box
/// is untouched; a block box gets its widths from the six-way case
/// split, its position from its containing block's origin and
/// accumulated height, its children laid out in order against its own
/// content area, and its height from its children unless overridden.
pub open spec fn laid_out(o: LayoutBox, n: LayoutBox, cb: CbRect) -> bool
    decreases o,
{
    match o.box_type {
        BoxType::AnonymousBlock => n == o,
        BoxType::BlockNode(sn) => {
            let uw = spec_used_widths(*sn, cb.width);
            let bt = sn_px(*sn, "border-top-width"@, "border-width"@);
            let bb = sn_px(*sn, "border-bottom-width"@, "border-width"@);
            let pt = sn_px(*sn, "padding-top"@, "padding"@);
            let pb = sn_px(*sn, "padding-bottom"@, "padding"@);
            &&& n.box_type == o.box_type
            &&& n.children@.len() == o.children@.len()
            &&& n.dimensions.content.width == uw.width
            &&& n.dimensions.border.left == uw.border_left
            &&& n.dimensions.border.right == uw.border_right
            &&& n.dimensions.padding.left == uw.padding_left
            &&& n.dimensions.padding.right == uw.padding_right
            &&& n.dimensions.border.top == bt
            &&& n.dimensions.border.bottom == bb
            &&& n.dimensions.padding.top == pt
            &&& n.dimensions.padding.bottom == pb
            &&& n.dimensions.content.x == cb.x + uw.border_left + uw.padding_left
            &&& n.dimensions.content.y == cb.height + cb.y + bt + pt
            &&& forall|k: int|
                0 <= k < o.children@.len() ==> laid_out(
                    #[trigger] o.children@[k],
                    n.children@[k],
                    CbRect {
                        x: n.dimensions.content.x as int,
                        y: n.dimensions.content.y as int,
                        width: n.dimensions.content.width as int,
                        height: acc_height(n.children@, k),
                    },
                )
            &&& n.dimensions.content.height == (match spec_value(*sn, "height"@) {
                Some(v) => match v {
                    Value::Length(h, _) => h as int,
                    _ => o.dimensions.content.height + acc_height(
                        n.children@,
                        o.children@.len() as int,
                    ),
                },
                None => o.dimensions.content.height + acc_height(
                    n.children@,
                    o.children@.len() as int,
                ),
            })
        },
    }
}

impl<'a> LayoutBox<'a> {
    fn new(box_type: BoxType<'a>) -> (r: LayoutBox<'a>)
        ensures
            r.box_type == box_type,
            r.dimensions == dims_zero(),
            r.children@.len() == 0,
    {
        LayoutBox { box_type, dimensions: Default::default(), children: Vec::new() }
    }

    /// The style node this block box wraps. A style-less (anonymous)
    /// box has none; asking for it is a contract violation, so the
    /// caller must know the box is a block.
    fn get_style_node(&self) -> (r: &'a StyledNode<'a>)
        requires
            is_block(*self),
        ensures
            *r == box_style(*self),
    {
        match self.box_type {
            BoxType::BlockNode(node) => node,
            BoxType::AnonymousBlock => unreached(),
        }
    }

    /// Calculate the width of a block-level element: the six-way
    /// auto/over-constraint case split over width and the two borders.
    ///
    /// Sets the horizontal padding, border and content widths.
    fn calculate_block_width(&mut self, containing_block: Dimensions)
        requires
            is_block(*old(self)),
            map_bounded(box_style(*old(self)).specified_values@),
            -0x2000000000000000 <= containing_block.content.width <= 0x2000000000000000,
        ensures
            ({
                let uw = spec_used_widths(
                    box_style(*old(self)),
                    containing_block.content.width as int,
                );
                &&& final(self).dimensions.content.width == uw.width
                &&& final(self).dimensions.border.left == uw.border_left
                &&& final(self).dimensions.border.right == uw.border_right
                &&& final(self).dimensions.padding.left == uw.padding_left
                &&& final(self).dimensions.padding.right == uw.padding_right
            }),
            final(self).dimensions.content.x == old(self).dimensions.content.x,
            final(self).dimensions.content.y == old(self).dimensions.content.y,
            final(self).dimensions.content.height == old(self).dimensions.content.height,
            final(self).dimensions.border.top == old(self).dimensions.border.top,
            final(self).dimensions.border.bottom == old(self).dimensions.border.bottom,
            final(self).dimensions.padding.top == old(self).dimensions.padding.top,
            final(self).dimensions.padding.bottom == old(self).dimensions.padding.bottom,
            final(self).box_type == old(self).box_type,
            final(self).children == old(self).children,
    {
        let style = self.get_style_node();
        proof {
            lemma_style_reads_bounded(*style);
            lemma_map_get_bounded(style.specified_values@, "width"@);
        }
        // `width` has initial value `auto`.
        let mut width = match style.value("width") {
            Some(v) => v,
            None => Value::Keyword(String::from_str("auto")),
        };
        // border and padding have initial value 0.
        let zero = Value::Length(0, Unit::Px);
        let mut border_left = style.lookup("border-left-width", "border-width", &zero);
        let mut border_right = style.lookup("border-right-width", "border-width", &zero);
        let padding_left = style.lookup("padding-left", "padding", &zero);
        let padding_right = style.lookup("padding-right", "padding", &zero);
        proof {
            let sn = *style;
            assert(spec_px(border_left) == sn_px(sn, "border-left-width"@, "border-width"@));
            assert(spec_px(border_right) == sn_px(sn, "border-right-width"@, "border-width"@));
            assert(spec_px(padding_left) == sn_px(sn, "padding-left"@, "padding"@));
            assert(spec_px(padding_right) == sn_px(sn, "padding-right"@, "padding"@));
            assert(spec_px(width) == spec_w_px(sn));
            assert(spec_is_auto(width) == spec_w_auto(sn));
            assert(-MAX_PX <= sn_px(sn, "border-left-width"@, "border-width"@) <= MAX_PX);
            assert(-MAX_PX <= sn_px(sn, "border-right-width"@, "border-width"@) <= MAX_PX);
            assert(-MAX_PX <= sn_px(sn, "padding-left"@, "padding"@) <= MAX_PX);
            assert(-MAX_PX <= sn_px(sn, "padding-right"@, "padding"@) <= MAX_PX);
        }
        let total = border_left.to_px() + border_right.to_px() + padding_left.to_px()
            + padding_right.to_px() + width.to_px();
        // If width is not auto and the total is wider than the
        // container, treat auto borders as 0.
        if !width.is_auto() && total > containing_block.content.width {
            if border_left.is_auto() {
                border_left = Value::Length(0, Unit::Px);
            }
            if border_right.is_auto() {
                border_right = Value::Length(0, Unit::Px);
            }
        }
        let underflow = containing_block.content.width - total;
        let w_auto = width.is_auto();
        let bl_auto = border_left.is_auto();
        let br_auto = border_right.is_auto();
        if !w_auto && !bl_auto && !br_auto {
            // over-constrained: recalculate border-right
            border_right = Value::Length(border_right.to_px() + underflow, Unit::Px);
        } else if !w_auto && !bl_auto && br_auto {
            border_right = Value::Length(underflow, Unit::Px);
        } else if !w_auto && bl_auto && !br_auto {
            border_left = Value::Length(underflow, Unit::Px);
        } else if w_auto {
            // any other auto values become 0
            if bl_auto {
                border_left = Value::Length(0, Unit::Px);
            }
            if br_auto {
                border_right = Value::Length(0, Unit::Px);
            }
            if underflow >= 0 {
                // expand width to fill the underflow
                width = Value::Length(underflow, Unit::Px);
            } else {
                // width can't be negative: adjust border-right instead
                width = Value::Length(0, Unit::Px);
                border_right = Value::Length(border_right.to_px() + underflow, Unit::Px);
            }
        } else {
            // both borders auto: their used values are equal
            let half = half_of(underflow);
            border_left = Value::Length(half, Unit::Px);
            border_right = Value::Length(half, Unit::Px);
        }
        let d = &mut self.dimensions;
        d.content.width = width.to_px();
        d.padding.left = padding_left.to_px();
        d.padding.right = padding_right.to_px();
        d.border.left = border_left.to_px();
        d.border.right = border_right.to_px();
    }

    /// Finish calculating the block's edge sizes and position it
    /// within its containing block, directly below any earlier
    /// siblings.
    ///
    /// Sets the vertical padding and border sizes, and `x` and `y`.
    fn calculate_block_position(&mut self, containing_block: Dimensions)
        requires
            is_block(*old(self)),
            map_bounded(box_style(*old(self)).specified_values@),
            -0x1000000000000000 <= containing_block.content.x <= 0x1000000000000000,
            -0x1000000000000000 <= containing_block.content.y <= 0x1000000000000000,
            -0x1000000000000000 <= containing_block.content.height <= 0x1000000000000000,
            -0x1000000000000000 <= old(self).dimensions.border.left <= 0x1000000000000000,
            -0x1000000000000000 <= old(self).dimensions.padding.left <= 0x1000000000000000,
        ensures
            ({
                let sn = box_style(*old(self));
                &&& final(self).dimensions.border.top == sn_px(
                    sn,
                    "border-top-width"@,
                    "border-width"@,
                )
                &&& final(self).dimensions.border.bottom == sn_px(
                    sn,
                    "border-bottom-width"@,
                    "border-width"@,
                )
                &&& final(self).dimensions.padding.top == sn_px(sn, "padding-top"@, "padding"@)
                &&& final(self).dimensions.padding.bottom == sn_px(
                    sn,
                    "padding-bottom"@,
                    "padding"@,
                )
                &&& final(self).dimensions.content.x == containing_block.content.x
                    + old(self).dimensions.border.left + old(self).dimensions.padding.left
                &&& final(self).dimensions.content.y == containing_block.content.height
                    + containing_block.content.y + final(self).dimensions.border.top
                    + final(self).dimensions.padding.top
            }),
            final(self).dimensions.content.width == old(self).dimensions.content.width,
            final(self).dimensions.content.height == old(self).dimensions.content.height,
            final(self).dimensions.border.left == old(self).dimensions.border.left,
            final(self).dimensions.border.right == old(self).dimensions.border.right,
            final(self).dimensions.padding.left == old(self).dimensions.padding.left,
            final(self).dimensions.padding.right == old(self).dimensions.padding.right,
            final(self).box_type == old(self).box_type,
            final(self).children == old(self).children,
    {
        let style = self.get_style_node();
        proof {
            lemma_style_reads_bounded(*style);
        }
        // border and padding have initial value 0.
        let zero = Value::Length(0, Unit::Px);
        let bt_value = style.lookup("border-top-width", "border-width", &zero);
        let bb_value = style.lookup("border-bottom-width", "border-width", &zero);
        let pt_value = style.lookup("padding-top", "padding", &zero);
        let pb_value = style.lookup("padding-bottom", "padding", &zero);
        proof {
            let sn = *style;
            assert(spec_px(bt_value) == sn_px(sn, "border-top-width"@, "border-width"@));
            assert(spec_px(bb_value) == sn_px(sn, "border-bottom-width"@, "border-width"@));
            assert(spec_px(pt_value) == sn_px(sn, "padding-top"@, "padding"@));
            assert(spec_px(pb_value) == sn_px(sn, "padding-bottom"@, "padding"@));
            assert(-MAX_PX <= sn_px(sn, "border-top-width"@, "border-width"@) <= MAX_PX);
            assert(-MAX_PX <= sn_px(sn, "border-bottom-width"@, "border-width"@) <= MAX_PX);
            assert(-MAX_PX <= sn_px(sn, "padding-top"@, "padding"@) <= MAX_PX);
            assert(-MAX_PX <= sn_px(sn, "padding-bottom"@, "padding"@) <= MAX_PX);
        }
        let border_top = bt_value.to_px();
        let border_bottom = bb_value.to_px();
        let padding_top = pt_value.to_px();
        let padding_bottom = pb_value.to_px();
        let d = &mut self.dimensions;
        d.border.top = border_top;
        d.border.bottom = border_bottom;
        d.padding.top = padding_top;
        d.padding.bottom = padding_bottom;
        d.content.x = containing_block.content.x + d.border.left + d.padding.left;
        // Position the box below all the previous boxes in the container.
        d.content.y = containing_block.content.height + containing_block.content.y + d.border.top
            + d.padding.top;
    }

    /// Height of a block-level element: an explicit pixel height
    /// overrides the height accumulated from the children.
    fn calculate_block_height(&mut self)
        requires
            is_block(*old(self)),
        ensures
            final(self).dimensions.content.height == (match spec_value(
                box_style(*old(self)),
                "height"@,
            ) {
                Some(v) => match v {
                    Value::Length(h, _) => h as int,
                    _ => old(self).dimensions.content.height as int,
                },
                None => old(self).dimensions.content.height as int,
            }),
            final(self).dimensions.content.x == old(self).dimensions.content.x,
            final(self).dimensions.content.y == old(self).dimensions.content.y,
            final(self).dimensions.content.width == old(self).dimensions.content.width,
            final(self).dimensions.border == old(self).dimensions.border,
            final(self).dimensions.padding == old(self).dimensions.padding,
            final(self).box_type == old(self).box_type,
            final(self).children == old(self).children,
    {
        // If the height is set to an explicit length, use that exact
        // length; otherwise keep the value set by child layout.
        match self.get_style_node().value("height") {
            Some(v) => {
                match v {
                    Value::Length(h, Unit::Px) => {
                        self.dimensions.content.height = h;
                    },
                    _ => {},
                }
            },
            None => {},
        }
    }

    /// Lay out the block's children within its content area, stacking
    /// each below the previous one, and accumulate their border-box
    /// heights into this box's content height.
    ///
    /// A laid-out subtree's border-box height is at most `5 * MAX_PX`
    /// (written `5242880` below) per box in it: a content height built
    /// from bounded declared heights, plus four bounded edges.
    #[verifier::rlimit(100)]
    fn layout_block_children(&mut self)
        requires
            forall|k: int|
                0 <= k < old(self).children@.len() ==> boxes_bounded(
                    #[trigger] old(self).children@[k],
                ) && fresh_boxes(old(self).children@[k]),
            bcnt_seq(old(self).children@) <= 65535,
            old(self).dimensions.content.height == 0,
            cb_ok(rect_of(old(self).dimensions), bcnt_seq(old(self).children@)),
        ensures
            final(self).children@.len() == old(self).children@.len(),
            forall|k: int|
                0 <= k < old(self).children@.len() ==> laid_out(
                    #[trigger] old(self).children@[k],
                    final(self).children@[k],
                    CbRect {
                        x: old(self).dimensions.content.x as int,
                        y: old(self).dimensions.content.y as int,
                        width: old(self).dimensions.content.width as int,
                        height: acc_height(final(self).children@, k),
                    },
                ),
            final(self).dimensions.content.height == acc_height(
                final(self).children@,
                old(self).children@.len() as int,
            ),
            -(5242880 * bcnt_seq(old(self).children@))
                <= final(self).dimensions.content.height
                <= 5242880 * bcnt_seq(old(self).children@),
            final(self).dimensions.content.x == old(self).dimensions.content.x,
            final(self).dimensions.content.y == old(self).dimensions.content.y,
            final(self).dimensions.content.width == old(self).dimensions.content.width,
            final(self).dimensions.border == old(self).dimensions.border,
            final(self).dimensions.padding == old(self).dimensions.padding,
            final(self).box_type == old(self).box_type,
        decreases bcnt(*old(self)), 0int,
    {
        let ghost old_children = old(self).children@;
        let ghost cx = old(self).dimensions.content.x as int;
        let ghost cy = old(self).dimensions.content.y as int;
        let ghost cw = old(self).dimensions.content.width as int;
        let ghost total = bcnt_seq(old_children);
        let mut i: usize = 0;
        while i < self.children.len()
            invariant
                i <= old_children.len(),
                self.children@.len() == old_children.len(),
                forall|k: int| i <= k < old_children.len() ==> self.children@[k] == old_children[k],
                forall|k: int|
                    0 <= k < i ==> laid_out(
                        #[trigger] old_children[k],
                        self.children@[k],
                        CbRect { x: cx, y: cy, width: cw, height: acc_height(self.children@, k) },
                    ),
                forall|k: int|
                    0 <= k < old_children.len() ==> boxes_bounded(#[trigger] old_children[k])
                        && fresh_boxes(old_children[k]),
                old_children == old(self).children@,
                total == bcnt_seq(old_children),
                total <= 65535,
                cb_ok(CbRect { x: cx, y: cy, width: cw, height: 0 }, total as nat),
                self.dimensions.content.x as int == cx,
                self.dimensions.content.y as int == cy,
                self.dimensions.content.width as int == cw,
                self.dimensions.content.height == acc_height(self.children@, i as int),
                -(5242880 * bcnt_seq(old_children.take(i as int)))
                    <= self.dimensions.content.height <= 5242880 * bcnt_seq(
                    old_children.take(i as int),
                ),
                self.dimensions.border == old(self).dimensions.border,
                self.dimensions.padding == old(self).dimensions.padding,
                self.box_type == old(self).box_type,
            decreases old_children.len() - i,
        {
            let ghost pre_children = self.children@;
            let ghost acc_i = self.dimensions.content.height as int;
            let mut child = self.children.remove(i);
            proof {
                assert(child == old_children[i as int]);
                lemma_bcnt_elem(old_children, i as int);
                assert(bcnt(child) <= total);
                assert(abs_i(acc_i) <= 5242880 * bcnt_seq(old_children.take(i as int)));
                assert(bcnt_seq(old_children.take(i as int)) <= total) by {
                    lemma_bcnt_seq_split(old_children, i as int);
                }
                assert(abs_i(rect_of(self.dimensions).height) <= 343597383680);
                assert(abs_i(rect_of(self.dimensions).width) <= 1099511627776 - 7340032 * bcnt(
                    child,
                ));
                assert(abs_i(rect_of(self.dimensions).x) <= 144115188075855872 - 1099520016384
                    * bcnt(child));
                assert(abs_i(rect_of(self.dimensions).y) <= 72057594037927936 - 343600529408
                    * bcnt(child));
                assert(cb_ok(rect_of(self.dimensions), bcnt(child)));
                assert(bcnt(*old(self)) == 1 + bcnt_seq(old(self).children@));
                assert(bcnt(child) < bcnt(*old(self)));
            }
            child.layout(self.dimensions);
            proof {
                assert(laid_out(
                    old_children[i as int],
                    child,
                    CbRect { x: cx, y: cy, width: cw, height: acc_i },
                ));
            }
            let bbh = child.dimensions.border_box().height;
            proof {
                assert(bbh == spec_bb_height(child.dimensions));
                assert(abs_i(child.dimensions.content.height as int) <= 5242880 * bcnt(
                    old_children[i as int],
                ) - 4194304);
                assert(abs_i(spec_bb_height(child.dimensions)) <= 5242880 * bcnt(
                    old_children[i as int],
                ));
                lemma_bcnt_seq_take(old_children, i as int);
            }
            self.dimensions.content.height = self.dimensions.content.height + bbh;
            self.children.insert(i, child);
            i = i + 1;
            proof {
                assert(self.children@.len() == old_children.len());
                assert forall|k: int| i <= k < old_children.len() implies self.children@[k]
                    == old_children[k] by {
                    assert(self.children@[k] == pre_children.remove(i - 1).insert(i - 1, child)[k]);
                }
                lemma_acc_height_prefix(pre_children, self.children@, i - 1);
                assert(acc_height(self.children@, i as int) == acc_height(self.children@, i - 1)
                    + spec_bb_height(self.children@[i - 1].dimensions));
                assert(self.children@[i - 1] == child);
                assert forall|k: int| 0 <= k < i implies laid_out(
                    #[trigger] old_children[k],
                    self.children@[k],
                    CbRect { x: cx, y: cy, width: cw, height: acc_height(self.children@, k) },
                ) by {
                    if k < i - 1 {
                        lemma_acc_height_prefix(pre_children, self.children@, k);
                        assert(self.children@[k] == pre_children[k]);
                    } else {
                        assert(acc_height(self.children@, i - 1) == acc_i);
                    }
                }
            }
        }
        proof {
            assert(old_children.take(old_children.len() as int) =~= old_children);
        }
    }

    /// Lay out a block-level element and its descendants: width first
    /// (children depend on it), then position, then children, then
    /// height (which depends on the children).
    fn layout_block(&mut self, containing_block: Dimensions)
        requires
            is_block(*old(self)),
            boxes_bounded(*old(self)),
            fresh_boxes(*old(self)),
            bcnt(*old(self)) <= 65536,
            cb_ok(rect_of(containing_block), bcnt(*old(self))),
        ensures
            laid_out(*old(self), *final(self), rect_of(containing_block)),
            abs_i(final(self).dimensions.content.width as int) <= abs_i(
                rect_of(containing_block).width,
            ) + 6 * MAX_PX,
            abs_i(final(self).dimensions.border.left as int) <= abs_i(
                rect_of(containing_block).width,
            ) + 6 * MAX_PX,
            abs_i(final(self).dimensions.border.right as int) <= abs_i(
                rect_of(containing_block).width,
            ) + 6 * MAX_PX,
            abs_i(final(self).dimensions.padding.left as int) <= MAX_PX,
            abs_i(final(self).dimensions.padding.right as int) <= MAX_PX,
            abs_i(final(self).dimensions.border.top as int) <= MAX_PX,
            abs_i(final(self).dimensions.border.bottom as int) <= MAX_PX,
            abs_i(final(self).dimensions.padding.top as int) <= MAX_PX,
            abs_i(final(self).dimensions.padding.bottom as int) <= MAX_PX,
            abs_i(final(self).dimensions.content.x as int) <= abs_i(rect_of(containing_block).x)
                + abs_i(rect_of(containing_block).width) + 8 * MAX_PX,
            abs_i(final(self).dimensions.content.y as int) <= abs_i(rect_of(containing_block).y)
                + abs_i(rect_of(containing_block).height) + 2 * MAX_PX,
            abs_i(final(self).dimensions.content.height as int) <= 5242880 * bcnt(*old(self))
                - 4 * MAX_PX,
        decreases bcnt(*old(self)), 1int,
    {
        let ghost o = *old(self);
        let ghost sn = box_style(o);
        let ghost cb = rect_of(containing_block);
        let ghost n = bcnt(o);
        proof {
            lemma_style_reads_bounded(sn);
            lemma_map_get_bounded(sn.specified_values@, "height"@);
            lemma_used_widths_bounds(sn, cb.width, 1099511627776 - 7340032 * n);
            lemma_used_widths_bounds(sn, cb.width, abs_i(cb.width));
        }
        // Child width can depend on parent width, so width comes first.
        self.calculate_block_width(containing_block);
        // Determine where the box is located within its container.
        self.calculate_block_position(containing_block);
        proof {
            assert(bcnt_seq(self.children@) == n - 1);
            assert(cb_ok(rect_of(self.dimensions), bcnt_seq(self.children@)));
        }
        // Recursively lay out the children of this box.
        self.layout_block_children();
        // Parent height can depend on child height, so height comes
        // last.
        self.calculate_block_height();
        proof {
            assert(laid_out(o, *self, cb));
        }
    }

    /// Lay out a box and its descendants.
    fn layout(&mut self, containing_block: Dimensions)
        requires
            boxes_bounded(*old(self)),
            fresh_boxes(*old(self)),
            bcnt(*old(self)) <= 65536,
            cb_ok(rect_of(containing_block), bcnt(*old(self))),
        ensures
            laid_out(*old(self), *final(self), rect_of(containing_block)),
            abs_i(final(self).dimensions.content.width as int) <= abs_i(
                rect_of(containing_block).width,
            ) + 6 * MAX_PX,
            abs_i(final(self).dimensions.border.left as int) <= abs_i(
                rect_of(containing_block).width,
            ) + 6 * MAX_PX,
            abs_i(final(self).dimensions.border.right as int) <= abs_i(
                rect_of(containing_block).width,
            ) + 6 * MAX_PX,
            abs_i(final(self).dimensions.padding.left as int) <= MAX_PX,
            abs_i(final(self).dimensions.padding.right as int) <= MAX_PX,
            abs_i(final(self).dimensions.border.top as int) <= MAX_PX,
            abs_i(final(self).dimensions.border.bottom as int) <= MAX_PX,
            abs_i(final(self).dimensions.padding.top as int) <= MAX_PX,
            abs_i(final(self).dimensions.padding.bottom as int) <= MAX_PX,
            abs_i(final(self).dimensions.content.x as int) <= abs_i(rect_of(containing_block).x)
                + abs_i(rect_of(containing_block).width) + 8 * MAX_PX,
            abs_i(final(self).dimensions.content.y as int) <= abs_i(rect_of(containing_block).y)
                + abs_i(rect_of(containing_block).height) + 2 * MAX_PX,
            abs_i(final(self).dimensions.content.height as int) <= 5242880 * bcnt(*old(self))
                - 4 * MAX_PX,
        decreases bcnt(*old(self)), 2int,
    {
        proof {
            assert(bcnt(*old(self)) == 1 + bcnt_seq(old(self).children@));
        }
        match self.box_type {
            BoxType::BlockNode(_) => self.layout_block(containing_block),
            BoxType::AnonymousBlock => {},
        }
    }
}

/// The indices of the children that take part in layout: those whose
/// `display` is not `none`, in document order.
pub open spec fn part_idx(cs: Seq<StyledNode>) -> Seq<int>
    decreases cs.len(),
{
    if cs.len() == 0 {
        Seq::empty()
    } else {
        let rest = part_idx(cs.drop_last());
        if spec_display(cs.last()) != Display::DisplayNone {
            rest.push(cs.len() - 1)
        } else {
            rest
        }
    }
}

/// The layout box tree built from a styled subtree, before any layout:
/// one zero-dimensioned block box per participating node.
pub open spec fn built_from(lb: LayoutBox, sn: StyledNode) -> bool
    decreases sn,
{
    &&& match lb.box_type {
        BoxType::BlockNode(p) => *p == sn,
        BoxType::AnonymousBlock => false,
    }
    &&& lb.dimensions == dims_zero()
    &&& lb.children@.len() == part_idx(sn.children@).len()
    &&& forall|k: int|
        0 <= k < lb.children@.len() ==> (0 <= part_idx(sn.children@)[k] < sn.children@.len()
            && built_from(#[trigger] lb.children@[k], sn.children@[part_idx(sn.children@)[k]]))
}

/// Every length declared anywhere in the styled subtree is bounded.
pub open spec fn styles_bounded(sn: StyledNode) -> bool
    decreases sn,
{
    &&& map_bounded(sn.specified_values@)
    &&& forall|k: int| 0 <= k < sn.children@.len() ==> styles_bounded(#[trigger] sn.children@[k])
}

/// The number of nodes in a styled subtree.
pub open spec fn scnt(sn: StyledNode) -> nat
    decreases sn,
{
    1 + scnt_seq(sn.children@)
}

pub open spec fn scnt_seq(cs: Seq<StyledNode>) -> nat
    decreases cs,
{
    if cs.len() == 0 {
        0
    } else {
        scnt(cs[0]) + scnt_seq(cs.drop_first())
    }
}

proof fn lemma_scnt_seq_take(cs: Seq<StyledNode>, i: int)
    requires
        0 <= i < cs.len(),
    ensures
        scnt_seq(cs.take(i + 1)) == scnt_seq(cs.take(i)) + scnt(cs[i]),
    decreases i,
{
    if i == 0 {
        assert(cs.take(1).len() == 1);
        assert(cs.take(1)[0] == cs[0]);
        assert(cs.take(1).drop_first() =~= Seq::empty());
        assert(cs.take(0) =~= Seq::empty());
    } else {
        lemma_scnt_seq_take(cs.drop_first(), i - 1);
        assert(cs.take(i + 1)[0] == cs[0]);
        assert(cs.take(i + 1).drop_first() =~= cs.drop_first().take(i));
        assert(cs.take(i).drop_first() =~= cs.drop_first().take(i - 1));
        assert(cs.drop_first()[i - 1] == cs[i]);
    }
}

/// Build the tree of layout boxes, without performing any layout
/// calculations yet. Nodes with `display: none` are left out together
/// with their subtrees.
#[verifier::loop_isolation(false)]
fn build_layout_tree<'a>(style_node: &'a StyledNode<'a>) -> (r: LayoutBox<'a>)
    requires
        spec_display(*style_node) != Display::DisplayNone,
    ensures
        built_from(r, *style_node),
        fresh_boxes(r),
        styles_bounded(*style_node) ==> boxes_bounded(r) && bcnt(r) <= scnt(*style_node),
    decreases *style_node,
{
    // Create the root box.
    let mut root = LayoutBox::new(
        match style_node.display() {
            Display::DisplayNone => unreached(),
            _ => BoxType::BlockNode(style_node),
        },
    );
    // Create the descendant boxes.
    let mut i: usize = 0;
    proof {
        assert(style_node.children@.take(0) =~= Seq::empty());
    }
    while i < style_node.children.len()
        invariant
            i <= style_node.children@.len(),
            match root.box_type {
                BoxType::BlockNode(p) => *p == *style_node,
                BoxType::AnonymousBlock => false,
            },
            root.dimensions == dims_zero(),
            root.children@.len() == part_idx(style_node.children@.take(i as int)).len(),
            forall|k: int|
                0 <= k < root.children@.len() ==> 0 <= #[trigger] part_idx(
                    style_node.children@.take(i as int),
                )[k] < i,
            forall|k: int|
                0 <= k < root.children@.len() ==> built_from(
                    #[trigger] root.children@[k],
                    style_node.children@[part_idx(style_node.children@.take(i as int))[k]],
                ),
            forall|k: int| 0 <= k < root.children@.len() ==> fresh_boxes(#[trigger] root.children@[k]),
            styles_bounded(*style_node) ==> (forall|k: int|
                0 <= k < root.children@.len() ==> boxes_bounded(#[trigger] root.children@[k])),
            styles_bounded(*style_node) ==> bcnt_seq(root.children@) <= scnt_seq(
                style_node.children@.take(i as int),
            ),
        decreases style_node.children@.len() - i,
    {
        let ghost pre = root.children@;
        let child = &style_node.children[i];
        match child.display() {
            Display::DisplayNone => {},  // don't lay out nodes with display: none
            _ => {
                let cb = build_layout_tree(child);
                root.children.push(cb);
            },
        }
        i = i + 1;
        proof {
            let j = i as int - 1;
            assert(style_node.children@.take(i as int).drop_last() =~= style_node.children@.take(j));
            assert(style_node.children@.take(i as int).last() == style_node.children@[j]);
            lemma_scnt_seq_take(style_node.children@, j);
            if styles_bounded(*style_node) {
                assert(styles_bounded(style_node.children@[j]));
            }
            if spec_display(style_node.children@[j]) != Display::DisplayNone {
                let pn = pre.len() as int;
                assert(part_idx(style_node.children@.take(i as int)) =~= part_idx(style_node.children@.take(j)).push(j));
                assert(root.children@.take(pn) =~= pre);
                assert(root.children@.take(pn + 1) =~= root.children@);
                lemma_bcnt_seq_take(root.children@, pn);
                assert(bcnt_seq(root.children@) == bcnt_seq(pre) + bcnt(root.children@[pn]));
                assert forall|k: int| 0 <= k < root.children@.len() implies (0 <= part_idx(
                    style_node.children@.take(i as int),
                )[k] < i && built_from(
                    #[trigger] root.children@[k],
                    style_node.children@[part_idx(style_node.children@.take(i as int))[k]],
                )) by {
                    if k < pn {
                        assert(part_idx(style_node.children@.take(i as int))[k] == part_idx(style_node.children@.take(j))[k]);
                        assert(root.children@[k] == pre[k]);
                    } else {
                        assert(part_idx(style_node.children@.take(i as int))[k] == j);
                        assert(built_from(root.children@[k], style_node.children@[j]));
                    }
                }
            } else {
                assert(part_idx(style_node.children@.take(i as int)) =~= part_idx(style_node.children@.take(j)));
                assert(root.children@ == pre);
                assert forall|k: int| 0 <= k < root.children@.len() implies (0 <= part_idx(
                    style_node.children@.take(i as int),
                )[k] < i && built_from(
                    #[trigger] root.children@[k],
                    style_node.children@[part_idx(style_node.children@.take(i as int))[k]],
                )) by {
                    assert(part_idx(style_node.children@.take(i as int))[k] == part_idx(style_node.children@.take(j))[k]);
                    assert(built_from(root.children@[k], style_node.children@[part_idx(style_node.children@.take(j))[k]]));
                }
            }
        }
    }
    proof {
        assert(style_node.children@.take(style_node.children@.len() as int)
            =~= style_node.children@);
    }
    root
}

/// Transform a style tree into a layout tree with fully resolved
/// geometry. The layout algorithm expects the container height to
/// start at 0.
pub fn layout_tree<'a>(node: &'a StyledNode<'a>, containing_block: Dimensions) -> (r: LayoutBox<'a>)
    requires
        spec_display(*node) != Display::DisplayNone,
        styles_bounded(*node),
        scnt(*node) <= 65536,
        -MAX_PX <= containing_block.content.x <= MAX_PX,
        -MAX_PX <= containing_block.content.y <= MAX_PX,
        -MAX_PX <= containing_block.content.width <= MAX_PX,
        -MAX_PX <= containing_block.content.height <= MAX_PX,
    ensures
        exists|b0: LayoutBox|
            built_from(b0, *node) && #[trigger] laid_out(
                b0,
                r,
                CbRect {
                    x: containing_block.content.x as int,
                    y: containing_block.content.y as int,
                    width: containing_block.content.width as int,
                    height: 0,
                },
            ),
{
    let mut cb = containing_block;
    // The layout algorithm expects the container height to start at 0.
    cb.content.height = 0;
    let mut root_box = build_layout_tree(node);
    let ghost b0 = root_box;
    proof {
        assert(bcnt(root_box) <= 65536);
        assert(cb_ok(rect_of(cb), bcnt(root_box)));
    }
    root_box.layout(cb);
    proof {
        assert(built_from(b0, *node) && laid_out(
            b0,
            root_box,
            CbRect {
                x: containing_block.content.x as int,
                y: containing_block.content.y as int,
                width: containing_block.content.width as int,
                height: 0,
            },
        ));
    }
    root_box
}

/// Width conservation: after width resolution the resolved horizontal
/// sizes fill the containing block exactly, in every case of the split
/// (the over-constrained case preserves the equality because
/// border-right absorbs the remainder). The one exception is the
/// split-borders case with an odd underflow, where integer halving
/// loses one pixel; that input is excluded here.
pub proof fn lemma_width_conservation(sn: StyledNode, cbw: int)
    requires
        !(split_borders_case(sn, cbw) && spec_underflow(sn, cbw) % 2 != 0),
    ensures
        ({
            let uw = spec_used_widths(sn, cbw);
            uw.border_left + uw.padding_left + uw.width + uw.padding_right + uw.border_right
                == cbw
        }),
{
}

/// Negative-underflow clamp: when width is `auto`, the resolved
/// content width is never negative; if the containing block is too
/// small the width is clamped to zero and the deficit moves into
/// border-right.
pub proof fn lemma_negative_underflow_clamp(sn: StyledNode, cbw: int)
    requires
        spec_w_auto(sn),
    ensures
        spec_used_widths(sn, cbw).width >= 0,
        spec_underflow(sn, cbw) < 0 ==> spec_used_widths(sn, cbw).width == 0
            && spec_used_widths(sn, cbw).border_right == sn_px(
            sn,
            "border-right-width"@,
            "border-width"@,
        ) + spec_underflow(sn, cbw),
{
}

/// Vertical stacking: each laid-out block child sits at its parent's
/// content origin, pushed down by its own top border and padding plus
/// the summed border-box heights of all earlier siblings.
pub proof fn lemma_vertical_stacking(o: LayoutBox, n: LayoutBox, cb: CbRect, k: int)
    requires
        laid_out(o, n, cb),
        is_block(o),
        0 <= k < o.children@.len(),
        is_block(o.children@[k]),
    ensures
        n.children@[k].dimensions.content.y == n.dimensions.content.y
            + n.children@[k].dimensions.border.top + n.children@[k].dimensions.padding.top
            + acc_height(n.children@, k),
{
    assert(laid_out(
        o.children@[k],
        n.children@[k],
        CbRect {
            x: n.dimensions.content.x as int,
            y: n.dimensions.content.y as int,
            width: n.dimensions.content.width as int,
            height: acc_height(n.children@, k),
        },
    ));
}

/// Height override: an explicit pixel `height` always replaces the
/// height accumulated from the children, whatever their total extent.
pub proof fn lemma_height_override(o: LayoutBox, n: LayoutBox, cb: CbRect, h: i64)
    requires
        laid_out(o, n, cb),
        is_block(o),
        spec_value(box_style(o), "height"@) == Some(Value::Length(h, Unit::Px)),
    ensures
        n.dimensions.content.height == h,
{
}


/// The height of a layout tree.
pub open spec fn lheight(n: LayoutBox) -> nat
    decreases n,
{
    1 + lheight_seq(n.children@)
}

pub open spec fn lheight_seq(cs: Seq<LayoutBox>) -> nat
    decreases cs,
{
    if cs.len() == 0 {
        0
    } else if lheight(cs[0]) >= lheight_seq(cs.drop_first()) {
        lheight(cs[0])
    } else {
        lheight_seq(cs.drop_first())
    }
}

proof fn lemma_lheight_elem(cs: Seq<LayoutBox>, i: int)
    requires
        0 <= i < cs.len(),
    ensures
        lheight(cs[i]) <= lheight_seq(cs),
    decreases i,
{
    if i > 0 {
        lemma_lheight_elem(cs.drop_first(), i - 1);
        assert(cs.drop_first()[i - 1] == cs[i]);
    }
}

/// The preorder traversal of a layout tree: each box with its depth.
pub open spec fn spec_outline(n: LayoutBox, d: int) -> Seq<(int, LayoutBox)>
    decreases n,
{
    seq![(d, n)] + spec_outline_seq(n.children@, d + 1)
}

pub open spec fn spec_outline_seq(cs: Seq<LayoutBox>, d: int) -> Seq<(int, LayoutBox)>
    decreases cs,
{
    if cs.len() == 0 {
        Seq::empty()
    } else {
        spec_outline(cs[0], d) + spec_outline_seq(cs.drop_first(), d)
    }
}

proof fn lemma_outline_seq_take(cs: Seq<LayoutBox>, d: int, i: int)
    requires
        0 <= i < cs.len(),
    ensures
        spec_outline_seq(cs.take(i + 1), d) == spec_outline_seq(cs.take(i), d) + spec_outline(
            cs[i],
            d,
        ),
    decreases i,
{
    if i == 0 {
        assert(cs.take(1).len() == 1);
        assert(cs.take(1)[0] == cs[0]);
        assert(cs.take(1).drop_first() =~= Seq::empty());
        assert(cs.take(0) =~= Seq::empty());
        assert(spec_outline_seq(cs.take(1), d) =~= spec_outline_seq(cs.take(0), d) + spec_outline(
            cs[0],
            d,
        ));
    } else {
        lemma_outline_seq_take(cs.drop_first(), d, i - 1);
        assert(cs.take(i + 1)[0] == cs[0]);
        assert(cs.take(i + 1).drop_first() =~= cs.drop_first().take(i));
        assert(cs.take(i).drop_first() =~= cs.drop_first().take(i - 1));
        assert(cs.drop_first()[i - 1] == cs[i]);
        assert(spec_outline_seq(cs.take(i + 1), d) =~= spec_outline_seq(cs.take(i), d)
            + spec_outline(cs[i], d));
    }
}

/// The rows list the traversal's boxes with the right depths.
pub open spec fn rows_match(rows: Seq<(u32, &LayoutBox)>, s: Seq<(int, LayoutBox)>) -> bool {
    &&& rows.len() == s.len()
    &&& forall|k: int|
        0 <= k < s.len() ==> (#[trigger] rows[k]).0 == s[k].0 && *rows[k].1 == s[k].1
}

proof fn lemma_rows_match_concat(
    a: Seq<(u32, &LayoutBox)>,
    b: Seq<(u32, &LayoutBox)>,
    s: Seq<(int, LayoutBox)>,
    t: Seq<(int, LayoutBox)>,
)
    requires
        rows_match(a, s),
        rows_match(b, t),
    ensures
        rows_match(a + b, s + t),
{
    assert forall|k: int|
        0 <= k < (s + t).len() implies (#[trigger] (a + b)[k]).0 == (s + t)[k].0 && *(a + b)[k].1
        == (s + t)[k].1 by {
        if k < s.len() {
            assert((a + b)[k] == a[k]);
        } else {
            assert((a + b)[k] == b[k - s.len()]);
        }
    }
}

/// A read-only preorder visit of a layout tree: each box with its
/// depth, ready for printing or other inspection.
pub fn outline<'a, 'b>(root: &'b LayoutBox<'a>) -> (r: Vec<(u32, &'b LayoutBox<'a>)>)
    requires
        lheight(*root) <= 1000000,
    ensures
        rows_match(r@, spec_outline(*root, 0)),
{
    outline_from(root, 0)
}

fn outline_from<'a, 'b>(node: &'b LayoutBox<'a>, depth: u32) -> (r: Vec<(u32, &'b LayoutBox<'a>)>)
    requires
        depth + lheight(*node) <= 1000001,
    ensures
        rows_match(r@, spec_outline(*node, depth as int)),
    decreases *node,
{
    let mut out: Vec<(u32, &'b LayoutBox<'a>)> = Vec::new();
    out.push((depth, node));
    proof {
        assert(node.children@.take(0) =~= Seq::empty());
        assert(out@ =~= seq![(depth, node)] + Seq::<(u32, &LayoutBox)>::empty());
        assert(rows_match(
            out@,
            seq![(depth as int, *node)] + spec_outline_seq(node.children@.take(0), depth + 1),
        ));
    }
    let mut i: usize = 0;
    while i < node.children.len()
        invariant
            i <= node.children@.len(),
            depth + lheight(*node) <= 1000001,
            rows_match(
                out@,
                seq![(depth as int, *node)] + spec_outline_seq(
                    node.children@.take(i as int),
                    depth + 1,
                ),
            ),
        decreases node.children@.len() - i,
    {
        proof {
            lemma_lheight_elem(node.children@, i as int);
        }
        let mut rows = outline_from(&node.children[i], depth + 1);
        let ghost pre = out@;
        let ghost rs = rows@;
        out.append(&mut rows);
        i = i + 1;
        proof {
            lemma_outline_seq_take(node.children@, depth + 1, i - 1);
            lemma_rows_match_concat(
                pre,
                rs,
                seq![(depth as int, *node)] + spec_outline_seq(
                    node.children@.take(i - 1),
                    depth + 1,
                ),
                spec_outline(node.children@[i - 1], depth + 1),
            );
            assert((seq![(depth as int, *node)] + spec_outline_seq(
                node.children@.take(i - 1),
                depth + 1,
            )) + spec_outline(node.children@[i - 1], depth + 1) =~= seq![(depth as int, *node)]
                + spec_outline_seq(node.children@.take(i as int), depth + 1));
        }
    }
    proof {
        assert(node.children@.take(node.children@.len() as int) =~= node.children@);
    }
    out
}


} // verus!
