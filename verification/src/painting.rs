//! Painting: turn a laid-out box tree into an ordered list of
//! solid-color rectangles, ready for rasterization.

use vstd::prelude::*;

use crate::css::Color;
use crate::css::Value;
use crate::layout::BoxType;
use crate::layout::Dimensions;
use crate::layout::LayoutBox;
use crate::layout::Rect;
use crate::layout::spec_bb_height;
use crate::style::spec_value;

verus! {

#[derive(Clone, Copy, Debug, PartialEq, Eq, Structural)]
pub enum DisplayCommand {
    SolidColor(Color, Rect),
}

pub type DisplayList = Vec<DisplayCommand>;

/// All stored pixel quantities of one box are small enough that any
/// sum of a few of them stays a machine integer.
pub open spec fn dims_ok(d: Dimensions) -> bool {
    &&& -0x100000000000000 <= d.content.x <= 0x100000000000000
    &&& -0x100000000000000 <= d.content.y <= 0x100000000000000
    &&& -0x100000000000000 <= d.content.width <= 0x100000000000000
    &&& -0x100000000000000 <= d.content.height <= 0x100000000000000
    &&& -0x100000000000000 <= d.padding.left <= 0x100000000000000
    &&& -0x100000000000000 <= d.padding.right <= 0x100000000000000
    &&& -0x100000000000000 <= d.padding.top <= 0x100000000000000
    &&& -0x100000000000000 <= d.padding.bottom <= 0x100000000000000
    &&& -0x100000000000000 <= d.border.left <= 0x100000000000000
    &&& -0x100000000000000 <= d.border.right <= 0x100000000000000
    &&& -0x100000000000000 <= d.border.top <= 0x100000000000000
    &&& -0x100000000000000 <= d.border.bottom <= 0x100000000000000
}

pub open spec fn tree_dims_ok(lb: LayoutBox) -> bool
    decreases lb,
{
    &&& dims_ok(lb.dimensions)
    &&& forall|k: int| 0 <= k < lb.children@.len() ==> tree_dims_ok(#[trigger] lb.children@[k])
}

/// The border box of laid-out dimensions.
pub open spec fn bb_rect(d: Dimensions) -> Rect {
    Rect {
        x: (d.content.x - d.padding.left - d.border.left) as i64,
        y: (d.content.y - d.padding.top - d.border.top) as i64,
        width: (d.content.width + d.padding.left + d.padding.right + d.border.left
            + d.border.right) as i64,
        height: spec_bb_height(d) as i64,
    }
}

/// The color value of a property on the box's style node, if the box
/// has one and the property is a color.
pub open spec fn spec_get_color(lb: LayoutBox, name: Seq<char>) -> Option<Color> {
    match lb.box_type {
        BoxType::BlockNode(style) => match spec_value(*style, name) {
            Some(v) => match v {
                Value::ColorValue(color) => Some(color),
                _ => None,
            },
            None => None,
        },
        BoxType::AnonymousBlock => None,
    }
}

/// The background commands of one box: its `background` color over the
/// border box, then its `color` value painted the same way.
pub open spec fn spec_bg_cmds(lb: LayoutBox) -> Seq<DisplayCommand> {
    (match spec_get_color(lb, "background"@) {
        Some(c) => seq![DisplayCommand::SolidColor(c, bb_rect(lb.dimensions))],
        None => Seq::empty(),
    }) + (match spec_get_color(lb, "color"@) {
        Some(c) => seq![DisplayCommand::SolidColor(c, bb_rect(lb.dimensions))],
        None => Seq::empty(),
    })
}

/// The four border commands of one box, present only when a
/// `border-color` is specified: left, right, top and bottom strips of
/// the border box.
pub open spec fn spec_border_cmds(lb: LayoutBox) -> Seq<DisplayCommand> {
    match spec_get_color(lb, "border-color"@) {
        None => Seq::empty(),
        Some(color) => {
            let d = lb.dimensions;
            let bb = bb_rect(d);
            seq![
                DisplayCommand::SolidColor(
                    color,
                    Rect { x: bb.x, y: bb.y, width: d.border.left, height: bb.height },
                ),
                DisplayCommand::SolidColor(
                    color,
                    Rect {
                        x: (bb.x + bb.width - d.border.right) as i64,
                        y: bb.y,
                        width: d.border.right,
                        height: bb.height,
                    },
                ),
                DisplayCommand::SolidColor(
                    color,
                    Rect { x: bb.x, y: bb.y, width: bb.width, height: d.border.top },
                ),
                DisplayCommand::SolidColor(
                    color,
                    Rect {
                        x: bb.x,
                        y: (bb.y + bb.height - d.border.bottom) as i64,
                        width: bb.width,
                        height: d.border.bottom,
                    },
                ),
            ]
        },
    }
}

/// The display list of a subtree: this box's backgrounds, its borders,
/// then its children's lists in order.
pub open spec fn spec_display_list(lb: LayoutBox) -> Seq<DisplayCommand>
    decreases lb,
{
    spec_bg_cmds(lb) + spec_border_cmds(lb) + spec_children_cmds(lb.children@)
}

pub open spec fn spec_children_cmds(cs: Seq<LayoutBox>) -> Seq<DisplayCommand>
    decreases cs,
{
    if cs.len() == 0 {
        Seq::empty()
    } else {
        spec_display_list(cs[0]) + spec_children_cmds(cs.drop_first())
    }
}

proof fn lemma_children_cmds_take(cs: Seq<LayoutBox>, i: int)
    requires
        0 <= i < cs.len(),
    ensures
        spec_children_cmds(cs.take(i + 1)) == spec_children_cmds(cs.take(i)) + spec_display_list(
            cs[i],
        ),
    decreases i,
{
    if i == 0 {
        assert(cs.take(1).len() == 1);
        assert(cs.take(1)[0] == cs[0]);
        assert(cs.take(1).drop_first() =~= Seq::empty());
        assert(cs.take(0) =~= Seq::empty());
        assert(spec_children_cmds(cs.take(1)) =~= spec_children_cmds(cs.take(0))
            + spec_display_list(cs[0]));
    } else {
        lemma_children_cmds_take(cs.drop_first(), i - 1);
        assert(cs.take(i + 1)[0] == cs[0]);
        assert(cs.take(i + 1).drop_first() =~= cs.drop_first().take(i));
        assert(cs.take(i).drop_first() =~= cs.drop_first().take(i - 1));
        assert(cs.drop_first()[i - 1] == cs[i]);
        assert(spec_children_cmds(cs.take(i + 1)) =~= spec_children_cmds(cs.take(i))
            + spec_display_list(cs[i]));
    }
}

/// Build the display list for a laid-out tree.
pub fn build_display_list(layout_root: &LayoutBox) -> (r: DisplayList)
    requires
        tree_dims_ok(*layout_root),
    ensures
        r@ == spec_display_list(*layout_root),
{
    let mut list = Vec::new();
    render_layout_box(&mut list, layout_root);
    proof {
        assert(list@ =~= spec_display_list(*layout_root));
    }
    list
}

fn render_layout_box(list: &mut DisplayList, layout_box: &LayoutBox)
    requires
        tree_dims_ok(*layout_box),
    ensures
        final(list)@ == old(list)@ + spec_display_list(*layout_box),
    decreases *layout_box,
{
    render_background(list, layout_box);
    render_borders(list, layout_box);
    let ghost base = list@;
    let mut i: usize = 0;
    proof {
        assert(layout_box.children@.take(0) =~= Seq::empty());
        assert(base =~= base + spec_children_cmds(layout_box.children@.take(0)));
    }
    while i < layout_box.children.len()
        invariant
            i <= layout_box.children@.len(),
            tree_dims_ok(*layout_box),
            list@ == base + spec_children_cmds(layout_box.children@.take(i as int)),
        decreases layout_box.children@.len() - i,
    {
        render_layout_box(list, &layout_box.children[i]);
        i = i + 1;
        proof {
            lemma_children_cmds_take(layout_box.children@, i - 1);
            assert(list@ =~= base + spec_children_cmds(layout_box.children@.take(i as int)));
        }
    }
    proof {
        assert(layout_box.children@.take(layout_box.children@.len() as int)
            =~= layout_box.children@);
        assert(final(list)@ =~= old(list)@ + spec_display_list(*layout_box));
    }
}

fn render_background(list: &mut DisplayList, layout_box: &LayoutBox)
    requires
        dims_ok(layout_box.dimensions),
    ensures
        final(list)@ == old(list)@ + spec_bg_cmds(*layout_box),
{
    match get_color(layout_box, "background") {
        Some(color) => {
            list.push(DisplayCommand::SolidColor(color, layout_box.dimensions.border_box()));
        },
        None => {},
    }
    // Render the `color` value as a background too, until more than
    // rectangles can be rendered.
    match get_color(layout_box, "color") {
        Some(color) => {
            list.push(DisplayCommand::SolidColor(color, layout_box.dimensions.border_box()));
        },
        None => {},
    }
    proof {
        assert(final(list)@ =~= old(list)@ + spec_bg_cmds(*layout_box));
    }
}

/// The color of the named property, if the box has a style node that
/// specifies one.
pub fn get_color(layout_box: &LayoutBox, name: &str) -> (r: Option<Color>)
    ensures
        r == spec_get_color(*layout_box, name@),
{
    match layout_box.box_type {
        BoxType::BlockNode(style) => match style.value(name) {
            Some(v) => match v {
                Value::ColorValue(color) => Some(color),
                _ => None,
            },
            None => None,
        },
        BoxType::AnonymousBlock => None,
    }
}

fn render_borders(list: &mut DisplayList, layout_box: &LayoutBox)
    requires
        dims_ok(layout_box.dimensions),
    ensures
        final(list)@ == old(list)@ + spec_border_cmds(*layout_box),
{
    let color = match get_color(layout_box, "border-color") {
        Some(color) => color,
        None => {
            // bail out if no border-color is specified
            proof {
                assert(final(list)@ =~= old(list)@ + spec_border_cmds(*layout_box));
            }
            return ;
        },
    };
    let d = &layout_box.dimensions;
    let border_box = d.border_box();
    // Left border
    list.push(
        DisplayCommand::SolidColor(
            color,
            Rect { x: border_box.x, y: border_box.y, width: d.border.left, height: border_box.height },
        ),
    );
    // Right border
    list.push(
        DisplayCommand::SolidColor(
            color,
            Rect {
                x: border_box.x + border_box.width - d.border.right,
                y: border_box.y,
                width: d.border.right,
                height: border_box.height,
            },
        ),
    );
    // Top border
    list.push(
        DisplayCommand::SolidColor(
            color,
            Rect { x: border_box.x, y: border_box.y, width: border_box.width, height: d.border.top },
        ),
    );
    // Bottom border
    list.push(
        DisplayCommand::SolidColor(
            color,
            Rect {
                x: border_box.x,
                y: border_box.y + border_box.height - d.border.bottom,
                width: border_box.width,
                height: d.border.bottom,
            },
        ),
    );
    proof {
        assert(final(list)@ =~= old(list)@ + spec_border_cmds(*layout_box));
    }
}

} // verus!
