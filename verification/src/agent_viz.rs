//! Agent visualization at the pixel level: a scene whose agents have been
//! placed on screen is drawn as lines for the interactions and 3x3 markers
//! for the agents.
use vstd::prelude::*;

use crate::rasterize::framebuffer::{
    grid_filled,
    grid_paint,
    grid_shaped,
    lemma_paint_cell,
    lemma_paint_shaped,
    Framebuffer,
};
use crate::rasterize::line::line_points;

verus! {

/// An agent as placed on screen: the pixel at its centre and its packed
/// colour.
#[derive(Clone, Copy, Debug)]
pub struct ScreenAgent {
    pub x: i32,
    pub y: i32,
    pub color: u32,
}

/// An interaction as drawn: the indices of the two agents it joins and its
/// packed colour.
#[derive(Clone, Copy, Debug)]
pub struct ScreenLink {
    pub from: usize,
    pub to: usize,
    pub color: u32,
}

/// Packs 8-bit channels into `0xRRGGBB`.
pub fn pack_rgb(r: u8, g: u8, b: u8) -> (packed: u32)
    ensures
        packed == r * 0x1_0000 + g * 0x100 + b,
{
    let packed = ((r as u32) << 16u32) | ((g as u32) << 8u32) | (b as u32);
    assert(((r as u32) << 16u32) | ((g as u32) << 8u32) | (b as u32) == r * 0x1_0000 + g * 0x100
        + b) by (bit_vector);
    packed
}

/// The 9 pixels of the marker centred on `(x, y)`, column by column from
/// `x - 1` to `x + 1`, each column from `y - 1` to `y + 1`.
pub open spec fn marker_points(x: i32, y: i32) -> Seq<(i32, i32)> {
    Seq::new(9, |k: int| ((x + (k / 3 - 1)) as i32, (y + (k % 3 - 1)) as i32))
}

/// Whether the screen position of every agent leaves room for its marker
/// within `i32` coordinates.
pub open spec fn markers_fit(agents: Seq<ScreenAgent>) -> bool {
    forall|i: int|
        0 <= i < agents.len() ==> i32::MIN + 1 <= #[trigger] agents[i].x <= i32::MAX - 1
            && i32::MIN + 1 <= agents[i].y <= i32::MAX - 1
}

/// The grid after drawing, in order, every link whose two ends name agents.
pub open spec fn paint_links(
    g: Seq<Seq<u32>>,
    width: int,
    height: int,
    agents: Seq<ScreenAgent>,
    links: Seq<ScreenLink>,
) -> Seq<Seq<u32>>
    decreases links.len(),
{
    if links.len() == 0 {
        g
    } else {
        let prev = paint_links(g, width, height, agents, links.drop_last());
        let l = links.last();
        if l.from < agents.len() && l.to < agents.len() {
            grid_paint(
                prev,
                width,
                height,
                line_points(
                    agents[l.from as int].x,
                    agents[l.from as int].y,
                    agents[l.to as int].x,
                    agents[l.to as int].y,
                ),
                l.color,
            )
        } else {
            prev
        }
    }
}

/// The grid after drawing, in order, the marker of every agent.
pub open spec fn paint_markers(g: Seq<Seq<u32>>, width: int, height: int, agents: Seq<ScreenAgent>) -> Seq<
    Seq<u32>,
>
    decreases agents.len(),
{
    if agents.len() == 0 {
        g
    } else {
        let a = agents.last();
        grid_paint(
            paint_markers(g, width, height, agents.drop_last()),
            width,
            height,
            marker_points(a.x, a.y),
            a.color,
        )
    }
}

/// The picture of a scene: a black `width` x `height` grid, then the links,
/// then the markers on top.
pub open spec fn scene_pixels(width: int, height: int, agents: Seq<ScreenAgent>, links: Seq<ScreenLink>) -> Seq<
    Seq<u32>,
> {
    paint_markers(
        paint_links(grid_filled(width, height, 0), width, height, agents, links),
        width,
        height,
        agents,
    )
}

/// Draws the 3x3 marker of an agent.
fn draw_marker(fb: &mut Framebuffer, x: i32, y: i32, color: u32)
    requires
        old(fb).wf(),
        i32::MIN + 1 <= x <= i32::MAX - 1,
        i32::MIN + 1 <= y <= i32::MAX - 1,
    ensures
        final(fb).wf(),
        final(fb).width == old(fb).width,
        final(fb).height == old(fb).height,
        final(fb)@ == grid_paint(
            old(fb)@,
            old(fb).width as int,
            old(fb).height as int,
            marker_points(x, y),
            color,
        ),
{
    let ghost pts = marker_points(x, y);
    let mut dx: i32 = -1;
    while dx <= 1
        invariant
            -1 <= dx <= 2,
            i32::MIN + 1 <= x <= i32::MAX - 1,
            i32::MIN + 1 <= y <= i32::MAX - 1,
            pts == marker_points(x, y),
            fb.wf(),
            fb.width == old(fb).width,
            fb.height == old(fb).height,
            fb@ == grid_paint(
                old(fb)@,
                old(fb).width as int,
                old(fb).height as int,
                pts.take(3 * (dx + 1)),
                color,
            ),
        decreases 2 - dx,
    {
        let mut dy: i32 = -1;
        while dy <= 1
            invariant
                -1 <= dx <= 1,
                -1 <= dy <= 2,
                i32::MIN + 1 <= x <= i32::MAX - 1,
                i32::MIN + 1 <= y <= i32::MAX - 1,
                pts == marker_points(x, y),
                fb.wf(),
                fb.width == old(fb).width,
                fb.height == old(fb).height,
                fb@ == grid_paint(
                    old(fb)@,
                    old(fb).width as int,
                    old(fb).height as int,
                    pts.take(3 * (dx + 1) + (dy + 1)),
                    color,
                ),
            decreases 2 - dy,
        {
            let ghost k = 3 * (dx + 1) + (dy + 1);
            assert(k / 3 == dx + 1 && k % 3 == dy + 1);
            assert(pts[k] == ((x + dx) as i32, (y + dy) as i32));
            fb.set_pixel(x + dx, y + dy, color);
            assert(pts.take(k + 1).drop_last() =~= pts.take(k));
            dy = dy + 1;
        }
        dx = dx + 1;
    }
    assert(pts.take(9) =~= pts);
}

/// Renders a scene whose agents have been placed on screen: the
/// interactions are drawn first, as lines between the centres of the two
/// agents (an interaction naming a missing agent is skipped), then every
/// agent as a 3x3 marker of its colour.
pub fn render_screen(width: usize, height: usize, agents: &Vec<ScreenAgent>, links: &Vec<ScreenLink>) -> (fb:
    Framebuffer)
    requires
        markers_fit(agents@),
    ensures
        fb.wf(),
        fb.width == width,
        fb.height == height,
        fb@ == scene_pixels(width as int, height as int, agents@, links@),
{
    let mut fb = Framebuffer::new(width, height);
    let ghost blank = fb@;
    let mut i: usize = 0;
    while i < links.len()
        invariant
            i <= links@.len(),
            fb.wf(),
            fb.width == width,
            fb.height == height,
            blank == grid_filled(width as int, height as int, 0),
            fb@ == paint_links(blank, width as int, height as int, agents@, links@.take(i as int)),
        decreases links@.len() - i,
    {
        let l = links[i];
        if l.from < agents.len() && l.to < agents.len() {
            let from = agents[l.from];
            let to = agents[l.to];
            fb.draw_line(from.x, from.y, to.x, to.y, l.color);
        }
        assert(links@.take(i + 1).drop_last() =~= links@.take(i as int));
        i = i + 1;
    }
    assert(links@.take(links@.len() as int) =~= links@);
    let ghost linked = fb@;
    let mut j: usize = 0;
    while j < agents.len()
        invariant
            j <= agents@.len(),
            markers_fit(agents@),
            fb.wf(),
            fb.width == width,
            fb.height == height,
            fb@ == paint_markers(linked, width as int, height as int, agents@.take(j as int)),
        decreases agents@.len() - j,
    {
        let a = agents[j];
        assert(agents@[j as int] == a);
        draw_marker(&mut fb, a.x, a.y, a.color);
        assert(agents@.take(j + 1).drop_last() =~= agents@.take(j as int));
        j = j + 1;
    }
    assert(agents@.take(agents@.len() as int) =~= agents@);
    fb
}

/// Whether pixel `(px, py)` lies under the 3x3 marker of agent `a`.
pub open spec fn under_marker(a: ScreenAgent, px: int, py: int) -> bool {
    a.x - 1 <= px <= a.x + 1 && a.y - 1 <= py <= a.y + 1
}

/// Whether pixel `(px, py)` lies on the line that link `l` draws.
pub open spec fn on_link(agents: Seq<ScreenAgent>, l: ScreenLink, px: i32, py: i32) -> bool {
    &&& l.from < agents.len()
    &&& l.to < agents.len()
    &&& line_points(
        agents[l.from as int].x,
        agents[l.from as int].y,
        agents[l.to as int].x,
        agents[l.to as int].y,
    ).contains((px, py))
}

proof fn lemma_marker_contains(x: i32, y: i32, px: i32, py: i32)
    requires
        i32::MIN + 1 <= x <= i32::MAX - 1,
        i32::MIN + 1 <= y <= i32::MAX - 1,
    ensures
        marker_points(x, y).contains((px, py)) <==> (x - 1 <= px <= x + 1 && y - 1 <= py <= y + 1),
{
    let m = marker_points(x, y);
    if x - 1 <= px <= x + 1 && y - 1 <= py <= y + 1 {
        let k = 3 * (px - x + 1) + (py - y + 1);
        assert(k / 3 == px - x + 1 && k % 3 == py - y + 1);
        assert(m[k] == (px, py));
    }
    if m.contains((px, py)) {
        let k = choose|k: int| 0 <= k < m.len() && m[k] == (px, py);
        assert(0 <= k / 3 < 3 && 0 <= k % 3 < 3);
    }
}

proof fn lemma_links_shaped(g: Seq<Seq<u32>>, width: int, height: int, agents: Seq<ScreenAgent>, links: Seq<ScreenLink>)
    requires
        grid_shaped(g, width, height),
    ensures
        grid_shaped(paint_links(g, width, height, agents, links), width, height),
    decreases links.len(),
{
    if links.len() > 0 {
        lemma_links_shaped(g, width, height, agents, links.drop_last());
        let l = links.last();
        if l.from < agents.len() && l.to < agents.len() {
            lemma_paint_shaped(
                paint_links(g, width, height, agents, links.drop_last()),
                width,
                height,
                line_points(
                    agents[l.from as int].x,
                    agents[l.from as int].y,
                    agents[l.to as int].x,
                    agents[l.to as int].y,
                ),
                l.color,
            );
        }
    }
}

/// The pixel after painting markers: that of the last agent whose marker
/// covers it, or the pixel underneath when none does.
proof fn lemma_markers_cell(g: Seq<Seq<u32>>, width: int, height: int, agents: Seq<ScreenAgent>, px: i32, py: i32)
    requires
        grid_shaped(g, width, height),
        0 <= px < width,
        0 <= py < height,
        markers_fit(agents),
    ensures
        grid_shaped(paint_markers(g, width, height, agents), width, height),
        (forall|j: int| 0 <= j < agents.len() ==> !under_marker(#[trigger] agents[j], px as int, py as int))
            ==> paint_markers(g, width, height, agents)[py as int][px as int] == g[py as int][px as int],
        forall|i: int|
            0 <= i < agents.len() && under_marker(#[trigger] agents[i], px as int, py as int) && (forall|
                j: int,
            |
                i < j < agents.len() ==> !under_marker(#[trigger] agents[j], px as int, py as int))
                ==> paint_markers(g, width, height, agents)[py as int][px as int] == agents[i].color,
    decreases agents.len(),
{
    if agents.len() > 0 {
        let n = agents.len() - 1;
        let init = agents.drop_last();
        let a = agents.last();
        assert(markers_fit(init)) by {
            assert forall|i: int| 0 <= i < init.len() implies i32::MIN + 1 <= #[trigger] init[i].x
                <= i32::MAX - 1 && i32::MIN + 1 <= init[i].y <= i32::MAX - 1 by {
                assert(init[i] == agents[i]);
            }
        }
        lemma_markers_cell(g, width, height, init, px, py);
        let prev = paint_markers(g, width, height, init);
        assert(agents[n] == a);
        lemma_marker_contains(a.x, a.y, px, py);
        lemma_paint_cell(prev, width, height, marker_points(a.x, a.y), a.color, px, py);
        assert forall|i: int|
            0 <= i < agents.len() && under_marker(#[trigger] agents[i], px as int, py as int) && (forall|
                j: int,
            |
                i < j < agents.len() ==> !under_marker(#[trigger] agents[j], px as int, py as int))
                implies paint_markers(g, width, height, agents)[py as int][px as int]
            == agents[i].color by {
            if i < n {
                assert(!under_marker(agents[n], px as int, py as int));
                assert(init[i] == agents[i]);
                assert forall|j: int| i < j < init.len() implies !under_marker(
                    #[trigger] init[j],
                    px as int,
                    py as int,
                ) by {
                    assert(init[j] == agents[j]);
                    assert(!under_marker(agents[j], px as int, py as int));
                }
            }
        }
        if forall|j: int| 0 <= j < agents.len() ==> !under_marker(#[trigger] agents[j], px as int, py as int) {
            assert(!under_marker(agents[n], px as int, py as int));
            assert forall|j: int| 0 <= j < init.len() implies !under_marker(
                #[trigger] init[j],
                px as int,
                py as int,
            ) by {
                assert(init[j] == agents[j]);
                assert(!under_marker(agents[j], px as int, py as int));
            }
        }
    }
}

/// Agents are drawn over interactions: after rendering, an on-screen pixel
/// under the marker of agent `i` and of no later agent has agent `i`'s
/// colour.
pub proof fn lemma_render_marker_on_top(
    width: int,
    height: int,
    agents: Seq<ScreenAgent>,
    links: Seq<ScreenLink>,
    i: int,
    px: i32,
    py: i32,
)
    requires
        markers_fit(agents),
        0 <= px < width,
        0 <= py < height,
        0 <= i < agents.len(),
        under_marker(agents[i], px as int, py as int),
        forall|j: int| i < j < agents.len() ==> !under_marker(#[trigger] agents[j], px as int, py as int),
    ensures
        scene_pixels(width, height, agents, links)[py as int][px as int] == agents[i].color,
{
    let g = grid_filled(width, height, 0);
    lemma_links_shaped(g, width, height, agents, links);
    lemma_markers_cell(paint_links(g, width, height, agents, links), width, height, agents, px, py);
}

/// The pixel after drawing links: that of the last link whose line passes
/// through it, or the pixel underneath when none does.
proof fn lemma_links_cell(
    g: Seq<Seq<u32>>,
    width: int,
    height: int,
    agents: Seq<ScreenAgent>,
    links: Seq<ScreenLink>,
    px: i32,
    py: i32,
)
    requires
        grid_shaped(g, width, height),
        0 <= px < width,
        0 <= py < height,
    ensures
        (forall|j: int| 0 <= j < links.len() ==> !on_link(agents, #[trigger] links[j], px, py))
            ==> paint_links(g, width, height, agents, links)[py as int][px as int] == g[py as int][px as int],
        forall|i: int|
            0 <= i < links.len() && on_link(agents, #[trigger] links[i], px, py) && (forall|j: int|
                i < j < links.len() ==> !on_link(agents, #[trigger] links[j], px, py))
                ==> paint_links(g, width, height, agents, links)[py as int][px as int] == links[i].color,
    decreases links.len(),
{
    if links.len() > 0 {
        let n = links.len() - 1;
        let init = links.drop_last();
        let l = links.last();
        assert(links[n] == l);
        lemma_links_cell(g, width, height, agents, init, px, py);
        lemma_links_shaped(g, width, height, agents, init);
        let prev = paint_links(g, width, height, agents, init);
        if l.from < agents.len() && l.to < agents.len() {
            lemma_paint_cell(
                prev,
                width,
                height,
                line_points(
                    agents[l.from as int].x,
                    agents[l.from as int].y,
                    agents[l.to as int].x,
                    agents[l.to as int].y,
                ),
                l.color,
                px,
                py,
            );
        }
        assert forall|i: int|
            0 <= i < links.len() && on_link(agents, #[trigger] links[i], px, py) && (forall|j: int|
                i < j < links.len() ==> !on_link(agents, #[trigger] links[j], px, py))
                implies paint_links(g, width, height, agents, links)[py as int][px as int]
            == links[i].color by {
            if i < n {
                assert(!on_link(agents, links[n], px, py));
                assert(init[i] == links[i]);
                assert forall|j: int| i < j < init.len() implies !on_link(
                    agents,
                    #[trigger] init[j],
                    px,
                    py,
                ) by {
                    assert(init[j] == links[j]);
                    assert(!on_link(agents, links[j], px, py));
                }
            }
        }
        if forall|j: int| 0 <= j < links.len() ==> !on_link(agents, #[trigger] links[j], px, py) {
            assert(!on_link(agents, links[n], px, py));
            assert forall|j: int| 0 <= j < init.len() implies !on_link(agents, #[trigger] init[j], px, py) by {
                assert(init[j] == links[j]);
                assert(!on_link(agents, links[j], px, py));
            }
        }
    }
}

/// An interaction shows where no agent covers it: after rendering, an
/// on-screen pixel on the line of link `i`, under no agent's marker and on
/// the line of no later link, has link `i`'s colour.
pub proof fn lemma_render_link_visible(
    width: int,
    height: int,
    agents: Seq<ScreenAgent>,
    links: Seq<ScreenLink>,
    i: int,
    px: i32,
    py: i32,
)
    requires
        markers_fit(agents),
        0 <= px < width,
        0 <= py < height,
        0 <= i < links.len(),
        on_link(agents, links[i], px, py),
        forall|j: int| i < j < links.len() ==> !on_link(agents, #[trigger] links[j], px, py),
        forall|j: int| 0 <= j < agents.len() ==> !under_marker(#[trigger] agents[j], px as int, py as int),
    ensures
        scene_pixels(width, height, agents, links)[py as int][px as int] == links[i].color,
{
    let g = grid_filled(width, height, 0);
    lemma_links_shaped(g, width, height, agents, links);
    lemma_links_cell(g, width, height, agents, links, px, py);
    lemma_markers_cell(paint_links(g, width, height, agents, links), width, height, agents, px, py);
}

/// What nothing is drawn on stays black: after rendering, an on-screen pixel
/// under no marker and on no link's line is 0.
pub proof fn lemma_render_background(
    width: int,
    height: int,
    agents: Seq<ScreenAgent>,
    links: Seq<ScreenLink>,
    px: i32,
    py: i32,
)
    requires
        markers_fit(agents),
        0 <= px < width,
        0 <= py < height,
        forall|j: int| 0 <= j < links.len() ==> !on_link(agents, #[trigger] links[j], px, py),
        forall|j: int| 0 <= j < agents.len() ==> !under_marker(#[trigger] agents[j], px as int, py as int),
    ensures
        scene_pixels(width, height, agents, links)[py as int][px as int] == 0,
{
    let g = grid_filled(width, height, 0);
    lemma_links_shaped(g, width, height, agents, links);
    lemma_links_cell(g, width, height, agents, links, px, py);
    lemma_markers_cell(paint_links(g, width, height, agents, links), width, height, agents, px, py);
}

} // verus!
