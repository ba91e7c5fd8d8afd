//! The cell-to-pixel mapper: each grid cell owns a rectangle of image
//! pixels, and a black overlay of the cell's alpha is composited onto every
//! pixel of that rectangle.
//!
//! A grid of `W` columns over an image of width `w` gives each cell
//! `w / W` pixels of width (truncated), and likewise per column for the
//! height; the grid's row 0 is the bottom-most visual row, so the vertical
//! axis is flipped. Each rectangle is clipped so that it never touches the
//! image's last pixel row or column: that one-pixel border at the far edge
//! is left untouched by design.

use crate::image_buf::RgbaImage;
use crate::info::cell_alpha;
use crate::info::col_height;
use crate::info::grid_width;
use crate::info::is_cell;
use crate::info::ZLighting;
use crate::pixel::spec_blend;
use crate::pixel::blend_pixels;
use crate::pixel::Rgba;
use vstd::arithmetic::div_mod::lemma_fundamental_div_mod;
use vstd::arithmetic::div_mod::lemma_mod_bound;
use vstd::arithmetic::div_mod::lemma_div_pos_is_pos;
use vstd::arithmetic::mul::lemma_mul_inequality;
use vstd::prelude::*;

verus! {

/// The smaller of two integers.
pub open spec fn min_int(a: int, b: int) -> int {
    if a < b {
        a
    } else {
        b
    }
}

/// A fully black pixel of the given alpha: the overlay colour.
pub open spec fn spec_black(a: u8) -> Rgba {
    Rgba { r: 0, g: 0, b: 0, a }
}

/// Whether pixel `(px, py)` lies in the rectangle owned by cell
/// `(gx, gy)` of a `gw` by `gh` grid over a `w` by `h` image.
pub open spec fn in_rect(
    w: int,
    h: int,
    gw: int,
    gh: int,
    gx: int,
    gy: int,
    px: int,
    py: int,
) -> bool {
    let cw = w / gw;
    let ch = h / gh;
    let x_lo = gx * cw;
    let y_lo = h - (gy + 1) * ch;
    x_lo <= px < min_int(x_lo + cw, w - 1) && y_lo <= py < min_int(y_lo + ch, h - 1)
}

/// The rectangle of a cell stays within the image: column `gx` of a grid
/// of `gw` columns owns pixel columns `gx * (w / gw)` up to
/// `(gx + 1) * (w / gw)`, all at most `w`.
pub proof fn lemma_cell_span(w: int, gw: int, gx: int)
    requires
        0 <= w,
        1 <= gw,
        0 <= gx < gw,
    ensures
        0 <= gx * (w / gw),
        gx * (w / gw) + (w / gw) <= w,
        w >= 1 ==> gx * (w / gw) <= w - 1,
{
    let cw = w / gw;
    lemma_div_pos_is_pos(w, gw);
    lemma_fundamental_div_mod(w, gw);
    lemma_mod_bound(w, gw);
    assert(gw * cw <= w);
    lemma_mul_inequality(gx + 1, gw, cw);
    assert(gx * cw + cw == (gx + 1) * cw) by (nonlinear_arith);
    lemma_mul_inequality(0, gx, cw);
    assert(w >= 1 ==> gx * cw <= w - 1) by (nonlinear_arith)
        requires
            0 <= gx && 0 <= cw && gx * cw + cw <= w,
    ;
}

/// Rectangles of distinct cells never share a pixel: a pixel in the
/// rectangles of two cells lies in one cell only.
pub proof fn lemma_rect_unique(
    w: int,
    h: int,
    gw: int,
    gh1: int,
    gh2: int,
    gx1: int,
    gy1: int,
    gx2: int,
    gy2: int,
    px: int,
    py: int,
)
    requires
        0 <= w,
        0 <= h,
        1 <= gw,
        1 <= gh1,
        1 <= gh2,
        0 <= gx1 < gw,
        0 <= gx2 < gw,
        0 <= gy1 < gh1,
        0 <= gy2 < gh2,
        gx1 == gx2 ==> gh1 == gh2,
        in_rect(w, h, gw, gh1, gx1, gy1, px, py),
        in_rect(w, h, gw, gh2, gx2, gy2, px, py),
    ensures
        gx1 == gx2,
        gy1 == gy2,
{
    let cw = w / gw;
    if gx1 < gx2 {
        lemma_mul_inequality(gx1 + 1, gx2, cw);
        assert(gx1 * cw + cw == (gx1 + 1) * cw) by (nonlinear_arith);
        assert(false);
    }
    if gx2 < gx1 {
        lemma_mul_inequality(gx2 + 1, gx1, cw);
        assert(gx2 * cw + cw == (gx2 + 1) * cw) by (nonlinear_arith);
        assert(false);
    }
    let ch = h / gh1;
    if gy1 < gy2 {
        lemma_mul_inequality(gy1 + 1, gy2, ch);
        assert(h - (gy1 + 1) * ch >= h - gy2 * ch);
        assert(h - (gy2 + 1) * ch + ch == h - gy2 * ch) by (nonlinear_arith);
        assert(false);
    }
    if gy2 < gy1 {
        lemma_mul_inequality(gy2 + 1, gy1, ch);
        assert(h - (gy2 + 1) * ch >= h - gy1 * ch);
        assert(h - (gy1 + 1) * ch + ch == h - gy1 * ch) by (nonlinear_arith);
        assert(false);
    }
}

/// Composites a black overlay of alpha `square_alpha` onto every pixel of
/// the rectangle owned by cell `(grid_x, grid_y)` of a `grid_width` by
/// `grid_height` grid, and touches no other pixel.
pub fn draw_square(
    image: &mut RgbaImage,
    grid_x: u32,
    grid_y: u32,
    grid_width: u32,
    grid_height: u32,
    square_alpha: u8,
)
    requires
        old(image).wf(),
        old(image).width >= 1,
        old(image).height >= 1,
        grid_x < grid_width,
        grid_y < grid_height,
    ensures
        final(image).wf(),
        final(image).width == old(image).width,
        final(image).height == old(image).height,
        forall|px: int, py: int|
            in_rect(
                old(image).width as int,
                old(image).height as int,
                grid_width as int,
                grid_height as int,
                grid_x as int,
                grid_y as int,
                px,
                py,
            ) ==> final(image).pix(px, py) == spec_blend(
                old(image).pix(px, py),
                spec_black(square_alpha),
            ),
        forall|px: int, py: int|
            0 <= px < old(image).width && 0 <= py < old(image).height && !in_rect(
                old(image).width as int,
                old(image).height as int,
                grid_width as int,
                grid_height as int,
                grid_x as int,
                grid_y as int,
                px,
                py,
            ) ==> final(image).pix(px, py) == old(image).pix(px, py),
{
    let ghost w = old(image).width as int;
    let ghost h = old(image).height as int;
    let ghost gw = grid_width as int;
    let ghost gh = grid_height as int;
    let ghost gxg = grid_x as int;
    let ghost gyg = grid_y as int;
    let width = image.width;
    let height = image.height;
    let cell_width = width / grid_width;
    let cell_height = height / grid_height;
    proof {
        lemma_cell_span(w, gw, gxg);
        lemma_cell_span(h, gh, gyg);
        assert((gyg + 1) * (h / gh) == gyg * (h / gh) + (h / gh)) by (nonlinear_arith);
    }
    let start_x = grid_x * cell_width;
    let start_y = height - (grid_y + 1) * cell_height;
    let end_x = if start_x + cell_width < width - 1 {
        start_x + cell_width
    } else {
        width - 1
    };
    let end_y = if start_y + cell_height < height - 1 {
        start_y + cell_height
    } else {
        height - 1
    };
    assert(end_x as int == min_int(start_x as int + cell_width as int, w - 1));
    assert(end_y as int == min_int(start_y as int + cell_height as int, h - 1));
    assert(forall|px: int, py: int|
        in_rect(w, h, gw, gh, gxg, gyg, px, py) <==> (start_x as int <= px < end_x as int
            && start_y as int <= py < end_y as int));
    let square_color = Rgba { r: 0, g: 0, b: 0, a: square_alpha };
    let mut x = start_x;
    while x < end_x
        invariant
            image.wf(),
            image.width == old(image).width,
            image.height == old(image).height,
            old(image).width >= 1,
            old(image).height >= 1,
            start_x <= x <= end_x,
            end_x as int <= w,
            end_y as int <= h,
            square_color == spec_black(square_alpha),
            w == old(image).width as int,
            h == old(image).height as int,
            forall|px: int, py: int|
                start_x as int <= px < x as int && start_y as int <= py < end_y as int
                    ==> image.pix(px, py) == spec_blend(
                    old(image).pix(px, py),
                    spec_black(square_alpha),
                ),
            forall|px: int, py: int|
                0 <= px < w && 0 <= py < h && !(start_x as int <= px < x as int && start_y as int
                    <= py < end_y as int) ==> image.pix(px, py) == old(image).pix(px, py),
        decreases end_x as int - x as int,
    {
        let mut y = start_y;
        while y < end_y
            invariant
                image.wf(),
                image.width == old(image).width,
                image.height == old(image).height,
                old(image).width >= 1,
                old(image).height >= 1,
                start_x <= x < end_x,
                start_y <= y,
                y <= end_y || y == start_y,
                end_x as int <= w,
                end_y as int <= h,
                square_color == spec_black(square_alpha),
                w == old(image).width as int,
                h == old(image).height as int,
                forall|px: int, py: int|
                    start_x as int <= px < x as int && start_y as int <= py < end_y as int
                        ==> image.pix(px, py) == spec_blend(
                        old(image).pix(px, py),
                        spec_black(square_alpha),
                    ),
                forall|py: int|
                    start_y as int <= py < y as int ==> image.pix(x as int, py) == spec_blend(
                        old(image).pix(x as int, py),
                        spec_black(square_alpha),
                    ),
                forall|px: int, py: int|
                    0 <= px < w && 0 <= py < h && !(start_x as int <= px < x as int && start_y
                        as int <= py < end_y as int) && !(px == x as int && start_y as int <= py
                        < y as int) ==> image.pix(px, py) == old(image).pix(px, py),
            decreases end_y as int - y as int,
        {
            let existing = image.get_pixel(x, y);
            let blended = blend_pixels(existing, square_color);
            image.put_pixel(x, y, blended);
            proof {
                assert(square_color == spec_black(square_alpha));
                assert(existing == old(image).pix(x as int, y as int));
                assert(image.pix(x as int, y as int) == spec_blend(
                    old(image).pix(x as int, y as int),
                    spec_black(square_alpha),
                ));
            }
            y = y + 1;
        }
        x = x + 1;
    }
}

/// Whether pixel `(px, py)` lies in the rectangle of cell `(gx, gy)` of the
/// grid and that cell asks for an overlay.
pub open spec fn covered_by_cell(
    g: Seq<Vec<Option<u8>>>,
    w: int,
    h: int,
    gx: int,
    gy: int,
    px: int,
    py: int,
) -> bool {
    is_cell(g, gx, gy) && cell_alpha(g, gx, gy) is Some && in_rect(
        w,
        h,
        grid_width(g),
        col_height(g, gx),
        gx,
        gy,
        px,
        py,
    )
}

/// Whether any overlay cell's rectangle holds pixel `(px, py)`.
pub open spec fn covered(g: Seq<Vec<Option<u8>>>, w: int, h: int, px: int, py: int) -> bool {
    exists|gx: int, gy: int| #[trigger] covered_by_cell(g, w, h, gx, gy, px, py)
}

/// Column-major order on cells: `(cx, cy)` comes before position
/// `(bx, by)`.
pub open spec fn cell_before(cx: int, cy: int, bx: int, by: int) -> bool {
    cx < bx || (cx == bx && cy < by)
}

/// Whether some overlay cell before position `(bx, by)` covers the pixel.
pub open spec fn covered_upto(
    g: Seq<Vec<Option<u8>>>,
    w: int,
    h: int,
    px: int,
    py: int,
    bx: int,
    by: int,
) -> bool {
    exists|cx: int, cy: int|
        cell_before(cx, cy, bx, by) && #[trigger] covered_by_cell(g, w, h, cx, cy, px, py)
}

/// A pixel covered before one position stays covered before any later one.
pub proof fn lemma_covered_upto_mono(
    g: Seq<Vec<Option<u8>>>,
    w: int,
    h: int,
    px: int,
    py: int,
    bx1: int,
    by1: int,
    bx2: int,
    by2: int,
)
    requires
        bx1 < bx2 || (bx1 == bx2 && by1 <= by2),
        covered_upto(g, w, h, px, py, bx1, by1),
    ensures
        covered_upto(g, w, h, px, py, bx2, by2),
{
    let (cx, cy) = choose|cx: int, cy: int|
        cell_before(cx, cy, bx1, by1) && #[trigger] covered_by_cell(g, w, h, cx, cy, px, py);
    assert(cell_before(cx, cy, bx2, by2) && covered_by_cell(g, w, h, cx, cy, px, py));
}

/// The rectangle of a valid cell lies within the image.
pub proof fn lemma_rect_bounds(w: int, h: int, gw: int, gh: int, gx: int, gy: int, px: int, py: int)
    requires
        w >= 1,
        h >= 1,
        1 <= gw,
        1 <= gh,
        0 <= gx < gw,
        0 <= gy < gh,
        in_rect(w, h, gw, gh, gx, gy, px, py),
    ensures
        0 <= px < w,
        0 <= py < h,
{
    lemma_cell_span(w, gw, gx);
    lemma_cell_span(h, gh, gy);
    assert((gy + 1) * (h / gh) == gy * (h / gh) + (h / gh)) by (nonlinear_arith);
}

/// Law: a pixel in the rectangle of a cell that asks for no overlay is
/// covered by no cell at all, so `apply_overlay` leaves it unchanged. This
/// is how a skipped sample (absent, fully lit, or negligible) keeps its
/// cell's pixels untouched.
pub proof fn lemma_skipped_cell_uncovered(
    g: Seq<Vec<Option<u8>>>,
    w: int,
    h: int,
    gx: int,
    gy: int,
    px: int,
    py: int,
)
    requires
        w >= 1,
        h >= 1,
        is_cell(g, gx, gy),
        cell_alpha(g, gx, gy) is None,
        in_rect(w, h, grid_width(g), col_height(g, gx), gx, gy, px, py),
    ensures
        !covered(g, w, h, px, py),
{
    if covered(g, w, h, px, py) {
        let (cx, cy) = choose|cx: int, cy: int| #[trigger] covered_by_cell(g, w, h, cx, cy, px, py);
        lemma_rect_unique(
            w,
            h,
            grid_width(g),
            col_height(g, cx),
            col_height(g, gx),
            cx,
            cy,
            gx,
            gy,
            px,
            py,
        );
        assert(false);
    }
}

/// Composites each overlay cell's black square onto the image: afterwards a
/// pixel in the rectangle of an overlay cell holds the blend of its old
/// value under that cell's alpha, and every other pixel is untouched. Cells
/// holding `None` draw nothing.
pub fn apply_overlay(image: &mut RgbaImage, grid: &ZLighting)
    requires
        old(image).wf(),
        old(image).width >= 1,
        old(image).height >= 1,
        grid@.len() <= u32::MAX,
        forall|gx: int| 0 <= gx < grid@.len() ==> (#[trigger] grid@[gx])@.len() <= u32::MAX,
    ensures
        final(image).wf(),
        final(image).width == old(image).width,
        final(image).height == old(image).height,
        forall|gx: int, gy: int, px: int, py: int|
            #[trigger] covered_by_cell(
                grid@,
                old(image).width as int,
                old(image).height as int,
                gx,
                gy,
                px,
                py,
            ) ==> (cell_alpha(grid@, gx, gy) matches Some(a) && final(image).pix(px, py)
                == spec_blend(old(image).pix(px, py), spec_black(a))),
        forall|px: int, py: int|
            0 <= px < old(image).width && 0 <= py < old(image).height && !covered(
                grid@,
                old(image).width as int,
                old(image).height as int,
                px,
                py,
            ) ==> final(image).pix(px, py) == old(image).pix(px, py),
{
    let ghost g = grid@;
    let ghost w = old(image).width as int;
    let ghost h = old(image).height as int;
    let gw: usize = grid.len();
    let mut gx: usize = 0;
    while gx < gw
        invariant
            image.wf(),
            image.width == old(image).width,
            image.height == old(image).height,
            old(image).width >= 1,
            old(image).height >= 1,
            g == grid@,
            w == old(image).width as int,
            h == old(image).height as int,
            gw == g.len(),
            gw <= u32::MAX,
            forall|cx: int| 0 <= cx < g.len() ==> (#[trigger] g[cx])@.len() <= u32::MAX,
            gx <= gw,
            forall|cx: int, cy: int, px: int, py: int|
                cell_before(cx, cy, gx as int, 0) && #[trigger] covered_by_cell(
                    g,
                    w,
                    h,
                    cx,
                    cy,
                    px,
                    py,
                ) ==> (cell_alpha(g, cx, cy) matches Some(a) && image.pix(px, py) == spec_blend(
                    old(image).pix(px, py),
                    spec_black(a),
                )),
            forall|px: int, py: int|
                0 <= px < w && 0 <= py < h && !covered_upto(g, w, h, px, py, gx as int, 0)
                    ==> image.pix(px, py) == old(image).pix(px, py),
        decreases gw - gx,
    {
        let col = &grid[gx];
        let gh: usize = col.len();
        let mut gy: usize = 0;
        while gy < gh
            invariant
                image.wf(),
                image.width == old(image).width,
                image.height == old(image).height,
                old(image).width >= 1,
                old(image).height >= 1,
                g == grid@,
                w == old(image).width as int,
                h == old(image).height as int,
                gw == g.len(),
                gw <= u32::MAX,
                forall|cx: int| 0 <= cx < g.len() ==> (#[trigger] g[cx])@.len() <= u32::MAX,
                gx < gw,
                *col == g[gx as int],
                gh == col@.len(),
                gy <= gh,
                forall|cx: int, cy: int, px: int, py: int|
                    cell_before(cx, cy, gx as int, gy as int) && #[trigger] covered_by_cell(
                        g,
                        w,
                        h,
                        cx,
                        cy,
                        px,
                        py,
                    ) ==> (cell_alpha(g, cx, cy) matches Some(a) && image.pix(px, py)
                        == spec_blend(old(image).pix(px, py), spec_black(a))),
                forall|px: int, py: int|
                    0 <= px < w && 0 <= py < h && !covered_upto(
                        g,
                        w,
                        h,
                        px,
                        py,
                        gx as int,
                        gy as int,
                    ) ==> image.pix(px, py) == old(image).pix(px, py),
            decreases gh - gy,
        {
            let ghost pre = *image;
            let cell: Option<u8> = col[gy];
            assert(cell == cell_alpha(g, gx as int, gy as int));
            match cell {
                Some(alpha) => {
                    draw_square(image, gx as u32, gy as u32, gw as u32, gh as u32, alpha);
                    proof {
                        lemma_overlay_step(
                            g,
                            w,
                            h,
                            gx as int,
                            gy as int,
                            alpha,
                            *old(image),
                            pre,
                            *image,
                        );
                    }
                },
                None => {
                    proof {
                        assert forall|cx: int, cy: int, px: int, py: int|
                            cell_before(cx, cy, gx as int, gy as int + 1)
                                && #[trigger] covered_by_cell(g, w, h, cx, cy, px, py) implies (
                        cell_alpha(g, cx, cy) matches Some(a) && image.pix(px, py) == spec_blend(
                            old(image).pix(px, py),
                            spec_black(a),
                        )) by {
                            assert(cell_before(cx, cy, gx as int, gy as int));
                        }
                        assert forall|px: int, py: int|
                            0 <= px < w && 0 <= py < h && !covered_upto(
                                g,
                                w,
                                h,
                                px,
                                py,
                                gx as int,
                                gy as int + 1,
                            ) implies image.pix(px, py) == old(image).pix(px, py) by {
                            if covered_upto(g, w, h, px, py, gx as int, gy as int) {
                                lemma_covered_upto_mono(
                                    g,
                                    w,
                                    h,
                                    px,
                                    py,
                                    gx as int,
                                    gy as int,
                                    gx as int,
                                    gy as int + 1,
                                );
                            }
                        }
                    }
                },
            }
            gy = gy + 1;
        }
        proof {
            assert forall|cx: int, cy: int, px: int, py: int|
                cell_before(cx, cy, gx as int + 1, 0) && #[trigger] covered_by_cell(
                    g,
                    w,
                    h,
                    cx,
                    cy,
                    px,
                    py,
                ) implies (cell_alpha(g, cx, cy) matches Some(a) && image.pix(px, py)
                == spec_blend(old(image).pix(px, py), spec_black(a))) by {
                assert(is_cell(g, cx, cy));
                if cx == gx as int {
                    assert(cy < col_height(g, cx));
                    assert(cell_before(cx, cy, gx as int, gh as int));
                } else {
                    assert(cell_before(cx, cy, gx as int, gh as int));
                }
            }
            assert forall|px: int, py: int|
                0 <= px < w && 0 <= py < h && !covered_upto(g, w, h, px, py, gx as int + 1, 0)
                implies image.pix(px, py) == old(image).pix(px, py) by {
                if covered_upto(g, w, h, px, py, gx as int, gh as int) {
                    lemma_covered_upto_mono(
                        g,
                        w,
                        h,
                        px,
                        py,
                        gx as int,
                        gh as int,
                        gx as int + 1,
                        0,
                    );
                }
            }
        }
        gx = gx + 1;
    }
    proof {
        assert forall|cx: int, cy: int, px: int, py: int|
            #[trigger] covered_by_cell(g, w, h, cx, cy, px, py) implies (cell_alpha(g, cx, cy)
            matches Some(a) && image.pix(px, py) == spec_blend(
            old(image).pix(px, py),
            spec_black(a),
        )) by {
            assert(cell_before(cx, cy, gw as int, 0));
        }
        assert forall|px: int, py: int|
            0 <= px < w && 0 <= py < h && !covered(g, w, h, px, py) implies image.pix(px, py)
            == old(image).pix(px, py) by {
            if covered_upto(g, w, h, px, py, gw as int, 0) {
                let (cx, cy) = choose|cx: int, cy: int|
                    cell_before(cx, cy, gw as int, 0) && #[trigger] covered_by_cell(
                        g,
                        w,
                        h,
                        cx,
                        cy,
                        px,
                        py,
                    );
                assert(covered(g, w, h, px, py));
            }
        }
    }
}

/// One drawing step preserves the overlay invariants: after the square of
/// overlay cell `(gx, gy)` is drawn, every cell up to and including it shows
/// blended pixels and every pixel owned by no such cell is untouched.
proof fn lemma_overlay_step(
    g: Seq<Vec<Option<u8>>>,
    w: int,
    h: int,
    gx: int,
    gy: int,
    alpha: u8,
    orig: RgbaImage,
    pre: RgbaImage,
    post: RgbaImage,
)
    requires
        w >= 1,
        h >= 1,
        orig.width as int == w,
        orig.height as int == h,
        pre.width as int == w,
        pre.height as int == h,
        post.width as int == w,
        post.height as int == h,
        is_cell(g, gx, gy),
        cell_alpha(g, gx, gy) == Some(alpha),
        forall|cx: int, cy: int, px: int, py: int|
            cell_before(cx, cy, gx, gy) && #[trigger] covered_by_cell(g, w, h, cx, cy, px, py)
                ==> (cell_alpha(g, cx, cy) matches Some(a) && pre.pix(px, py) == spec_blend(
                orig.pix(px, py),
                spec_black(a),
            )),
        forall|px: int, py: int|
            0 <= px < w && 0 <= py < h && !covered_upto(g, w, h, px, py, gx, gy) ==> pre.pix(
                px,
                py,
            ) == orig.pix(px, py),
        forall|px: int, py: int|
            in_rect(w, h, grid_width(g), col_height(g, gx), gx, gy, px, py) ==> post.pix(px, py)
                == spec_blend(pre.pix(px, py), spec_black(alpha)),
        forall|px: int, py: int|
            0 <= px < w && 0 <= py < h && !in_rect(
                w,
                h,
                grid_width(g),
                col_height(g, gx),
                gx,
                gy,
                px,
                py,
            ) ==> post.pix(px, py) == pre.pix(px, py),
    ensures
        forall|cx: int, cy: int, px: int, py: int|
            cell_before(cx, cy, gx, gy + 1) && #[trigger] covered_by_cell(g, w, h, cx, cy, px, py)
                ==> (cell_alpha(g, cx, cy) matches Some(a) && post.pix(px, py) == spec_blend(
                orig.pix(px, py),
                spec_black(a),
            )),
        forall|px: int, py: int|
            0 <= px < w && 0 <= py < h && !covered_upto(g, w, h, px, py, gx, gy + 1) ==> post.pix(
                px,
                py,
            ) == orig.pix(px, py),
{
    let gw = grid_width(g);
    let gh = col_height(g, gx);
    assert forall|cx: int, cy: int, px: int, py: int|
        cell_before(cx, cy, gx, gy + 1) && #[trigger] covered_by_cell(g, w, h, cx, cy, px, py)
        implies (cell_alpha(g, cx, cy) matches Some(a) && post.pix(px, py) == spec_blend(
        orig.pix(px, py),
        spec_black(a),
    )) by {
        lemma_rect_bounds(w, h, gw, col_height(g, cx), cx, cy, px, py);
        if cx == gx && cy == gy {
            // the square just drawn: its pixels were untouched before the
            // draw, because no earlier cell's rectangle shares them
            if covered_upto(g, w, h, px, py, gx, gy) {
                let (ox, oy) = choose|ox: int, oy: int|
                    cell_before(ox, oy, gx, gy) && #[trigger] covered_by_cell(
                        g,
                        w,
                        h,
                        ox,
                        oy,
                        px,
                        py,
                    );
                lemma_rect_unique(
                    w,
                    h,
                    gw,
                    col_height(g, ox),
                    col_height(g, gx),
                    ox,
                    oy,
                    gx,
                    gy,
                    px,
                    py,
                );
                assert(false);
            }
            assert(pre.pix(px, py) == orig.pix(px, py));
        } else {
            // an earlier cell: the draw left its rectangle alone
            assert(cell_before(cx, cy, gx, gy));
            if in_rect(w, h, gw, gh, gx, gy, px, py) {
                lemma_rect_unique(
                    w,
                    h,
                    gw,
                    col_height(g, cx),
                    col_height(g, gx),
                    cx,
                    cy,
                    gx,
                    gy,
                    px,
                    py,
                );
                assert(false);
            }
            assert(post.pix(px, py) == pre.pix(px, py));
        }
    }
    assert forall|px: int, py: int|
        0 <= px < w && 0 <= py < h && !covered_upto(g, w, h, px, py, gx, gy + 1) implies post.pix(
        px,
        py,
    ) == orig.pix(px, py) by {
        if covered_upto(g, w, h, px, py, gx, gy) {
            lemma_covered_upto_mono(g, w, h, px, py, gx, gy, gx, gy + 1);
        }
        if in_rect(w, h, gw, gh, gx, gy, px, py) {
            assert(cell_before(gx, gy, gx, gy + 1) && covered_by_cell(g, w, h, gx, gy, px, py));
        }
        assert(post.pix(px, py) == pre.pix(px, py));
    }
}

} // verus!
