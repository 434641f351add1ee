//! The Pickture mark, rasterised for the window and taskbar icon: three
//! rectangles on a 32-unit grid — two bars forming the pile and one frame
//! lifted clear of it — snapped to whole pixels with a one-pixel floor.
use vstd::prelude::*;
use crate::raster::{offset, lemma_offset_bounds};

verus! {

/// The grid the mark is drawn on.
pub const GRID: u32 = 32;

/// A rectangle on the grid: `(x, y, w, h)`.
pub open spec fn pile_upper() -> (int, int, int, int) { (4, 18, 24, 3) }
pub open spec fn pile_lower() -> (int, int, int, int) { (4, 24, 24, 3) }
pub open spec fn lifted() -> (int, int, int, int) { (4, 5, 18, 9) }

/// A grid length in pixels at `size`, rounded half away from zero.
pub open spec fn snap(units: int, size: int) -> int {
    (units * size + 16) / 32
}

/// A grid extent in pixels, never less than one.
pub open spec fn snap_extent(units: int, size: int) -> int {
    let v = snap(units, size);
    if v < 1 { 1 } else { v }
}

/// Pixel `(px, py)` falls in the snapped rectangle `r`.
pub open spec fn covers(r: (int, int, int, int), size: int, px: int, py: int) -> bool {
    let x0 = snap(r.0, size);
    let y0 = snap(r.1, size);
    x0 <= px < x0 + snap_extent(r.2, size) && y0 <= py < y0 + snap_extent(r.3, size)
}

/// The colour of pixel `(px, py)`: the lifted frame over the pile over the
/// ground.
pub open spec fn icon_colour(size: int, ground: Seq<u8>, pile: Seq<u8>, top: Seq<u8>, px: int, py: int) -> Seq<u8> {
    if covers(lifted(), size, px, py) {
        top
    } else if covers(pile_lower(), size, px, py) || covers(pile_upper(), size, px, py) {
        pile
    } else {
        ground
    }
}

/// The side of the icon actually drawn: at least 8 pixels.
pub open spec fn icon_side(size: u32) -> int {
    if size < 8 { 8 } else { size as int }
}

fn snap_exec(units: u32, size: u32) -> (r: u32)
    requires
        units <= GRID,
        size <= 32767,
    ensures
        r == snap(units as int, size as int),
{
    assert(units * size <= 32 * 32767) by (nonlinear_arith)
        requires units <= 32, size <= 32767;
    (units * size + 16) / 32
}

fn snap_extent_exec(units: u32, size: u32) -> (r: u32)
    requires
        units <= GRID,
        size <= 32767,
    ensures
        r == snap_extent(units as int, size as int),
{
    let v = snap_exec(units, size);
    if v < 1 { 1 } else { v }
}

fn covers_exec(x: u32, y: u32, w: u32, h: u32, size: u32, px: u32, py: u32) -> (r: bool)
    requires
        x <= GRID && y <= GRID && w <= GRID && h <= GRID,
        size <= 32767,
    ensures
        r == covers((x as int, y as int, w as int, h as int), size as int, px as int, py as int),
{
    let x0 = snap_exec(x, size);
    let y0 = snap_exec(y, size);
    let w0 = snap_extent_exec(w, size);
    let h0 = snap_extent_exec(h, size);
    x0 <= px && (px as u64) < x0 as u64 + w0 as u64 && y0 <= py && (py as u64) < y0 as u64 + h0 as u64
}

/// Rasterise the mark as RGBA rows, `max(size, 8)` pixels square.
pub fn rgba_icon(size: u32, ground: [u8; 4], pile: [u8; 4], top: [u8; 4]) -> (r: Vec<u8>)
    requires
        icon_side(size) * icon_side(size) * 4 <= u32::MAX,
    ensures
        r@.len() == icon_side(size) * icon_side(size) * 4,
        forall|px: int, py: int, c: int| 0 <= px < icon_side(size) && 0 <= py < icon_side(size) && 0 <= c < 4 ==>
            #[trigger] r@[offset(icon_side(size), px, py) + c]
                == icon_colour(icon_side(size), ground@, pile@, top@, px, py)[c],
{
    let s: u32 = if size < 8 { 8 } else { size };
    assert(s <= 32767) by (nonlinear_arith)
        requires s * s * 4 <= u32::MAX, s >= 8;
    let ghost si = s as int;
    let mut buf: Vec<u8> = Vec::new();
    let mut py: u32 = 0;
    while py < s
        invariant
            0 <= py <= s,
            s == icon_side(size),
            si == s as int,
            s <= 32767,
            buf@.len() == py as int * si * 4,
            forall|x: int, y: int, c: int| 0 <= x < si && 0 <= y < py && 0 <= c < 4 ==>
                #[trigger] buf@[offset(si, x, y) + c] == icon_colour(si, ground@, pile@, top@, x, y)[c],
        decreases s - py,
    {
        let mut px: u32 = 0;
        while px < s
            invariant
                0 <= px <= s,
                0 <= py < s,
                s == icon_side(size),
                si == s as int,
                s <= 32767,
                buf@.len() == offset(si, px as int, py as int),
                forall|x: int, y: int, c: int| 0 <= x < si && 0 <= y < py && 0 <= c < 4 ==>
                    #[trigger] buf@[offset(si, x, y) + c] == icon_colour(si, ground@, pile@, top@, x, y)[c],
                forall|x: int, c: int| 0 <= x < px && 0 <= c < 4 ==>
                    #[trigger] buf@[offset(si, x, py as int) + c] == icon_colour(si, ground@, pile@, top@, x, py as int)[c],
            decreases s - px,
        {
            let colour = if covers_exec(4, 5, 18, 9, s, px, py) {
                top
            } else if covers_exec(4, 24, 24, 3, s, px, py) || covers_exec(4, 18, 24, 3, s, px, py) {
                pile
            } else {
                ground
            };
            assert(colour@ == icon_colour(si, ground@, pile@, top@, px as int, py as int));
            let ghost before = buf@;
            buf.push(colour[0]);
            buf.push(colour[1]);
            buf.push(colour[2]);
            buf.push(colour[3]);
            proof {
                assert forall|x: int, y: int, c: int| 0 <= x < si && 0 <= y < py && 0 <= c < 4 implies
                    #[trigger] buf@[offset(si, x, y) + c] == icon_colour(si, ground@, pile@, top@, x, y)[c] by {
                    lemma_offset_bounds(si, py as int, x, y);
                    assert(si * py as int == py as int * si) by (nonlinear_arith);
                    assert(py as int * si * 4 <= offset(si, px as int, py as int)) by (nonlinear_arith)
                        requires px >= 0, si >= 0;
                    assert(buf@[offset(si, x, y) + c] == before[offset(si, x, y) + c]);
                }
                assert forall|x: int, c: int| 0 <= x < px + 1 && 0 <= c < 4 implies
                    #[trigger] buf@[offset(si, x, py as int) + c] == icon_colour(si, ground@, pile@, top@, x, py as int)[c] by {
                    if x < px {
                        assert(buf@[offset(si, x, py as int) + c] == before[offset(si, x, py as int) + c]);
                    }
                }
            }
            px += 1;
        }
        proof {
            assert((py as int * si + si) * 4 == (py as int + 1) * si * 4) by (nonlinear_arith);
        }
        py += 1;
    }
    buf
}

/// The icon in the application's own colours, on the window ground.
pub fn app_icon(size: u32) -> (r: Vec<u8>)
    requires
        icon_side(size) * icon_side(size) * 4 <= u32::MAX,
    ensures
        r@.len() == icon_side(size) * icon_side(size) * 4,
        forall|px: int, py: int, c: int| 0 <= px < icon_side(size) && 0 <= py < icon_side(size) && 0 <= c < 4 ==>
            #[trigger] r@[offset(icon_side(size), px, py) + c] == icon_colour(
                icon_side(size),
                seq![0x17u8, 0x18u8, 0x1Au8, 0xFFu8],
                seq![0x8Cu8, 0x8Au8, 0x86u8, 0xFFu8],
                seq![0xC9u8, 0x8Au8, 0x2Eu8, 0xFFu8],
                px,
                py,
            )[c],
{
    let ground: [u8; 4] = [0x17, 0x18, 0x1A, 0xFF];
    let pile: [u8; 4] = [0x8C, 0x8A, 0x86, 0xFF];
    let top: [u8; 4] = [0xC9, 0x8A, 0x2E, 0xFF];
    assert(ground@ =~= seq![0x17u8, 0x18u8, 0x1Au8, 0xFFu8]);
    assert(pile@ =~= seq![0x8Cu8, 0x8Au8, 0x86u8, 0xFFu8]);
    assert(top@ =~= seq![0xC9u8, 0x8Au8, 0x2Eu8, 0xFFu8]);
    rgba_icon(size, ground, pile, top)
}

/// At every size the lifted frame shows: its first pixel lies inside the
/// icon and is drawn in the lifted colour.
pub proof fn lemma_lifted_frame_always_shows(size: int)
    requires
        size >= 8,
    ensures
        0 <= snap(4, size) < size,
        0 <= snap(5, size) < size,
        covers(lifted(), size, snap(4, size), snap(5, size)),
{
    assert(snap(4, size) < size) by (nonlinear_arith)
        requires size >= 8;
    assert(snap(5, size) < size) by (nonlinear_arith)
        requires size >= 8;
}

} // verus!
