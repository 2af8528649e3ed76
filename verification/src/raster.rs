//! A line rasterizer over a row-major pixel buffer.
//!
//! The buffer is a flat `Vec<u32>` of packed colors, `width` pixels per row.
//! A segment is rasterized with a digital differential analyzer: one pixel
//! per unit step along the dominant axis, the minor coordinate obtained by
//! truncating the accumulated slope toward zero. Horizontal and vertical
//! segments draw only in the direction of growing coordinates, the start
//! pixel included and the end pixel excluded; a reversed axis-aligned
//! segment draws nothing.

use vstd::prelude::*;

verus! {

/// A pixel position: `x` grows to the right, `y` downward, both from zero.
#[derive(Clone, Copy, PartialEq, Eq, Structural, Debug)]
pub struct Point {
    pub x: u32,
    pub y: u32,
}

impl Point {
    pub fn new(x: u32, y: u32) -> (p: Point)
        ensures
            p.x == x,
            p.y == y,
    {
        Point { x, y }
    }
}

/// Absolute difference of two coordinates.
pub open spec fn abs_diff(a: int, b: int) -> int {
    if a >= b {
        a - b
    } else {
        b - a
    }
}

/// How many pixels the rasterizer writes for the segment from `start` to
/// `end`: one per unit step along the dominant axis, the end pixel excluded.
/// An axis-aligned segment whose end coordinate does not exceed its start
/// coordinate writes nothing; in particular a degenerate segment
/// (`start == end`) writes nothing.
pub open spec fn seg_steps(start: Point, end: Point) -> int {
    if start.y == end.y {
        if end.x >= start.x {
            end.x - start.x
        } else {
            0
        }
    } else if start.x == end.x {
        if end.y >= start.y {
            end.y - start.y
        } else {
            0
        }
    } else {
        let adx = abs_diff(end.x as int, start.x as int);
        let ady = abs_diff(end.y as int, start.y as int);
        if adx >= ady {
            adx
        } else {
            ady
        }
    }
}

/// The x coordinate of the `i`-th pixel written for the segment from
/// `start` to `end`. Along the dominant axis the coordinate moves one unit
/// per step toward `end`; along the minor axis it moves by the slope
/// contribution `i * minor / major`, truncated toward zero.
pub open spec fn seg_pixel_x(start: Point, end: Point, i: int) -> int {
    if start.y == end.y {
        start.x + i
    } else if start.x == end.x {
        start.x as int
    } else {
        let adx = abs_diff(end.x as int, start.x as int);
        let ady = abs_diff(end.y as int, start.y as int);
        let step = if adx >= ady {
            i
        } else {
            (i * adx) / ady
        };
        if end.x >= start.x {
            start.x + step
        } else {
            start.x - step
        }
    }
}

/// The y coordinate of the `i`-th pixel written for the segment from
/// `start` to `end`; see `seg_pixel_x`.
pub open spec fn seg_pixel_y(start: Point, end: Point, i: int) -> int {
    if start.y == end.y {
        start.y as int
    } else if start.x == end.x {
        start.y + i
    } else {
        let adx = abs_diff(end.x as int, start.x as int);
        let ady = abs_diff(end.y as int, start.y as int);
        let step = if adx >= ady {
            (i * ady) / adx
        } else {
            i
        };
        if end.y >= start.y {
            start.y + step
        } else {
            start.y - step
        }
    }
}

/// Row-major index of the pixel at `(x, y)` in a buffer `width` pixels wide.
pub open spec fn pixel_index(width: int, x: int, y: int) -> int {
    y * width + x
}

/// Whether buffer index `j` is written by one of the first `k` steps of
/// rasterizing the segment from `start` to `end` into a buffer `width`
/// pixels wide.
pub open spec fn seg_writes_index_upto(start: Point, end: Point, width: int, k: int, j: int) -> bool {
    exists|i: int|
        0 <= i < k && j == pixel_index(
            width,
            seg_pixel_x(start, end, i),
            seg_pixel_y(start, end, i),
        )
}

/// Whether buffer index `j` is written at all when the segment from `start`
/// to `end` is rasterized into a buffer `width` pixels wide.
pub open spec fn seg_writes_index(start: Point, end: Point, width: int, j: int) -> bool {
    seg_writes_index_upto(start, end, width, seg_steps(start, end), j)
}

/// The bounds the caller must guarantee: the buffer is at least `width`
/// pixels wide, both endpoints lie in a column of the buffer, and the rows
/// of both endpoints lie entirely within the buffer.
pub open spec fn seg_in_bounds(start: Point, end: Point, width: int, len: int) -> bool {
    &&& 0 < width
    &&& start.x < width
    &&& end.x < width
    &&& (start.y + 1) * width <= len
    &&& (end.y + 1) * width <= len
}

/// A pixel in a row that lies within the buffer has an in-range index.
proof fn lemma_pixel_in_bounds(y: int, ymax: int, x: int, width: int, len: int)
    requires
        0 <= y <= ymax,
        0 <= x < width,
        (ymax + 1) * width <= len,
    ensures
        0 <= y * width + x < len,
{
    assert(0 <= y * width + x < len) by (nonlinear_arith)
        requires
            0 <= y <= ymax,
            0 <= x < width,
            (ymax + 1) * width <= len,
    ;
}

/// The minor-axis offset `i * minor / major` of a step stays below the
/// minor-axis span while `i` stays below the major-axis span.
proof fn lemma_scaled_step_bound(i: int, minor: int, major: int)
    requires
        0 <= i < major,
        0 < minor,
    ensures
        0 <= (i * minor) / major < minor,
{
    assert(0 <= (i * minor) / major < minor) by (nonlinear_arith)
        requires
            0 <= i < major,
            0 < minor,
    ;
}

/// Extending the rasterized prefix by one step adds exactly the index of
/// that step's pixel to the set of written indices.
proof fn lemma_upto_step(start: Point, end: Point, width: int, k: int, j: int)
    requires
        0 <= k,
    ensures
        seg_writes_index_upto(start, end, width, k + 1, j) <==> (seg_writes_index_upto(
            start,
            end,
            width,
            k,
            j,
        ) || j == pixel_index(width, seg_pixel_x(start, end, k), seg_pixel_y(start, end, k))),
{
    if seg_writes_index_upto(start, end, width, k + 1, j) {
        let i = choose|i: int|
            0 <= i < k + 1 && j == pixel_index(
                width,
                seg_pixel_x(start, end, i),
                seg_pixel_y(start, end, i),
            );
        if i < k {
            assert(seg_writes_index_upto(start, end, width, k, j));
        }
    }
    if seg_writes_index_upto(start, end, width, k, j) {
        let i = choose|i: int|
            0 <= i < k && j == pixel_index(
                width,
                seg_pixel_x(start, end, i),
                seg_pixel_y(start, end, i),
            );
        assert(0 <= i < k + 1 && j == pixel_index(
            width,
            seg_pixel_x(start, end, i),
            seg_pixel_y(start, end, i),
        ));
        assert(seg_writes_index_upto(start, end, width, k + 1, j));
    }
    if j == pixel_index(width, seg_pixel_x(start, end, k), seg_pixel_y(start, end, k)) {
        assert(0 <= k < k + 1 && j == pixel_index(
            width,
            seg_pixel_x(start, end, k),
            seg_pixel_y(start, end, k),
        ));
        assert(seg_writes_index_upto(start, end, width, k + 1, j));
    }
}

/// Rasterizes the segment from `start` to `end` into `buffer`, overwriting
/// with `color` exactly the pixels that the segment covers: the start pixel
/// included, the end pixel excluded, one pixel per unit step along the
/// dominant axis, the minor coordinate truncated toward zero. A horizontal
/// or vertical segment whose end coordinate does not exceed its start
/// coordinate (a reversed or degenerate segment) leaves the buffer
/// unchanged. Every other pixel keeps its old value.
pub fn draw_line(buffer: &mut Vec<u32>, width: u32, start: Point, end: Point, color: u32)
    requires
        seg_in_bounds(start, end, width as int, old(buffer)@.len() as int),
    ensures
        final(buffer)@.len() == old(buffer)@.len(),
        forall|j: int|
            0 <= j < old(buffer)@.len() ==> final(buffer)@[j] == (
            if seg_writes_index(start, end, width as int, j) {
                color
            } else {
                old(buffer)@[j]
            }),
{
    let buf_len: usize = buffer.len();
    if start.y == end.y {
        if end.x > start.x {
            let n: u32 = end.x - start.x;
            let mut i: u32 = 0;
            while i < n
                invariant
                    start.y == end.y,
                    end.x > start.x,
                    n == end.x - start.x,
                    i <= n,
                    seg_in_bounds(start, end, width as int, old(buffer)@.len() as int),
                    buf_len == old(buffer)@.len(),
                    buffer@.len() == old(buffer)@.len(),
                    forall|j: int|
                        0 <= j < buffer@.len() ==> buffer@[j] == (
                        if seg_writes_index_upto(start, end, width as int, i as int, j) {
                            color
                        } else {
                            old(buffer)@[j]
                        }),
                decreases n - i,
            {
                proof {
                    lemma_pixel_in_bounds(
                        start.y as int,
                        start.y as int,
                        start.x + i,
                        width as int,
                        buffer@.len() as int,
                    );
                }
                let idx: usize = (start.y as usize) * (width as usize) + (start.x as usize) + (
                i as usize);
                buffer.set(idx, color);
                proof {
                    assert(idx as int == pixel_index(
                        width as int,
                        seg_pixel_x(start, end, i as int),
                        seg_pixel_y(start, end, i as int),
                    ));
                    assert forall|j: int| 0 <= j < buffer@.len() implies buffer@[j] == (
                    if seg_writes_index_upto(start, end, width as int, i as int + 1, j) {
                        color
                    } else {
                        old(buffer)@[j]
                    }) by {
                        lemma_upto_step(start, end, width as int, i as int, j);
                    }
                }
                i = i + 1;
            }
        }
    } else if start.x == end.x {
        if end.y > start.y {
            let n: u32 = end.y - start.y;
            let mut i: u32 = 0;
            while i < n
                invariant
                    start.x == end.x,
                    start.y != end.y,
                    end.y > start.y,
                    n == end.y - start.y,
                    i <= n,
                    seg_in_bounds(start, end, width as int, old(buffer)@.len() as int),
                    buf_len == old(buffer)@.len(),
                    buffer@.len() == old(buffer)@.len(),
                    forall|j: int|
                        0 <= j < buffer@.len() ==> buffer@[j] == (
                        if seg_writes_index_upto(start, end, width as int, i as int, j) {
                            color
                        } else {
                            old(buffer)@[j]
                        }),
                decreases n - i,
            {
                proof {
                    lemma_pixel_in_bounds(
                        start.y + i,
                        end.y as int,
                        start.x as int,
                        width as int,
                        buffer@.len() as int,
                    );
                }
                let py: u32 = start.y + i;
                let idx: usize = (py as usize) * (width as usize) + (start.x as usize);
                buffer.set(idx, color);
                proof {
                    assert(idx as int == pixel_index(
                        width as int,
                        seg_pixel_x(start, end, i as int),
                        seg_pixel_y(start, end, i as int),
                    ));
                    assert forall|j: int| 0 <= j < buffer@.len() implies buffer@[j] == (
                    if seg_writes_index_upto(start, end, width as int, i as int + 1, j) {
                        color
                    } else {
                        old(buffer)@[j]
                    }) by {
                        lemma_upto_step(start, end, width as int, i as int, j);
                    }
                }
                i = i + 1;
            }
        }
    } else {
        let xpos: bool = end.x >= start.x;
        let ypos: bool = end.y >= start.y;
        let adx: u32 = if xpos {
            end.x - start.x
        } else {
            start.x - end.x
        };
        let ady: u32 = if ypos {
            end.y - start.y
        } else {
            start.y - end.y
        };
        let ymax: u32 = if ypos {
            end.y
        } else {
            start.y
        };
        if adx >= ady {
            let mut i: u32 = 0;
            while i < adx
                invariant
                    start.y != end.y,
                    start.x != end.x,
                    xpos == (end.x >= start.x),
                    ypos == (end.y >= start.y),
                    adx == abs_diff(end.x as int, start.x as int),
                    ady == abs_diff(end.y as int, start.y as int),
                    ymax == (if ypos { end.y } else { start.y }),
                    adx >= ady,
                    ady > 0,
                    i <= adx,
                    seg_in_bounds(start, end, width as int, old(buffer)@.len() as int),
                    buf_len == old(buffer)@.len(),
                    buffer@.len() == old(buffer)@.len(),
                    forall|j: int|
                        0 <= j < buffer@.len() ==> buffer@[j] == (
                        if seg_writes_index_upto(start, end, width as int, i as int, j) {
                            color
                        } else {
                            old(buffer)@[j]
                        }),
                decreases adx - i,
            {
                proof {
                    assert((i as int) * (ady as int) <= 0xffff_ffff * 0xffff_ffff)
                        by (nonlinear_arith)
                        requires
                            i <= 0xffff_ffffu32,
                            ady <= 0xffff_ffffu32,
                    ;
                    lemma_scaled_step_bound(i as int, ady as int, adx as int);
                }
                let q64: u64 = (i as u64) * (ady as u64) / (adx as u64);
                let q: u32 = q64 as u32;
                let px: u32 = if xpos {
                    start.x + i
                } else {
                    start.x - i
                };
                let py: u32 = if ypos {
                    start.y + q
                } else {
                    start.y - q
                };
                proof {
                    lemma_pixel_in_bounds(
                        py as int,
                        ymax as int,
                        px as int,
                        width as int,
                        buffer@.len() as int,
                    );
                }
                let idx: usize = (py as usize) * (width as usize) + (px as usize);
                buffer.set(idx, color);
                proof {
                    assert(idx as int == pixel_index(
                        width as int,
                        seg_pixel_x(start, end, i as int),
                        seg_pixel_y(start, end, i as int),
                    ));
                    assert forall|j: int| 0 <= j < buffer@.len() implies buffer@[j] == (
                    if seg_writes_index_upto(start, end, width as int, i as int + 1, j) {
                        color
                    } else {
                        old(buffer)@[j]
                    }) by {
                        lemma_upto_step(start, end, width as int, i as int, j);
                    }
                }
                i = i + 1;
            }
        } else {
            let mut i: u32 = 0;
            while i < ady
                invariant
                    start.y != end.y,
                    start.x != end.x,
                    xpos == (end.x >= start.x),
                    ypos == (end.y >= start.y),
                    adx == abs_diff(end.x as int, start.x as int),
                    ady == abs_diff(end.y as int, start.y as int),
                    ymax == (if ypos { end.y } else { start.y }),
                    ady > adx,
                    adx > 0,
                    i <= ady,
                    seg_in_bounds(start, end, width as int, old(buffer)@.len() as int),
                    buf_len == old(buffer)@.len(),
                    buffer@.len() == old(buffer)@.len(),
                    forall|j: int|
                        0 <= j < buffer@.len() ==> buffer@[j] == (
                        if seg_writes_index_upto(start, end, width as int, i as int, j) {
                            color
                        } else {
                            old(buffer)@[j]
                        }),
                decreases ady - i,
            {
                proof {
                    assert((i as int) * (adx as int) <= 0xffff_ffff * 0xffff_ffff)
                        by (nonlinear_arith)
                        requires
                            i <= 0xffff_ffffu32,
                            adx <= 0xffff_ffffu32,
                    ;
                    lemma_scaled_step_bound(i as int, adx as int, ady as int);
                }
                let q64: u64 = (i as u64) * (adx as u64) / (ady as u64);
                let q: u32 = q64 as u32;
                let px: u32 = if xpos {
                    start.x + q
                } else {
                    start.x - q
                };
                let py: u32 = if ypos {
                    start.y + i
                } else {
                    start.y - i
                };
                proof {
                    lemma_pixel_in_bounds(
                        py as int,
                        ymax as int,
                        px as int,
                        width as int,
                        buffer@.len() as int,
                    );
                }
                let idx: usize = (py as usize) * (width as usize) + (px as usize);
                buffer.set(idx, color);
                proof {
                    assert(idx as int == pixel_index(
                        width as int,
                        seg_pixel_x(start, end, i as int),
                        seg_pixel_y(start, end, i as int),
                    ));
                    assert forall|j: int| 0 <= j < buffer@.len() implies buffer@[j] == (
                    if seg_writes_index_upto(start, end, width as int, i as int + 1, j) {
                        color
                    } else {
                        old(buffer)@[j]
                    }) by {
                        lemma_upto_step(start, end, width as int, i as int, j);
                    }
                }
                i = i + 1;
            }
        }
    }
}

/// The error returned when a segment's endpoints do not address pixels of
/// the buffer.
#[derive(Clone, Copy, PartialEq, Eq, Structural, Debug)]
pub enum RasterError {
    OutOfBounds,
}

/// Like `draw_line`, but checks the bounds instead of requiring them: a
/// call whose endpoints do not all address pixels of the buffer is rejected
/// with `RasterError::OutOfBounds` and leaves the buffer unchanged.
pub fn try_draw_line(
    buffer: &mut Vec<u32>,
    width: u32,
    start: Point,
    end: Point,
    color: u32,
) -> (r: Result<(), RasterError>)
    ensures
        final(buffer)@.len() == old(buffer)@.len(),
        r is Ok <==> seg_in_bounds(start, end, width as int, old(buffer)@.len() as int),
        r is Ok ==> forall|j: int|
            0 <= j < old(buffer)@.len() ==> final(buffer)@[j] == (
            if seg_writes_index(start, end, width as int, j) {
                color
            } else {
                old(buffer)@[j]
            }),
        r is Err ==> final(buffer)@ == old(buffer)@,
{
    let len: usize = buffer.len();
    proof {
        assert((start.y as int + 1) * (width as int) <= 0x1_0000_0000 * 0xffff_ffff
            && (end.y as int + 1) * (width as int) <= 0x1_0000_0000 * 0xffff_ffff)
            by (nonlinear_arith)
            requires
                start.y as int + 1 <= 0x1_0000_0000,
                end.y as int + 1 <= 0x1_0000_0000,
                0 <= width as int <= 0xffff_ffff,
        ;
    }
    let ok: bool = width > 0 && start.x < width && end.x < width && (start.y as u64 + 1) * (
    width as u64) <= len as u64 && (end.y as u64 + 1) * (width as u64) <= len as u64;
    if ok {
        draw_line(buffer, width, start, end, color);
        Ok(())
    } else {
        Err(RasterError::OutOfBounds)
    }
}

/// Overwrites every pixel of `buffer` with `color`.
pub fn fill(buffer: &mut Vec<u32>, color: u32)
    ensures
        final(buffer)@.len() == old(buffer)@.len(),
        forall|j: int| 0 <= j < old(buffer)@.len() ==> final(buffer)@[j] == color,
{
    let len: usize = buffer.len();
    let mut i: usize = 0;
    while i < len
        invariant
            i <= len,
            len == old(buffer)@.len(),
            buffer@.len() == old(buffer)@.len(),
            forall|j: int| 0 <= j < i ==> buffer@[j] == color,
        decreases len - i,
    {
        buffer.set(i, color);
        i = i + 1;
    }
}

/// The pixel at the center of a `width` by `height` frame.
pub open spec fn frame_center(width: u32, height: u32) -> Point {
    Point { x: (width / 2) as u32, y: (height / 2) as u32 }
}

/// Renders one frame: a fresh `width` by `height` buffer filled with
/// `background`, with the segment from the frame's center to `cursor`
/// drawn over it in `line_color`.
pub fn render_frame(width: u32, height: u32, cursor: Point, background: u32, line_color: u32) -> (
frame: Vec<u32>)
    requires
        0 < width,
        0 < height,
        cursor.x < width,
        cursor.y < height,
        width * height <= usize::MAX,
    ensures
        frame@.len() == width * height,
        forall|j: int|
            0 <= j < frame@.len() ==> frame@[j] == (
            if seg_writes_index(frame_center(width, height), cursor, width as int, j) {
                line_color
            } else {
                background
            }),
{
    let len: usize = (width as usize) * (height as usize);
    let mut frame: Vec<u32> = Vec::new();
    let mut i: usize = 0;
    while i < len
        invariant
            i <= len,
            frame@.len() == i,
            forall|j: int| 0 <= j < i ==> frame@[j] == background,
        decreases len - i,
    {
        frame.push(background);
        i = i + 1;
    }
    let center: Point = Point::new(width / 2, height / 2);
    proof {
        assert(center == frame_center(width, height));
        assert((center.y as int + 1) * (width as int) <= len as int && (cursor.y as int + 1) * (
        width as int) <= len as int) by (nonlinear_arith)
            requires
                center.y as int + 1 <= height as int,
                cursor.y as int + 1 <= height as int,
                len as int == (width as int) * (height as int),
                0 <= width as int,
        ;
    }
    draw_line(&mut frame, width, center, cursor, line_color);
    frame
}

} // verus!
