//! Coordinate arithmetic on a torus: single-step wraparound and the eight neighbours.
use vstd::prelude::*;

verus! {

/// A coordinate at most one step outside `[0, n)`, brought back onto the axis.
pub open spec fn wrapped(c: int, n: int) -> int {
    if c < 0 {
        n - 1
    } else if c >= n {
        0
    } else {
        c
    }
}

/// Horizontal offset of the `k`-th neighbour, `k` in `0..8`.
pub open spec fn off_x(k: int) -> int {
    if k == 0 || k == 3 || k == 5 {
        -1
    } else if k == 1 || k == 6 {
        0
    } else {
        1
    }
}

/// Vertical offset of the `k`-th neighbour, `k` in `0..8`.
pub open spec fn off_y(k: int) -> int {
    if k < 3 {
        -1
    } else if k < 5 {
        0
    } else {
        1
    }
}

/// The `k`-th toroidal neighbour of `(x, y)` on a `w` by `h` torus.
pub open spec fn neighbor(x: int, y: int, k: int, w: int, h: int) -> (int, int) {
    (wrapped(x + off_x(k), w), wrapped(y + off_y(k), h))
}

/// Wraps a coordinate that stepped at most one unit past either edge of an axis:
/// `axis_length` becomes `0`, `-1` becomes `axis_length - 1`, anything else stays.
pub fn wrap(coord: i64, axis_length: u32) -> (r: u32)
    requires
        axis_length >= 1,
        -1 <= coord <= axis_length,
    ensures
        r == wrapped(coord as int, axis_length as int),
        r < axis_length,
{
    if coord < 0 {
        axis_length - 1
    } else if coord >= axis_length as i64 {
        0
    } else {
        coord as u32
    }
}

/// The eight coordinates at Chebyshev distance one from `(x, y)`, each wrapped.
pub fn neighbors_of(x: u32, y: u32, width: u32, height: u32) -> (r: Vec<(u32, u32)>)
    requires
        x < width,
        y < height,
    ensures
        r@.len() == 8,
        forall|k: int|
            0 <= k < 8 ==> {
                &&& (#[trigger] r@[k]).0 == neighbor(x as int, y as int, k, width as int, height as int).0
                &&& r@[k].1 == neighbor(x as int, y as int, k, width as int, height as int).1
            },
{
    let xm = wrap(x as i64 - 1, width);
    let xp = wrap(x as i64 + 1, width);
    let ym = wrap(y as i64 - 1, height);
    let yp = wrap(y as i64 + 1, height);
    let r = vec![(xm, ym), (x, ym), (xp, ym), (xm, y), (xp, y), (xm, yp), (x, yp), (xp, yp)];
    assert(r@.len() == 8);
    r
}

} // verus!
