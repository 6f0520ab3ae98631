//! Filling a fresh grid with live cells, from given or from random coordinates.
use vstd::prelude::*;
use crate::grid::{birth, Grid, GridError};
use crate::life::all_in_bounds;

verus! {

/// Relies on rand::thread_rng and rand::Rng::gen_range: a value drawn from
/// the half-open range `0..bound`, which must not be empty.
#[verifier::external_body]
fn random_below(bound: u32) -> (r: u32)
    requires
        bound > 0,
    ensures
        r < bound,
{
    rand::Rng::gen_range(&mut rand::thread_rng(), 0..bound)
}

/// Brings to life every coordinate of `coords`. Refused, with the grid
/// untouched, when a coordinate lies outside the grid.
pub fn seed(grid: &mut Grid, coords: &Vec<(u32, u32)>) -> (r: Result<(), GridError>)
    requires
        old(grid)@.wf(),
    ensures
        r is Err <==> !all_in_bounds(old(grid)@, coords@),
        r is Err ==> r->Err_0 == GridError::CoordinateOutOfBounds && final(grid)@ == old(grid)@,
        final(grid)@.wf(),
        final(grid)@.width == old(grid)@.width,
        final(grid)@.height == old(grid)@.height,
        r is Ok ==> final(grid)@.live_set() == old(grid)@.live_set().union(coords@.to_set()),
{
    let mut k: usize = 0;
    while k < coords.len()
        invariant
            k <= coords@.len(),
            all_in_bounds(old(grid)@, coords@.take(k as int)),
            old(grid)@.wf(),
            grid@ == old(grid)@,
        decreases coords@.len() - k,
    {
        let (x, y) = coords[k];
        if x >= grid.width() || y >= grid.height() {
            assert(!old(grid)@.in_bounds(coords@[k as int].0 as int, coords@[k as int].1 as int));
            return Err(GridError::CoordinateOutOfBounds);
        }
        assert(all_in_bounds(old(grid)@, coords@.take(k + 1))) by {
            assert forall|t: int| 0 <= t < k + 1 implies old(grid)@.in_bounds(
                (#[trigger] coords@.take(k + 1)[t]).0 as int,
                coords@.take(k + 1)[t].1 as int,
            ) by {
                if t < k {
                    assert(coords@.take(k + 1)[t] == coords@.take(k as int)[t]);
                }
            }
        }
        k = k + 1;
    }
    assert(coords@.take(k as int) =~= coords@);
    let ghost live0 = grid@.live_set();
    let mut k: usize = 0;
    while k < coords.len()
        invariant
            k <= coords@.len(),
            all_in_bounds(old(grid)@, coords@),
            grid@.wf(),
            grid@.width == old(grid)@.width,
            grid@.height == old(grid)@.height,
            grid@.live_set() == live0.union(coords@.take(k as int).to_set()),
        decreases coords@.len() - k,
    {
        let (x, y) = coords[k];
        assert(grid@.in_bounds(x as int, y as int));
        assert(coords@.take(k + 1).last() == (x, y));
        let _ = birth(grid, x, y);
        assert(grid@.live_set() =~= live0.union(coords@.take(k + 1).to_set())) by {
            assert forall|p: (u32, u32)| coords@.take(k + 1).contains(p) <==> (coords@.take(k as int).contains(p) || p == (x, y)) by {
                if coords@.take(k + 1).contains(p) {
                    let t = choose|t: int| 0 <= t < k + 1 && #[trigger] coords@.take(k + 1)[t] == p;
                    if t < k {
                        assert(coords@.take(k as int)[t] == p);
                    }
                }
                if coords@.take(k as int).contains(p) {
                    let t = choose|t: int| 0 <= t < k && #[trigger] coords@.take(k as int)[t] == p;
                    assert(coords@.take(k + 1)[t] == p);
                }
                if p == (x, y) {
                    assert(coords@.take(k + 1)[k as int] == p);
                }
            }
        }
        k = k + 1;
    }
    assert(coords@.take(k as int) =~= coords@);
    Ok(())
}

/// `count` coordinates drawn at random on a `width` by `height` grid.
pub fn random_coordinates(count: u32, width: u32, height: u32) -> (r: Vec<(u32, u32)>)
    requires
        width > 0,
        height > 0,
    ensures
        r@.len() == count,
        forall|j: int| 0 <= j < r@.len() ==> (#[trigger] r@[j]).0 < width && r@[j].1 < height,
{
    let mut r: Vec<(u32, u32)> = Vec::new();
    let mut k: u32 = 0;
    while k < count
        invariant
            k <= count,
            width > 0,
            height > 0,
            r@.len() == k,
            forall|j: int| 0 <= j < r@.len() ==> (#[trigger] r@[j]).0 < width && r@[j].1 < height,
        decreases count - k,
    {
        let x = random_below(width);
        let y = random_below(height);
        r.push((x, y));
        k = k + 1;
    }
    r
}

/// Brings to life `count` cells drawn at random (a cell may be drawn twice).
pub fn seed_random(grid: &mut Grid, count: u32) -> (r: Vec<(u32, u32)>)
    requires
        old(grid)@.wf(),
    ensures
        r@.len() == count,
        all_in_bounds(old(grid)@, r@),
        final(grid)@.wf(),
        final(grid)@.width == old(grid)@.width,
        final(grid)@.height == old(grid)@.height,
        final(grid)@.live_set() == old(grid)@.live_set().union(r@.to_set()),
{
    let coords = random_coordinates(count, grid.width(), grid.height());
    let _ = seed(grid, &coords);
    coords
}

} // verus!
