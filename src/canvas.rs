//! Integer geometry for drawing the grid as rectangles on a pixel canvas.
use vstd::prelude::*;

verus! {

/// The pixel size of one cell when a `board` of cells fills a `window`.
pub fn cell_size(window: (u32, u32), board: (u32, u32)) -> (r: (u32, u32))
    requires
        board.0 > 0,
        board.1 > 0,
    ensures
        r.0 == window.0 / board.0,
        r.1 == window.1 / board.1,
{
    (window.0 / board.0, window.1 / board.1)
}

/// The pixel rectangle `(left, top, right, bottom)` of the cell at `cell`, each
/// cell being `size` pixels; `None` when a corner lies beyond `u32`.
pub fn cell_rect(cell: (u32, u32), size: (u32, u32)) -> (r: Option<(u32, u32, u32, u32)>)
    ensures
        r is None <==> (cell.0 + 1) * size.0 > u32::MAX || (cell.1 + 1) * size.1 > u32::MAX,
        r is Some ==> r->Some_0 == (
            (cell.0 * size.0) as u32,
            (cell.1 * size.1) as u32,
            ((cell.0 + 1) * size.0) as u32,
            ((cell.1 + 1) * size.1) as u32,
        ),
{
    assert((cell.0 + 1) * size.0 <= 0x1_0000_0000 * 0xffff_ffff) by (nonlinear_arith)
        requires cell.0 + 1 <= 0x1_0000_0000, size.0 <= 0xffff_ffff, 0 <= size.0;
    assert((cell.1 + 1) * size.1 <= 0x1_0000_0000 * 0xffff_ffff) by (nonlinear_arith)
        requires cell.1 + 1 <= 0x1_0000_0000, size.1 <= 0xffff_ffff, 0 <= size.1;
    let right = (cell.0 as u64 + 1) * size.0 as u64;
    let bottom = (cell.1 as u64 + 1) * size.1 as u64;
    if right > u32::MAX as u64 || bottom > u32::MAX as u64 {
        return None;
    }
    assert(cell.0 * size.0 <= (cell.0 + 1) * size.0) by (nonlinear_arith);
    assert(cell.1 * size.1 <= (cell.1 + 1) * size.1) by (nonlinear_arith);
    let left = cell.0 * size.0;
    let top = cell.1 * size.1;
    Some((left, top, right as u32, bottom as u32))
}

} // verus!
