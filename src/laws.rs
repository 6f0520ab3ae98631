//! Laws that relate several calls of the engine.
use vstd::prelude::*;
use crate::grid::{lemma_model_determined, GridModel};
use crate::life::{lemma_select_none, next_alive, stepped, to_be_born, to_die};
use crate::grid::Cell;
use crate::topology::neighbor;

verus! {

/// Bringing a dead cell to life and killing it right away restores the grid,
/// states and counts alike. `m1` is what `birth` leaves of `m0`, `m2` what
/// `kill` leaves of `m1`.
pub proof fn lemma_birth_then_kill(m0: GridModel, m1: GridModel, m2: GridModel, x: u32, y: u32)
    requires
        m0.wf(),
        m0.in_bounds(x as int, y as int),
        !m0.alive(x as int, y as int),
        m1.wf(),
        m1.width == m0.width,
        m1.height == m0.height,
        m1.live_set() == m0.live_set().insert((x, y)),
        m2.wf(),
        m2.width == m1.width,
        m2.height == m1.height,
        m2.live_set() == m1.live_set().remove((x, y)),
    ensures
        m2 == m0,
{
    assert(!m0.live_set().contains((x, y)));
    assert(m2.live_set() =~= m0.live_set());
    lemma_model_determined(m2, m0);
}

proof fn lemma_empty_all_dead(m: GridModel)
    requires
        m.wf(),
        m.live_set() == Set::<(u32, u32)>::empty(),
    ensures
        forall|i: int| 0 <= i < m.cells.len() ==> (#[trigger] m.cells[i]).state is Dead && m.cells[i].neighbors == 0,
{
    assert forall|x: int, y: int| m.in_bounds(x, y) implies !(#[trigger] m.alive(x, y)) by {
        assert(!m.live_set().contains((x as u32, y as u32)));
    }
    assert forall|i: int| 0 <= i < m.cells.len() implies (#[trigger] m.cells[i]).state is Dead && m.cells[i].neighbors == 0 by {
        let (x, y) = (m.cells[i].x as int, m.cells[i].y as int);
        assert(m.in_bounds(x, y));
        assert(m.cell(x, y) == m.cells[i]);
        assert(!m.alive(x, y));
        assert forall|k: int| 0 <= k < 8 implies m.live_at(x, y, k) == 0 by {
            let p = neighbor(x, y, k, m.width, m.height);
            assert(m.in_bounds(p.0, p.1));
            assert(!m.alive(p.0, p.1));
        }
    }
}

/// A grid with no live cell stays empty under a step, which reports no birth
/// and no death.
pub proof fn lemma_empty_is_fixed(
    before: GridModel,
    after: GridModel,
    born: Seq<(u32, u32)>,
    died: Seq<(u32, u32)>,
)
    requires
        before.wf(),
        before.live_set() == Set::<(u32, u32)>::empty(),
        stepped(before, after, born, died),
    ensures
        after == before,
        born == Seq::<(u32, u32)>::empty(),
        died == Seq::<(u32, u32)>::empty(),
{
    let s = before.cells;
    lemma_empty_all_dead(before);
    lemma_select_none(s, |c: Cell| to_be_born(c));
    lemma_select_none(s, |c: Cell| to_die(c));
    assert(after.live_set() =~= before.live_set()) by {
        assert forall|p: (u32, u32)| #[trigger] after.live_set().contains(p) == before.live_set().contains(p) by {
            if before.in_bounds(p.0 as int, p.1 as int) {
                assert(after.alive(p.0 as int, p.1 as int) == next_alive(before, p.0 as int, p.1 as int));
                assert(before.cell(p.0 as int, p.1 as int).neighbors == 0);
            }
        }
    }
    lemma_model_determined(after, before);
}

/// One step from a grid is determined: two steps from the same grid reach the
/// same grid and report the same births and deaths.
pub proof fn lemma_step_deterministic(
    before: GridModel,
    a: GridModel,
    b: GridModel,
    born_a: Seq<(u32, u32)>,
    died_a: Seq<(u32, u32)>,
    born_b: Seq<(u32, u32)>,
    died_b: Seq<(u32, u32)>,
)
    requires
        stepped(before, a, born_a, died_a),
        stepped(before, b, born_b, died_b),
    ensures
        a == b,
        born_a == born_b,
        died_a == died_b,
{
    assert(a.live_set() =~= b.live_set()) by {
        assert forall|p: (u32, u32)| #[trigger] a.live_set().contains(p) == b.live_set().contains(p) by {
            if before.in_bounds(p.0 as int, p.1 as int) {
                assert(a.alive(p.0 as int, p.1 as int) == next_alive(before, p.0 as int, p.1 as int));
                assert(b.alive(p.0 as int, p.1 as int) == next_alive(before, p.0 as int, p.1 as int));
            }
        }
    }
    lemma_model_determined(a, b);
}

proof fn lemma_runs_agree_at(
    a: Seq<GridModel>,
    b: Seq<GridModel>,
    born_a: Seq<Seq<(u32, u32)>>,
    died_a: Seq<Seq<(u32, u32)>>,
    born_b: Seq<Seq<(u32, u32)>>,
    died_b: Seq<Seq<(u32, u32)>>,
    steps: nat,
    i: nat,
)
    requires
        i <= steps,
        a.len() == steps + 1,
        b.len() == steps + 1,
        born_a.len() == steps,
        died_a.len() == steps,
        born_b.len() == steps,
        died_b.len() == steps,
        a[0] == b[0],
        forall|j: int| 0 <= j < steps ==> stepped(#[trigger] a[j], a[j + 1], born_a[j], died_a[j]),
        forall|j: int| 0 <= j < steps ==> stepped(#[trigger] b[j], b[j + 1], born_b[j], died_b[j]),
    ensures
        a[i as int] == b[i as int],
        i < steps ==> born_a[i as int] == born_b[i as int] && died_a[i as int] == died_b[i as int],
    decreases i,
{
    if i > 0 {
        let j = (i - 1) as nat;
        lemma_runs_agree_at(a, b, born_a, died_a, born_b, died_b, steps, j);
        assert(stepped(a[j as int], a[i as int], born_a[j as int], died_a[j as int]));
        assert(stepped(b[j as int], b[i as int], born_b[j as int], died_b[j as int]));
        lemma_step_deterministic(a[j as int], a[i as int], b[i as int], born_a[j as int], died_a[j as int], born_b[j as int], died_b[j as int]);
    }
    if i < steps {
        assert(stepped(a[i as int], a[(i + 1) as int], born_a[i as int], died_a[i as int]));
        assert(stepped(b[i as int], b[(i + 1) as int], born_b[i as int], died_b[i as int]));
        lemma_step_deterministic(a[i as int], a[(i + 1) as int], b[(i + 1) as int], born_a[i as int], died_a[i as int], born_b[i as int], died_b[i as int]);
    }
}

/// Two runs of `steps` generations from grids of one size with the same live
/// cells pass through the same grids and report the same births and deaths at
/// every step.
pub proof fn lemma_runs_deterministic(
    a: Seq<GridModel>,
    b: Seq<GridModel>,
    born_a: Seq<Seq<(u32, u32)>>,
    died_a: Seq<Seq<(u32, u32)>>,
    born_b: Seq<Seq<(u32, u32)>>,
    died_b: Seq<Seq<(u32, u32)>>,
    steps: nat,
)
    requires
        a.len() == steps + 1,
        b.len() == steps + 1,
        born_a.len() == steps,
        died_a.len() == steps,
        born_b.len() == steps,
        died_b.len() == steps,
        a[0].wf(),
        b[0].wf(),
        a[0].width == b[0].width,
        a[0].height == b[0].height,
        a[0].live_set() == b[0].live_set(),
        forall|i: int| 0 <= i < steps ==> stepped(#[trigger] a[i], a[i + 1], born_a[i], died_a[i]),
        forall|i: int| 0 <= i < steps ==> stepped(#[trigger] b[i], b[i + 1], born_b[i], died_b[i]),
    ensures
        a == b,
        born_a == born_b,
        died_a == died_b,
{
    lemma_model_determined(a[0], b[0]);
    assert forall|i: int| 0 <= i < a.len() implies a[i] == b[i] by {
        lemma_runs_agree_at(a, b, born_a, died_a, born_b, died_b, steps, i as nat);
    }
    assert forall|i: int| 0 <= i < steps implies born_a[i] == born_b[i] && died_a[i] == died_b[i] by {
        lemma_runs_agree_at(a, b, born_a, died_a, born_b, died_b, steps, i as nat);
    }
    assert(a =~= b);
    assert(born_a =~= born_b);
    assert(died_a =~= died_b);
}

} // verus!
