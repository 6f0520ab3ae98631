//! One generation: classify every cell from the counts as they stand, then apply
//! the deaths and the births, reporting the cells whose state flipped.
use vstd::prelude::*;
use crate::grid::{birth, kill, Cell, CellState, Grid, GridError, GridModel};

verus! {

/// The coordinates of a cell.
pub open spec fn coord(c: Cell) -> (u32, u32) {
    (c.x, c.y)
}

/// A cell that must be alive after the step: three live neighbours, or alive
/// with two.
pub open spec fn to_live(c: Cell) -> bool {
    c.neighbors == 3 || (c.state is Alive && c.neighbors == 2)
}

/// A live cell that must die in the step.
pub open spec fn to_die(c: Cell) -> bool {
    c.state is Alive && !to_live(c)
}

/// A dead cell that comes to life in the step.
pub open spec fn to_be_born(c: Cell) -> bool {
    c.state is Dead && c.neighbors == 3
}

/// The coordinates of the cells of `s` that satisfy `f`, in order.
pub open spec fn select(s: Seq<Cell>, f: spec_fn(Cell) -> bool) -> Seq<(u32, u32)>
    decreases s.len(),
{
    if s.len() == 0 {
        Seq::empty()
    } else if f(s.last()) {
        select(s.drop_last(), f).push(coord(s.last()))
    } else {
        select(s.drop_last(), f)
    }
}

/// The entries of `d` that are live when reached, killing them in order
/// starting from the live cells `live`.
pub open spec fn first_kills(live: Set<(u32, u32)>, d: Seq<(u32, u32)>) -> Seq<(u32, u32)>
    decreases d.len(),
{
    if d.len() == 0 {
        Seq::empty()
    } else if live.contains(d.last()) && !d.drop_last().contains(d.last()) {
        first_kills(live, d.drop_last()).push(d.last())
    } else {
        first_kills(live, d.drop_last())
    }
}

/// The entries of `l` that are dead when reached, bringing them to life in
/// order starting from the live cells `live`.
pub open spec fn first_births(live: Set<(u32, u32)>, l: Seq<(u32, u32)>) -> Seq<(u32, u32)>
    decreases l.len(),
{
    if l.len() == 0 {
        Seq::empty()
    } else if !live.contains(l.last()) && !l.drop_last().contains(l.last()) {
        first_births(live, l.drop_last()).push(l.last())
    } else {
        first_births(live, l.drop_last())
    }
}

/// Whether every coordinate of `s` lies on the grid `m`.
pub open spec fn all_in_bounds(m: GridModel, s: Seq<(u32, u32)>) -> bool {
    forall|j: int| 0 <= j < s.len() ==> m.in_bounds((#[trigger] s[j]).0 as int, s[j].1 as int)
}

/// Whether `(x, y)` is alive in the generation after `m`.
pub open spec fn next_alive(m: GridModel, x: int, y: int) -> bool {
    m.live_neighbors(x, y) == 3 || (m.alive(x, y) && m.live_neighbors(x, y) == 2)
}

/// Classifies every cell, reading only the counts present now: `life` holds the
/// cells that are to be alive after the step, `death` the live cells that die.
pub fn scan(grid: &Grid) -> (r: (Vec<(u32, u32)>, Vec<(u32, u32)>))
    ensures
        r.0@ == select(grid@.cells, |c: Cell| to_live(c)),
        r.1@ == select(grid@.cells, |c: Cell| to_die(c)),
{
    let mut life: Vec<(u32, u32)> = Vec::new();
    let mut death: Vec<(u32, u32)> = Vec::new();
    let n = grid.cell_count();
    let mut i: usize = 0;
    while i < n
        invariant
            n == grid@.cells.len(),
            i <= n,
            life@ == select(grid@.cells.take(i as int), |c: Cell| to_live(c)),
            death@ == select(grid@.cells.take(i as int), |c: Cell| to_die(c)),
        decreases n - i,
    {
        let c = grid.cell_at(i);
        assert(grid@.cells.take(i + 1).drop_last() =~= grid@.cells.take(i as int));
        if c.neighbors == 3 {
            life.push((c.x, c.y));
        } else if c.state == CellState::Alive {
            if c.neighbors == 2 {
                life.push((c.x, c.y));
            } else {
                death.push((c.x, c.y));
            }
        }
        i = i + 1;
    }
    assert(grid@.cells.take(n as int) =~= grid@.cells);
    (life, death)
}

/// Whether no two cells of `s` share coordinates.
pub open spec fn distinct_coords(s: Seq<Cell>) -> bool {
    forall|i: int, j: int| 0 <= i < s.len() && 0 <= j < s.len() && i != j ==> coord(#[trigger] s[i]) != coord(#[trigger] s[j])
}

proof fn lemma_select_contains(s: Seq<Cell>, f: spec_fn(Cell) -> bool, p: (u32, u32))
    ensures
        select(s, f).contains(p) <==> exists|i: int| 0 <= i < s.len() && coord(#[trigger] s[i]) == p && f(s[i]),
    decreases s.len(),
{
    if s.len() > 0 {
        let t = s.drop_last();
        lemma_select_contains(t, f, p);
        if select(s, f).contains(p) {
            if f(s.last()) && p == coord(s.last()) {
                assert(coord(s[s.len() - 1]) == p);
            } else {
                if f(s.last()) {
                    let j = choose|j: int| 0 <= j < select(s, f).len() && select(s, f)[j] == p;
                    assert(select(t, f)[j] == p);
                }
                let i = choose|i: int| 0 <= i < t.len() && coord(#[trigger] t[i]) == p && f(t[i]);
                assert(s[i] == t[i]);
            }
        }
        if exists|i: int| 0 <= i < s.len() && coord(#[trigger] s[i]) == p && f(s[i]) {
            let i = choose|i: int| 0 <= i < s.len() && coord(#[trigger] s[i]) == p && f(s[i]);
            if i == s.len() - 1 {
                assert(select(s, f)[select(s, f).len() - 1] == p);
            } else {
                assert(t[i] == s[i]);
                let j = choose|j: int| 0 <= j < select(t, f).len() && select(t, f)[j] == p;
                assert(select(s, f)[j] == p);
            }
        }
    }
}

proof fn lemma_kills_are_selected(live: Set<(u32, u32)>, s: Seq<Cell>)
    requires
        distinct_coords(s),
        forall|i: int| 0 <= i < s.len() && to_die(#[trigger] s[i]) ==> live.contains(coord(s[i])),
    ensures
        first_kills(live, select(s, |c: Cell| to_die(c))) == select(s, |c: Cell| to_die(c)),
    decreases s.len(),
{
    if s.len() > 0 {
        let t = s.drop_last();
        let f = |c: Cell| to_die(c);
        assert forall|i: int| 0 <= i < t.len() && to_die(#[trigger] t[i]) implies live.contains(coord(t[i])) by {
            assert(t[i] == s[i]);
        }
        assert(distinct_coords(t)) by {
            assert forall|i: int, j: int| 0 <= i < t.len() && 0 <= j < t.len() && i != j implies coord(#[trigger] t[i]) != coord(#[trigger] t[j]) by {
                assert(t[i] == s[i] && t[j] == s[j]);
            }
        }
        lemma_kills_are_selected(live, t);
        if f(s.last()) {
            let p = coord(s.last());
            lemma_select_contains(t, f, p);
            if select(t, f).contains(p) {
                let i = choose|i: int| 0 <= i < t.len() && coord(#[trigger] t[i]) == p && f(t[i]);
                assert(s[i] == t[i]);
                assert(coord(s[i]) != coord(s[s.len() - 1]));
            }
            assert(select(s, f).drop_last() =~= select(t, f));
            assert(live.contains(coord(s[s.len() - 1])));
        }
    }
}

proof fn lemma_births_are_selected(live: Set<(u32, u32)>, s: Seq<Cell>)
    requires
        distinct_coords(s),
        forall|i: int| 0 <= i < s.len() && to_live(#[trigger] s[i]) ==> (live.contains(coord(s[i])) <==> s[i].state is Alive),
    ensures
        first_births(live, select(s, |c: Cell| to_live(c))) == select(s, |c: Cell| to_be_born(c)),
    decreases s.len(),
{
    if s.len() > 0 {
        let t = s.drop_last();
        let f = |c: Cell| to_live(c);
        assert forall|i: int| 0 <= i < t.len() && to_live(#[trigger] t[i]) implies (live.contains(coord(t[i])) <==> t[i].state is Alive) by {
            assert(t[i] == s[i]);
        }
        assert(distinct_coords(t)) by {
            assert forall|i: int, j: int| 0 <= i < t.len() && 0 <= j < t.len() && i != j implies coord(#[trigger] t[i]) != coord(#[trigger] t[j]) by {
                assert(t[i] == s[i] && t[j] == s[j]);
            }
        }
        lemma_births_are_selected(live, t);
        if f(s.last()) {
            let p = coord(s.last());
            lemma_select_contains(t, f, p);
            if select(t, f).contains(p) {
                let i = choose|i: int| 0 <= i < t.len() && coord(#[trigger] t[i]) == p && f(t[i]);
                assert(s[i] == t[i]);
                assert(coord(s[i]) != coord(s[s.len() - 1]));
            }
            assert(select(s, f).drop_last() =~= select(t, f));
            assert(to_live(s[s.len() - 1]));
        }
    }
}

/// Nothing is selected when no cell satisfies `f`.
pub proof fn lemma_select_none(s: Seq<Cell>, f: spec_fn(Cell) -> bool)
    requires
        forall|i: int| 0 <= i < s.len() ==> !f(#[trigger] s[i]),
    ensures
        select(s, f) == Seq::<(u32, u32)>::empty(),
    decreases s.len(),
{
    if s.len() > 0 {
        let t = s.drop_last();
        assert forall|i: int| 0 <= i < t.len() implies !f(#[trigger] t[i]) by {
            assert(t[i] == s[i]);
        }
        lemma_select_none(t, f);
        assert(!f(s[s.len() - 1]));
    }
}

proof fn lemma_laid_out_distinct(m: GridModel)
    requires
        m.laid_out(),
    ensures
        distinct_coords(m.cells),
{
    let s = m.cells;
    assert forall|i: int, j: int| 0 <= i < s.len() && 0 <= j < s.len() && i != j implies coord(#[trigger] s[i]) != coord(#[trigger] s[j]) by {
        assert(m.index(s[i].x as int, s[i].y as int) == i);
        assert(m.index(s[j].x as int, s[j].y as int) == j);
    }
}

proof fn lemma_selected_in_bounds(m: GridModel, f: spec_fn(Cell) -> bool)
    requires
        m.laid_out(),
    ensures
        all_in_bounds(m, select(m.cells, f)),
{
    let l = select(m.cells, f);
    assert forall|j: int| 0 <= j < l.len() implies m.in_bounds((#[trigger] l[j]).0 as int, l[j].1 as int) by {
        lemma_select_contains(m.cells, f, l[j]);
        assert(l.contains(l[j]));
    }
}

/// On a laid-out grid, a coordinate is selected exactly when its own cell is.
proof fn lemma_selected_at(m: GridModel, f: spec_fn(Cell) -> bool, x: int, y: int)
    requires
        m.laid_out(),
        m.in_bounds(x, y),
    ensures
        select(m.cells, f).contains((x as u32, y as u32)) <==> f(m.cell(x, y)),
{
    let s = m.cells;
    let p = (x as u32, y as u32);
    lemma_select_contains(s, f, p);
    assert(s[m.index(x, y)] == m.cell(x, y));
    if select(s, f).contains(p) {
        let j = choose|j: int| 0 <= j < s.len() && coord(#[trigger] s[j]) == p && f(s[j]);
        assert(m.index(s[j].x as int, s[j].y as int) == j);
    }
}

/// Whether every coordinate of `s` lies on `grid`, checked in order.
fn check_bounds(grid: &Grid, s: &Vec<(u32, u32)>) -> (r: bool)
    ensures
        r == all_in_bounds(grid@, s@),
{
    let mut j: usize = 0;
    while j < s.len()
        invariant
            j <= s@.len(),
            all_in_bounds(grid@, s@.take(j as int)),
        decreases s@.len() - j,
    {
        let (x, y) = s[j];
        if x >= grid.width() || y >= grid.height() {
            assert(!grid@.in_bounds(s@[j as int].0 as int, s@[j as int].1 as int));
            return false;
        }
        assert(all_in_bounds(grid@, s@.take(j + 1))) by {
            assert forall|t: int| 0 <= t < j + 1 implies grid@.in_bounds(
                (#[trigger] s@.take(j + 1)[t]).0 as int,
                s@.take(j + 1)[t].1 as int,
            ) by {
                if t < j {
                    assert(s@.take(j + 1)[t] == s@.take(j as int)[t]);
                }
            }
        }
        j = j + 1;
    }
    assert(s@.take(j as int) =~= s@);
    true
}

/// Applies one generation's transitions: first every coordinate of `death` is
/// killed, then every coordinate of `life` is brought to life. Returns the
/// coordinates whose state actually flipped, births first. Refused, with the
/// grid untouched, when a coordinate lies outside the grid.
pub fn apply(grid: &mut Grid, life: &Vec<(u32, u32)>, death: &Vec<(u32, u32)>) -> (r: Result<
    (Vec<(u32, u32)>, Vec<(u32, u32)>),
    GridError,
>)
    requires
        old(grid)@.wf(),
    ensures
        r is Err <==> !(all_in_bounds(old(grid)@, life@) && all_in_bounds(old(grid)@, death@)),
        r is Err ==> r->Err_0 == GridError::CoordinateOutOfBounds && final(grid)@ == old(grid)@,
        final(grid)@.wf(),
        final(grid)@.width == old(grid)@.width,
        final(grid)@.height == old(grid)@.height,
        r is Ok ==> {
            &&& final(grid)@.live_set() == Set::new(
                |p: (u32, u32)| life@.contains(p) || (old(grid)@.live_set().contains(p) && !death@.contains(p)),
            )
            &&& r->Ok_0.1@ == first_kills(old(grid)@.live_set(), death@)
            &&& r->Ok_0.0@ == first_births(old(grid)@.live_set().difference(death@.to_set()), life@)
        },
{
    if !check_bounds(grid, life) || !check_bounds(grid, death) {
        return Err(GridError::CoordinateOutOfBounds);
    }
    let ghost m0 = grid@;
    let ghost live0 = m0.live_set();
    let mut changed_life: Vec<(u32, u32)> = Vec::new();
    let mut changed_death: Vec<(u32, u32)> = Vec::new();
    let mut k: usize = 0;
    while k < death.len()
        invariant
            k <= death@.len(),
            all_in_bounds(m0, death@),
            grid@.wf(),
            grid@.width == m0.width,
            grid@.height == m0.height,
            grid@.live_set() == live0.difference(death@.take(k as int).to_set()),
            changed_death@ == first_kills(live0, death@.take(k as int)),
        decreases death@.len() - k,
    {
        let (x, y) = death[k];
        let ghost before = grid@;
        assert(death@.take(k + 1).drop_last() =~= death@.take(k as int));
        assert(death@.take(k + 1).last() == (x, y));
        if let Ok(true) = grid.is_alive(x, y) {
            assert(before.live_set().contains((x, y)));
            changed_death.push((x, y));
        } else {
            assert(!before.live_set().contains((x, y)));
        }
        let _ = kill(grid, x, y);
        assert(grid@.live_set() =~= live0.difference(death@.take(k + 1).to_set())) by {
            assert forall|p: (u32, u32)| death@.take(k + 1).contains(p) <==> (death@.take(k as int).contains(p) || p == (x, y)) by {
                if death@.take(k + 1).contains(p) {
                    let t = choose|t: int| 0 <= t < k + 1 && #[trigger] death@.take(k + 1)[t] == p;
                    if t < k {
                        assert(death@.take(k as int)[t] == p);
                    }
                }
                if death@.take(k as int).contains(p) {
                    let t = choose|t: int| 0 <= t < k && #[trigger] death@.take(k as int)[t] == p;
                    assert(death@.take(k + 1)[t] == p);
                }
                if p == (x, y) {
                    assert(death@.take(k + 1)[k as int] == p);
                }
            }
        }
        k = k + 1;
    }
    assert(death@.take(k as int) =~= death@);
    let ghost live1 = grid@.live_set();
    let mut k: usize = 0;
    while k < life.len()
        invariant
            k <= life@.len(),
            all_in_bounds(m0, life@),
            grid@.wf(),
            grid@.width == m0.width,
            grid@.height == m0.height,
            grid@.live_set() == live1.union(life@.take(k as int).to_set()),
            changed_life@ == first_births(live1, life@.take(k as int)),
        decreases life@.len() - k,
    {
        let (x, y) = life[k];
        let ghost before = grid@;
        assert(life@.take(k + 1).drop_last() =~= life@.take(k as int));
        assert(life@.take(k + 1).last() == (x, y));
        if let Ok(false) = grid.is_alive(x, y) {
            assert(!before.live_set().contains((x, y)));
            changed_life.push((x, y));
        } else {
            assert(before.live_set().contains((x, y)));
        }
        let _ = birth(grid, x, y);
        assert(grid@.live_set() =~= live1.union(life@.take(k + 1).to_set())) by {
            assert forall|p: (u32, u32)| life@.take(k + 1).contains(p) <==> (life@.take(k as int).contains(p) || p == (x, y)) by {
                if life@.take(k + 1).contains(p) {
                    let t = choose|t: int| 0 <= t < k + 1 && #[trigger] life@.take(k + 1)[t] == p;
                    if t < k {
                        assert(life@.take(k as int)[t] == p);
                    }
                }
                if life@.take(k as int).contains(p) {
                    let t = choose|t: int| 0 <= t < k && #[trigger] life@.take(k as int)[t] == p;
                    assert(life@.take(k + 1)[t] == p);
                }
                if p == (x, y) {
                    assert(life@.take(k + 1)[k as int] == p);
                }
            }
        }
        k = k + 1;
    }
    assert(life@.take(k as int) =~= life@);
    assert(grid@.live_set() =~= Set::new(
        |p: (u32, u32)| life@.contains(p) || (live0.contains(p) && !death@.contains(p)),
    ));
    Ok((changed_life, changed_death))
}

/// `after` is the generation that follows `before`, and `born` and `died` are
/// the cells that came to life and that died, in row-major order.
pub open spec fn stepped(before: GridModel, after: GridModel, born: Seq<(u32, u32)>, died: Seq<(u32, u32)>) -> bool {
    &&& after.wf()
    &&& after.width == before.width
    &&& after.height == before.height
    &&& forall|x: int, y: int| before.in_bounds(x, y) ==> #[trigger] after.alive(x, y) == next_alive(before, x, y)
    &&& born == select(before.cells, |c: Cell| to_be_born(c))
    &&& died == select(before.cells, |c: Cell| to_die(c))
}

/// Advances the grid by one generation under the classical rule, every cell
/// decided from the state before the step. Returns the cells that came to life
/// and the cells that died, each in row-major order.
pub fn step(grid: &mut Grid) -> (r: (Vec<(u32, u32)>, Vec<(u32, u32)>))
    requires
        old(grid)@.wf(),
    ensures
        stepped(old(grid)@, final(grid)@, r.0@, r.1@),
{
    let ghost m0 = grid@;
    let ghost s = m0.cells;
    let ghost live0 = m0.live_set();
    let (life, death) = scan(grid);
    proof {
        lemma_laid_out_distinct(m0);
        lemma_selected_in_bounds(m0, |c: Cell| to_live(c));
        lemma_selected_in_bounds(m0, |c: Cell| to_die(c));
        assert forall|i: int| 0 <= i < s.len() && to_die(#[trigger] s[i]) implies live0.contains(coord(s[i])) by {
            assert(m0.cell(s[i].x as int, s[i].y as int) == s[i]);
        }
        let live1 = live0.difference(death@.to_set());
        assert forall|i: int| 0 <= i < s.len() && to_live(#[trigger] s[i]) implies (live1.contains(coord(s[i])) <==> s[i].state is Alive) by {
            assert(m0.cell(s[i].x as int, s[i].y as int) == s[i]);
            lemma_selected_at(m0, |c: Cell| to_die(c), s[i].x as int, s[i].y as int);
        }
        lemma_kills_are_selected(live0, s);
        lemma_births_are_selected(live1, s);
    }
    match apply(grid, &life, &death) {
        Ok(changed) => {
            proof {
                let m1 = grid@;
                assert forall|x: int, y: int| m0.in_bounds(x, y) implies #[trigger] m1.alive(x, y) == next_alive(m0, x, y) by {
                    let p = (x as u32, y as u32);
                    lemma_selected_at(m0, |c: Cell| to_live(c), x, y);
                    lemma_selected_at(m0, |c: Cell| to_die(c), x, y);
                    assert(m1.live_set().contains(p) == m1.alive(x, y));
                    assert(live0.contains(p) == m0.alive(x, y));
                }
            }
            changed
        },
        Err(_) => {
            proof {
                assert(false);
            }
            (Vec::new(), Vec::new())
        },
    }
}

} // verus!
