use vstd::prelude::*;

use crate::game_constants::{
    is_cell, UniverseCell, UniversePlane, CELL_DEATH, CELL_LIVE, HISTORY_SIZE, MAX_X, MAX_Y, MIN_X, MIN_Y,
    WORLD_SIZE_X, WORLD_SIZE_Y,
};
use crate::game_entropy::random_below;
use crate::game_universe::{
    cell_offset, in_history, in_world, lemma_offset_bounds, lemma_offset_in_range, lemma_wrap_id,
    plane_view, wf_pattern, wrap, Universe,
};

verus! {

/// The standard rule: a live cell stays live with two or three live neighbours, a dead cell
/// becomes live with exactly three, every other cell is dead.
pub open spec fn life_rule(state: u8, neighbors: int) -> u8 {
    if state == CELL_LIVE {
        if neighbors == 2 || neighbors == 3 {
            CELL_LIVE
        } else {
            CELL_DEATH
        }
    } else if neighbors == 3 {
        CELL_LIVE
    } else {
        CELL_DEATH
    }
}

/// Live cells among the eight toroidal neighbours of `(x, y)` in the current generation.
pub open spec fn neighbor_count(u: Universe, x: int, y: int) -> int {
    u.current_cell(x - 1, y - 1) + u.current_cell(x - 1, y) + u.current_cell(x - 1, y + 1)
        + u.current_cell(x, y - 1) + u.current_cell(x, y + 1) + u.current_cell(x + 1, y - 1)
        + u.current_cell(x + 1, y) + u.current_cell(x + 1, y + 1)
}

/// The cell at `(x, y)` of the generation that follows the current one of `u`.
pub open spec fn next_cell(u: Universe, x: int, y: int) -> u8 {
    life_rule(u.current_cell(x, y), neighbor_count(u, x, y))
}

/// The next generation is read from the current one alone: two worlds whose current
/// generations agree everywhere get the same next generation, whatever their other slots hold.
pub proof fn lemma_next_reads_current_only(u: Universe, v: Universe, x: int, y: int)
    requires
        forall|a: int, b: int| #[trigger] u.current_cell(a, b) == v.current_cell(a, b),
    ensures
        next_cell(u, x, y) == next_cell(v, x, y),
{
    assert(u.current_cell(x, y) == v.current_cell(x, y));
    assert(neighbor_count(u, x, y) == neighbor_count(v, x, y));
}

/// Fills slot `next_time` with the generation that follows the current one.
fn write_next_generation(universe: &mut Universe, next_time: isize)
    requires
        old(universe).wf(),
        in_history(next_time as int),
        next_time != old(universe).time(),
    ensures
        final(universe).wf(),
        final(universe).time() == old(universe).time(),
        final(universe).patterns() == old(universe).patterns(),
        forall|t: int, x: int, y: int|
            in_history(t) && in_world(x, y) ==> #[trigger] final(universe).cell(t, x, y) == if t
                == next_time {
                next_cell(*old(universe), x, y)
            } else {
                old(universe).cell(t, x, y)
            },
{
    let ghost start = *universe;
    let mut x_pos: isize = MIN_X;
    while x_pos <= MAX_X
        invariant
            MIN_X <= x_pos <= MAX_X + 1,
            in_history(next_time as int),
            next_time != start.time(),
            start.wf(),
            universe.wf(),
            universe.time() == start.time(),
            universe.patterns() == start.patterns(),
            forall|t: int, x: int, y: int|
                in_history(t) && in_world(x, y) ==> #[trigger] universe.cell(t, x, y) == if t
                    == next_time && x < x_pos {
                    next_cell(start, x, y)
                } else {
                    start.cell(t, x, y)
                },
        decreases MAX_X + 1 - x_pos,
    {
        let mut y_pos: isize = MIN_Y;
        while y_pos <= MAX_Y
            invariant
                MIN_X <= x_pos <= MAX_X,
                MIN_Y <= y_pos <= MAX_Y + 1,
                in_history(next_time as int),
                next_time != start.time(),
                start.wf(),
                universe.wf(),
                universe.time() == start.time(),
                universe.patterns() == start.patterns(),
                forall|t: int, x: int, y: int|
                    in_history(t) && in_world(x, y) ==> #[trigger] universe.cell(t, x, y) == if t
                        == next_time && (x < x_pos || (x == x_pos && y < y_pos)) {
                        next_cell(start, x, y)
                    } else {
                        start.cell(t, x, y)
                    },
            decreases MAX_Y + 1 - y_pos,
        {
            let (x_index, y_index) = universe.position_to_index(x_pos, y_pos);
            proof {
                assert forall|x: int, y: int| #[trigger]
                    universe.current_cell(x, y) == start.current_cell(x, y) by {
                    lemma_current_unchanged(*universe, start, next_time as int, x, y);
                }
            }
            let old_state = universe.get_current_time_cell(x_index, y_index);
            let neighbors_count = universe.get_current_time_cell(x_index - 1, y_index - 1)
                + universe.get_current_time_cell(x_index - 1, y_index)
                + universe.get_current_time_cell(x_index - 1, y_index + 1)
                + universe.get_current_time_cell(x_index, y_index - 1)
                + universe.get_current_time_cell(x_index, y_index + 1)
                + universe.get_current_time_cell(x_index + 1, y_index - 1)
                + universe.get_current_time_cell(x_index + 1, y_index)
                + universe.get_current_time_cell(x_index + 1, y_index + 1);
            let new_state: UniverseCell = if old_state == CELL_LIVE {
                if neighbors_count == 2 || neighbors_count == 3 {
                    CELL_LIVE
                } else {
                    CELL_DEATH
                }
            } else if neighbors_count == 3 {
                CELL_LIVE
            } else {
                CELL_DEATH
            };
            assert(neighbors_count == neighbor_count(start, x_pos as int, y_pos as int));
            assert(new_state == next_cell(start, x_pos as int, y_pos as int));
            let ghost before = *universe;
            universe.set_cell_low_level(next_time, x_index, y_index, new_state);
            proof {
                lemma_wrap_id(next_time as int, HISTORY_SIZE as int);
                lemma_wrap_id(x_index as int, WORLD_SIZE_X as int);
                lemma_wrap_id(y_index as int, WORLD_SIZE_Y as int);
                assert(universe.cells() == before.cells().update(
                    crate::game_universe::cell_offset(next_time as int, x_pos as int, y_pos as int),
                    new_state,
                ));
                assert forall|t: int, x: int, y: int|
                    in_history(t) && in_world(x, y) implies #[trigger] universe.cell(t, x, y)
                        == if t == next_time && (x < x_pos || (x == x_pos && y < y_pos + 1)) {
                        next_cell(start, x, y)
                    } else {
                        start.cell(t, x, y)
                    } by {
                    lemma_offset_in_range(t, x, y, next_time as int, x_pos as int, y_pos as int);
                    let o = crate::game_universe::cell_offset(t, x, y);
                    let w = crate::game_universe::cell_offset(
                        next_time as int,
                        x_pos as int,
                        y_pos as int,
                    );
                    lemma_offset_bounds(next_time as int, x_pos as int, y_pos as int);
                    if o != w {
                        assert(universe.cells()[o] == before.cells()[o]);
                        assert(universe.cell(t, x, y) == before.cell(t, x, y));
                    }
                }
            }
            y_pos = y_pos + 1;
        }
        x_pos = x_pos + 1;
    }
}

/// Writing slot `t` leaves every cell of the other slots, the current one among them, as it
/// was.
proof fn lemma_current_unchanged(u: Universe, start: Universe, t: int, x: int, y: int)
    requires
        u.wf(),
        start.wf(),
        u.time() == start.time(),
        in_history(t),
        t != start.time(),
        forall|s: int, a: int, b: int|
            in_history(s) && in_world(a, b) && s != t ==> #[trigger] u.cell(s, a, b) == start.cell(
                s,
                a,
                b,
            ),
    ensures
        u.current_cell(x, y) == start.current_cell(x, y),
{
    let (wx, wy) = (wrap(x, WORLD_SIZE_X as int), wrap(y, WORLD_SIZE_Y as int));
    lemma_offset_bounds(u.time(), x, y);
    lemma_wrap_id(u.time(), HISTORY_SIZE as int);
    lemma_wrap_id(wx, WORLD_SIZE_X as int);
    lemma_wrap_id(wy, WORLD_SIZE_Y as int);
    assert(u.cell(u.time(), wx, wy) == start.cell(u.time(), wx, wy));
    crate::game_universe::lemma_offset_unique(u.time(), x, y, u.time(), wx, wy);
    lemma_offset_bounds(u.time(), wx, wy);
}

/// Position of the wrapped axis offset `d` in the walk over a placement that starts at the
/// border cell before the pattern: that border cell is 0, the pattern's first cell 1, and so on.
pub open spec fn span_index(d: int, n: int) -> int {
    wrap(d + 1, n)
}

/// How many distinct cells of an axis of size `n` a pattern of extent `len` and its border
/// cover.
pub open spec fn span_len(len: int, n: int) -> int {
    if len + 2 <= n {
        len + 2
    } else {
        n
    }
}

/// The last index below `len` that lands on the wrapped axis offset `d`: where a pattern is
/// longer than the world, its later cells are written over its earlier ones.
pub open spec fn last_turn(d: int, len: int, n: int) -> int {
    d + n * ((len - 1 - d) / n)
}

/// The cell at `(x, y)` once pattern `p` has been placed with its corner at `(ox, oy)` over a
/// world whose cell there was `base`: the pattern's bounding box takes the pattern's cells,
/// the one-cell ring around it is dead, every other cell keeps `base`.
pub open spec fn injected_cell(base: u8, p: Seq<Seq<u8>>, ox: int, oy: int, x: int, y: int) -> u8 {
    let dx = wrap(x - ox, WORLD_SIZE_X as int);
    let dy = wrap(y - oy, WORLD_SIZE_Y as int);
    if span_index(dx, WORLD_SIZE_X as int) < span_len(p.len() as int, WORLD_SIZE_X as int)
        && span_index(dy, WORLD_SIZE_Y as int) < span_len(p[0].len() as int, WORLD_SIZE_Y as int) {
        if dx < p.len() && dy < p[0].len() {
            p[last_turn(dx, p.len() as int, WORLD_SIZE_X as int)][last_turn(
                dy,
                p[0].len() as int,
                WORLD_SIZE_Y as int,
            )]
        } else {
            CELL_DEATH
        }
    } else {
        base
    }
}

/// Step `k` of the walk over an axis lands on `x` exactly when `x` sits at position `k` of
/// that walk.
proof fn lemma_axis_step(x: int, o: int, k: int, n: int)
    requires
        0 <= x < n,
        0 <= k < n,
    ensures
        (x == wrap(o + (k - 1), n)) <==> span_index(wrap(x - o, n), n) == k,
        wrap(k - 1, n) == if k == 0 {
            n - 1
        } else {
            k - 1
        },
{
    let a = x - o;
    vstd::arithmetic::div_mod::lemma_add_mod_noop_right(1, a, n);
    assert(span_index(wrap(x - o, n), n) == (a + 1) % n);
    if (a + 1) % n == k {
        let q = (a + 1) / n;
        vstd::arithmetic::div_mod::lemma_fundamental_div_mod(a + 1, n);
        assert(o + (k - 1) == (-q) * n + x) by (nonlinear_arith)
            requires
                a + 1 == n * q + k,
                a == x - o,
        ;
        vstd::arithmetic::div_mod::lemma_fundamental_div_mod_converse(o + (k - 1), n, -q, x);
    }
    if x == (o + (k - 1)) % n {
        let q = (o + (k - 1)) / n;
        vstd::arithmetic::div_mod::lemma_fundamental_div_mod(o + (k - 1), n);
        assert(a + 1 == (-q) * n + k) by (nonlinear_arith)
            requires
                o + (k - 1) == n * q + x,
                a == x - o,
        ;
        vstd::arithmetic::div_mod::lemma_fundamental_div_mod_converse(a + 1, n, -q, k);
    }
    if k == 0 {
        vstd::arithmetic::div_mod::lemma_fundamental_div_mod_converse(k - 1, n, -1, n - 1);
    } else {
        lemma_wrap_id(k - 1, n);
    }
}

/// A wrapped axis offset is recovered from its position in the walk.
proof fn lemma_span_index_inverse(d: int, n: int)
    requires
        0 <= d < n,
    ensures
        0 <= span_index(d, n) < n,
        wrap(span_index(d, n) - 1, n) == d,
{
    if d + 1 < n {
        lemma_wrap_id(d + 1, n);
        lemma_wrap_id(d, n);
    } else {
        vstd::arithmetic::div_mod::lemma_fundamental_div_mod_converse(d + 1, n, 1, 0);
        vstd::arithmetic::div_mod::lemma_fundamental_div_mod_converse(-1, n, -1, n - 1);
    }
}

/// The last turn of `d` stays inside the pattern.
proof fn lemma_last_turn(d: int, len: int, n: int)
    requires
        0 <= d < len,
        0 < n,
    ensures
        d <= last_turn(d, len, n) < len,
        n * ((len - 1 - d) / n) <= len - 1 - d,
{
    let r = len - 1 - d;
    vstd::arithmetic::div_mod::lemma_fundamental_div_mod(r, n);
    vstd::arithmetic::div_mod::lemma_mod_bound(r, n);
    vstd::arithmetic::div_mod::lemma_div_pos_is_pos(r, n);
    assert(0 <= n * (r / n)) by (nonlinear_arith)
        requires
            0 <= r / n,
            0 < n,
    ;
}

/// Places pattern `entity` with its corner at `(x_pos, y_pos)` in slot `next_time`: a dead
/// one-cell ring around its bounding box, and the box overwritten with the pattern's cells,
/// dead ones included.
pub fn inject_entropy_at(
    universe: &mut Universe,
    next_time: isize,
    entity: &UniversePlane,
    x_pos: isize,
    y_pos: isize,
)
    requires
        old(universe).wf(),
        in_history(next_time as int),
        wf_pattern(plane_view(*entity)),
    ensures
        final(universe).wf(),
        final(universe).time() == old(universe).time(),
        final(universe).patterns() == old(universe).patterns(),
        forall|t: int, x: int, y: int|
            in_history(t) && in_world(x, y) ==> #[trigger] final(universe).cell(t, x, y) == if t
                == next_time {
                injected_cell(old(universe).cell(t, x, y), plane_view(*entity), x_pos as int, y_pos as int, x, y)
            } else {
                old(universe).cell(t, x, y)
            },
{
    let ghost start = *universe;
    let ghost p = plane_view(*entity);
    let entity_xsize: usize = entity.len();
    let entity_ysize: usize = entity[0].len();
    let x_span: usize = if entity_xsize <= (WORLD_SIZE_X - 2) as usize {
        entity_xsize + 2
    } else {
        WORLD_SIZE_X as usize
    };
    let y_span: usize = if entity_ysize <= (WORLD_SIZE_Y - 2) as usize {
        entity_ysize + 2
    } else {
        WORLD_SIZE_Y as usize
    };
    let mut ky: usize = 0;
    while ky < y_span
        invariant
            start.wf(),
            universe.wf(),
            universe.time() == start.time(),
            universe.patterns() == start.patterns(),
            in_history(next_time as int),
            wf_pattern(p),
            p == plane_view(*entity),
            entity_xsize == p.len(),
            entity_ysize == p[0].len(),
            x_span == span_len(p.len() as int, WORLD_SIZE_X as int),
            y_span == span_len(p[0].len() as int, WORLD_SIZE_Y as int),
            ky <= y_span,
            forall|t: int, x: int, y: int|
                in_history(t) && in_world(x, y) ==> #[trigger] universe.cell(t, x, y) == if t
                    == next_time && span_index(wrap(y - y_pos, WORLD_SIZE_Y as int), WORLD_SIZE_Y as int) < ky {
                    injected_cell(start.cell(t, x, y), p, x_pos as int, y_pos as int, x, y)
                } else {
                    start.cell(t, x, y)
                },
        decreases y_span - ky,
    {
        let j: isize = ky as isize - 1;
        let dy: usize = if ky == 0 {
            (WORLD_SIZE_Y - 1) as usize
        } else {
            ky - 1
        };
        proof {
            lemma_axis_step(0, 0, ky as int, WORLD_SIZE_Y as int);
        }
        let mut kx: usize = 0;
        while kx < x_span
            invariant
                start.wf(),
                universe.wf(),
                universe.time() == start.time(),
                universe.patterns() == start.patterns(),
                in_history(next_time as int),
                wf_pattern(p),
                p == plane_view(*entity),
                entity_xsize == p.len(),
                entity_ysize == p[0].len(),
                x_span == span_len(p.len() as int, WORLD_SIZE_X as int),
                y_span == span_len(p[0].len() as int, WORLD_SIZE_Y as int),
                ky < y_span,
                j == ky - 1,
                dy == wrap(ky - 1, WORLD_SIZE_Y as int),
                kx <= x_span,
                forall|t: int, x: int, y: int|
                    in_history(t) && in_world(x, y) ==> #[trigger] universe.cell(t, x, y) == if t
                        == next_time && (span_index(wrap(y - y_pos, WORLD_SIZE_Y as int), WORLD_SIZE_Y as int) < ky
                        || (span_index(wrap(y - y_pos, WORLD_SIZE_Y as int), WORLD_SIZE_Y as int) == ky
                        && span_index(wrap(x - x_pos, WORLD_SIZE_X as int), WORLD_SIZE_X as int) < kx)) {
                        injected_cell(start.cell(t, x, y), p, x_pos as int, y_pos as int, x, y)
                    } else {
                        start.cell(t, x, y)
                    },
            decreases x_span - kx,
        {
            let i: isize = kx as isize - 1;
            let dx: usize = if kx == 0 {
                (WORLD_SIZE_X - 1) as usize
            } else {
                kx - 1
            };
            proof {
                lemma_axis_step(0, 0, kx as int, WORLD_SIZE_X as int);
            }
            let cell_state: UniverseCell = if dx < entity_xsize && dy < entity_ysize {
                proof {
                    lemma_last_turn(dx as int, entity_xsize as int, WORLD_SIZE_X as int);
                    lemma_last_turn(dy as int, entity_ysize as int, WORLD_SIZE_Y as int);
                }
                let a: usize = dx + (WORLD_SIZE_X as usize) * ((entity_xsize - 1 - dx) / (WORLD_SIZE_X as usize));
                let b: usize = dy + (WORLD_SIZE_Y as usize) * ((entity_ysize - 1 - dy) / (WORLD_SIZE_Y as usize));
                assert(p[a as int] == entity@[a as int]@);
                entity[a][b]
            } else {
                CELL_DEATH
            };
            let ghost before = *universe;
            universe.set_cell(next_time, x_pos, y_pos, i, j, cell_state);
            proof {
                let w = cell_offset(next_time as int, x_pos + i, y_pos + j);
                lemma_offset_bounds(next_time as int, x_pos + i, y_pos + j);
                lemma_wrap_id(next_time as int, HISTORY_SIZE as int);
                assert forall|t: int, x: int, y: int|
                    in_history(t) && in_world(x, y) implies #[trigger] universe.cell(t, x, y) == if t
                        == next_time && (span_index(wrap(y - y_pos, WORLD_SIZE_Y as int), WORLD_SIZE_Y as int) < ky
                        || (span_index(wrap(y - y_pos, WORLD_SIZE_Y as int), WORLD_SIZE_Y as int) == ky
                        && span_index(wrap(x - x_pos, WORLD_SIZE_X as int), WORLD_SIZE_X as int) < kx + 1)) {
                        injected_cell(start.cell(t, x, y), p, x_pos as int, y_pos as int, x, y)
                    } else {
                        start.cell(t, x, y)
                    } by {
                    let o = cell_offset(t, x, y);
                    lemma_offset_bounds(t, x, y);
                    lemma_axis_step(x, x_pos as int, kx as int, WORLD_SIZE_X as int);
                    lemma_axis_step(y, y_pos as int, ky as int, WORLD_SIZE_Y as int);
                    let (wx, wy) = (wrap(x_pos + i, WORLD_SIZE_X as int), wrap(y_pos + j, WORLD_SIZE_Y as int));
                    lemma_offset_bounds(next_time as int, wx, wy);
                    lemma_wrap_id(wx, WORLD_SIZE_X as int);
                    lemma_wrap_id(wy, WORLD_SIZE_Y as int);
                    crate::game_universe::lemma_offset_unique(next_time as int, x_pos + i, y_pos + j, next_time as int, wx, wy);
                    lemma_offset_in_range(t, x, y, next_time as int, wx, wy);
                    if o != w {
                        assert(universe.cells()[o] == before.cells()[o]);
                        assert(universe.cell(t, x, y) == before.cell(t, x, y));
                    } else {
                        assert(t == next_time && x == wx && y == wy);
                        assert(span_index(wrap(x - x_pos, WORLD_SIZE_X as int), WORLD_SIZE_X as int) == kx);
                        assert(span_index(wrap(y - y_pos, WORLD_SIZE_Y as int), WORLD_SIZE_Y as int) == ky);
                        lemma_offset_bounds(0, x - x_pos, y - y_pos);
                        lemma_span_index_inverse(wrap(x - x_pos, WORLD_SIZE_X as int), WORLD_SIZE_X as int);
                        lemma_span_index_inverse(wrap(y - y_pos, WORLD_SIZE_Y as int), WORLD_SIZE_Y as int);
                        assert(wrap(x - x_pos, WORLD_SIZE_X as int) == dx);
                        assert(wrap(y - y_pos, WORLD_SIZE_Y as int) == dy);
                    }
                }
            }
            kx = kx + 1;
        }
        proof {
            assert forall|t: int, x: int, y: int|
                in_history(t) && in_world(x, y) implies #[trigger] universe.cell(t, x, y) == if t
                    == next_time && span_index(wrap(y - y_pos, WORLD_SIZE_Y as int), WORLD_SIZE_Y as int) < ky + 1 {
                    injected_cell(start.cell(t, x, y), p, x_pos as int, y_pos as int, x, y)
                } else {
                    start.cell(t, x, y)
                } by {
                lemma_offset_bounds(t, x, y);
                lemma_axis_step(x, x_pos as int, 0, WORLD_SIZE_X as int);
                lemma_axis_step(0, 0, x_span as int - 1, WORLD_SIZE_X as int);
                let sx = span_index(wrap(x - x_pos, WORLD_SIZE_X as int), WORLD_SIZE_X as int);
                lemma_offset_bounds(0, sx, 0);
                if span_index(wrap(y - y_pos, WORLD_SIZE_Y as int), WORLD_SIZE_Y as int) == ky && t == next_time && sx >= x_span {
                    assert(injected_cell(start.cell(t, x, y), p, x_pos as int, y_pos as int, x, y) == start.cell(t, x, y));
                }
            }
        }
        ky = ky + 1;
    }
    proof {
        assert forall|t: int, x: int, y: int|
            in_history(t) && in_world(x, y) implies #[trigger] universe.cell(t, x, y) == if t
                == next_time {
                injected_cell(start.cell(t, x, y), p, x_pos as int, y_pos as int, x, y)
            } else {
                start.cell(t, x, y)
            } by {
            let sy = span_index(wrap(y - y_pos, WORLD_SIZE_Y as int), WORLD_SIZE_Y as int);
            lemma_offset_bounds(0, 0, sy);
            lemma_offset_bounds(0, 0, y - y_pos);
            lemma_offset_bounds(0, 0, wrap(y - y_pos, WORLD_SIZE_Y as int) + 1);
        }
    }
}

/// Places `entity` at a corner drawn at random in the world, and returns that corner.
fn inject_entropy(universe: &mut Universe, next_time: isize, entity: &UniversePlane) -> (r: (
    isize,
    isize,
))
    requires
        old(universe).wf(),
        in_history(next_time as int),
        wf_pattern(plane_view(*entity)),
    ensures
        in_world(r.0 as int, r.1 as int),
        final(universe).wf(),
        final(universe).time() == old(universe).time(),
        final(universe).patterns() == old(universe).patterns(),
        forall|t: int, x: int, y: int|
            in_history(t) && in_world(x, y) ==> #[trigger] final(universe).cell(t, x, y) == if t
                == next_time {
                injected_cell(old(universe).cell(t, x, y), plane_view(*entity), r.0 as int, r.1 as int, x, y)
            } else {
                old(universe).cell(t, x, y)
            },
{
    let x_pos: isize = MIN_X + random_below(WORLD_SIZE_X as usize) as isize;
    let y_pos: isize = MIN_Y + random_below(WORLD_SIZE_Y as usize) as isize;
    inject_entropy_at(universe, next_time, entity, x_pos, y_pos);
    (x_pos, y_pos)
}

/// One tick: fills the next slot with the generation that follows the current one, places
/// `entity` there at a random corner if one is given, and only then makes that slot current.
/// Returns the corner used.
pub fn generate_next_time(universe: &mut Universe, entity: Option<UniversePlane>) -> (r: Option<
    (isize, isize),
>)
    requires
        old(universe).wf(),
        entity matches Some(e) ==> wf_pattern(plane_view(e)),
    ensures
        final(universe).wf(),
        final(universe).patterns() == old(universe).patterns(),
        final(universe).time() == wrap(old(universe).time() + 1, HISTORY_SIZE as int),
        r is Some <==> entity is Some,
        r matches Some(o) ==> in_world(o.0 as int, o.1 as int),
        forall|t: int, x: int, y: int|
            in_history(t) && in_world(x, y) && t != final(universe).time()
                ==> #[trigger] final(universe).cell(t, x, y) == old(universe).cell(t, x, y),
        forall|x: int, y: int|
            in_world(x, y) ==> #[trigger] final(universe).current_cell(x, y) == match (entity, r) {
                (Some(e), Some(o)) => injected_cell(
                    next_cell(*old(universe), x, y),
                    plane_view(e),
                    o.0 as int,
                    o.1 as int,
                    x,
                    y,
                ),
                _ => next_cell(*old(universe), x, y),
            },
{
    let ghost start = *universe;
    let next_time: isize = (universe.get_current_time() + 1) % HISTORY_SIZE;
    write_next_generation(universe, next_time);
    let ghost evolved = *universe;
    let placed = match entity {
        None => None,
        Some(e) => Some(inject_entropy(universe, next_time, &e)),
    };
    let ghost injected = *universe;
    universe.set_current_time(next_time);
    proof {
        lemma_wrap_id(next_time as int, HISTORY_SIZE as int);
        assert forall|x: int, y: int| in_world(x, y) implies #[trigger] universe.current_cell(x, y)
            == match (entity, placed) {
            (Some(e), Some(o)) => injected_cell(
                next_cell(start, x, y),
                plane_view(e),
                o.0 as int,
                o.1 as int,
                x,
                y,
            ),
            _ => next_cell(start, x, y),
        } by {
            assert(universe.current_cell(x, y) == injected.cell(next_time as int, x, y));
            assert(evolved.cell(next_time as int, x, y) == next_cell(start, x, y));
        }
        assert forall|t: int, x: int, y: int|
            in_history(t) && in_world(x, y) && t != universe.time() implies #[trigger] universe.cell(
            t,
            x,
            y,
        ) == start.cell(t, x, y) by {
            assert(universe.cell(t, x, y) == injected.cell(t, x, y));
            assert(injected.cell(t, x, y) == evolved.cell(t, x, y));
        }
    }
    placed
}

/// Walk position of a wrapped offset, for a pattern with room for its border: the border
/// before it is at 0, offset `d < n - 1` at `d + 1`.
proof fn lemma_span_fits(d: int, len: int, n: int)
    requires
        0 <= d < n,
        0 < len,
        len + 2 <= n,
    ensures
        span_index(d, n) < span_len(len, n) <==> (d <= len || d == n - 1),
        d < len ==> last_turn(d, len, n) == d,
{
    if d + 1 < n {
        lemma_wrap_id(d + 1, n);
    } else {
        vstd::arithmetic::div_mod::lemma_fundamental_div_mod_converse(d + 1, n, 1, 0);
    }
    if d < len {
        vstd::arithmetic::div_mod::lemma_fundamental_div_mod_converse(len - 1 - d, n, 0, len - 1 - d);
    }
}

/// Placing a pattern that leaves room for its border in the world: the cells of its bounding
/// box take the pattern's cells, the one-cell ring around the box is dead, and every other
/// cell is unchanged.
pub proof fn lemma_injected_cell_fits(base: u8, p: Seq<Seq<u8>>, ox: int, oy: int, x: int, y: int)
    requires
        wf_pattern(p),
        p.len() + 2 <= WORLD_SIZE_X,
        p[0].len() + 2 <= WORLD_SIZE_Y,
    ensures
        ({
            let dx = wrap(x - ox, WORLD_SIZE_X as int);
            let dy = wrap(y - oy, WORLD_SIZE_Y as int);
            let in_box = dx < p.len() && dy < p[0].len();
            let in_ring = !in_box && (dx <= p.len() || dx == WORLD_SIZE_X - 1) && (dy
                <= p[0].len() || dy == WORLD_SIZE_Y - 1);
            &&& in_box ==> injected_cell(base, p, ox, oy, x, y) == p[dx][dy]
            &&& in_ring ==> injected_cell(base, p, ox, oy, x, y) == CELL_DEATH
            &&& !in_box && !in_ring ==> injected_cell(base, p, ox, oy, x, y) == base
        }),
{
    let dx = wrap(x - ox, WORLD_SIZE_X as int);
    let dy = wrap(y - oy, WORLD_SIZE_Y as int);
    lemma_offset_bounds(0, x - ox, y - oy);
    lemma_span_fits(dx, p.len() as int, WORLD_SIZE_X as int);
    lemma_span_fits(dy, p[0].len() as int, WORLD_SIZE_Y as int);
}

} // verus!
