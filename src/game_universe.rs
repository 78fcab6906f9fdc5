use vstd::prelude::*;

use crate::game_constants::{
    is_cell, UniverseCell, UniversePlane, UniversePlaneSet, CELL_DEATH, HISTORY_SIZE, MAX_X,
    MAX_Y, MIN_X, MIN_Y, PLANE_SIZE, SPACE_TIME_SIZE, WORLD_SIZE_X, WORLD_SIZE_Y,
};

verus! {

/// `v` brought into `[0, n)` by adding or subtracting `n` as often as needed.
pub open spec fn wrap(v: int, n: int) -> int {
    v % n
}

/// Position in the flat buffer of the cell at generation `t`, column `x`, row `y`,
/// every axis taken modulo its size.
pub open spec fn cell_offset(t: int, x: int, y: int) -> int {
    wrap(t, HISTORY_SIZE as int) * PLANE_SIZE + wrap(y, WORLD_SIZE_Y as int) * WORLD_SIZE_X
        + wrap(x, WORLD_SIZE_X as int)
}

/// Brings `v` into `[0, n)`.
pub fn wrap_coord(v: isize, n: isize) -> (r: isize)
    requires
        n > 0,
    ensures
        r == wrap(v as int, n as int),
{
    if v >= 0 {
        v % n
    } else {
        let u = -(v + 1);
        let m = u % n;
        proof {
            let q = u as int / n as int;
            assert(u as int == q * n + m) by (nonlinear_arith)
                requires
                    q == u as int / n as int,
                    m == u as int % n as int,
                    n > 0,
            ;
            assert(v as int == (-(q + 1)) * n + (n - 1 - m)) by (nonlinear_arith)
                requires
                    u as int == q * n + m,
                    u == -(v + 1),
            ;
            vstd::arithmetic::div_mod::lemma_fundamental_div_mod_converse(
                v as int,
                n as int,
                -(q + 1),
                n - 1 - m,
            );
        }
        n - 1 - m
    }
}

} // verus!

verus! {

/// Whether `(x, y)` lies inside the world without wrapping.
pub open spec fn in_world(x: int, y: int) -> bool {
    0 <= x < WORLD_SIZE_X && 0 <= y < WORLD_SIZE_Y
}

/// Whether `t` names a slot of the history ring without wrapping.
pub open spec fn in_history(t: int) -> bool {
    0 <= t < HISTORY_SIZE
}

/// The cells of a plane, column by column.
pub open spec fn plane_view(p: UniversePlane) -> Seq<Seq<u8>> {
    p@.map_values(|c: Vec<UniverseCell>| c@)
}

/// Whether `p` is a rectangle of cells with at least one column and one row.
pub open spec fn wf_pattern(p: Seq<Seq<u8>>) -> bool {
    &&& p.len() > 0
    &&& p[0].len() > 0
    &&& forall|i: int| 0 <= i < p.len() ==> #[trigger] p[i].len() == p[0].len()
    &&& forall|i: int, j: int|
        0 <= i < p.len() && 0 <= j < p[i].len() ==> is_cell(#[trigger] p[i][j])
}

/// Every offset lies inside the buffer, and every wrapped coordinate inside its axis.
pub proof fn lemma_offset_bounds(t: int, x: int, y: int)
    ensures
        0 <= cell_offset(t, x, y) < SPACE_TIME_SIZE,
        0 <= wrap(t, HISTORY_SIZE as int) < HISTORY_SIZE,
        0 <= wrap(x, WORLD_SIZE_X as int) < WORLD_SIZE_X,
        0 <= wrap(y, WORLD_SIZE_Y as int) < WORLD_SIZE_Y,
{
    vstd::arithmetic::div_mod::lemma_mod_bound(t, HISTORY_SIZE as int);
    vstd::arithmetic::div_mod::lemma_mod_bound(x, WORLD_SIZE_X as int);
    vstd::arithmetic::div_mod::lemma_mod_bound(y, WORLD_SIZE_Y as int);
    let a = wrap(t, HISTORY_SIZE as int);
    assert(0 <= a * PLANE_SIZE <= 99 * PLANE_SIZE) by (nonlinear_arith)
        requires
            0 <= a < 100,
            PLANE_SIZE == 1048576,
    ;
    let b = wrap(y, WORLD_SIZE_Y as int);
    assert(0 <= b * WORLD_SIZE_X <= 1023 * WORLD_SIZE_X) by (nonlinear_arith)
        requires
            0 <= b < 1024,
            WORLD_SIZE_X == 1024,
    ;
}

/// A coordinate already inside `[0, n)` is its own wrap.
pub proof fn lemma_wrap_id(v: int, n: int)
    requires
        0 <= v < n,
    ensures
        wrap(v, n) == v,
{
    vstd::arithmetic::div_mod::lemma_small_mod(v as nat, n as nat);
}

/// Offsets of in-range coordinates are distinct.
pub proof fn lemma_offset_in_range(t1: int, x1: int, y1: int, t2: int, x2: int, y2: int)
    requires
        in_history(t1) && in_world(x1, y1),
        in_history(t2) && in_world(x2, y2),
    ensures
        cell_offset(t1, x1, y1) == cell_offset(t2, x2, y2) <==> (t1 == t2 && x1 == x2 && y1 == y2),
        0 <= cell_offset(t1, x1, y1) < SPACE_TIME_SIZE,
{
    lemma_wrap_id(t1, HISTORY_SIZE as int);
    lemma_wrap_id(t2, HISTORY_SIZE as int);
    lemma_wrap_id(x1, WORLD_SIZE_X as int);
    lemma_wrap_id(x2, WORLD_SIZE_X as int);
    lemma_wrap_id(y1, WORLD_SIZE_Y as int);
    lemma_wrap_id(y2, WORLD_SIZE_Y as int);
    lemma_offset_unique(t1, x1, y1, t2, x2, y2);
    lemma_offset_bounds(t1, x1, y1);
}

/// Two coordinates share a buffer offset exactly when they agree on every axis once wrapped.
pub proof fn lemma_offset_unique(t1: int, x1: int, y1: int, t2: int, x2: int, y2: int)
    ensures
        cell_offset(t1, x1, y1) == cell_offset(t2, x2, y2) <==> (wrap(t1, HISTORY_SIZE as int)
            == wrap(t2, HISTORY_SIZE as int) && wrap(x1, WORLD_SIZE_X as int) == wrap(
            x2,
            WORLD_SIZE_X as int,
        ) && wrap(y1, WORLD_SIZE_Y as int) == wrap(y2, WORLD_SIZE_Y as int)),
{
    lemma_offset_bounds(t1, x1, y1);
    lemma_offset_bounds(t2, x2, y2);
    let a1 = wrap(t1, HISTORY_SIZE as int);
    let b1 = wrap(y1, WORLD_SIZE_Y as int);
    let c1 = wrap(x1, WORLD_SIZE_X as int);
    let a2 = wrap(t2, HISTORY_SIZE as int);
    let b2 = wrap(y2, WORLD_SIZE_Y as int);
    let c2 = wrap(x2, WORLD_SIZE_X as int);
    if cell_offset(t1, x1, y1) == cell_offset(t2, x2, y2) {
        let o = cell_offset(t1, x1, y1);
        assert(o == (a1 * 1024 + b1) * 1024 + c1 && o == (a2 * 1024 + b2) * 1024 + c2)
            by (nonlinear_arith)
            requires
                PLANE_SIZE == 1048576,
                WORLD_SIZE_X == 1024,
                o == a1 * PLANE_SIZE + b1 * WORLD_SIZE_X + c1,
                o == a2 * PLANE_SIZE + b2 * WORLD_SIZE_X + c2,
        ;
        vstd::arithmetic::div_mod::lemma_fundamental_div_mod_converse(o, 1024, a1 * 1024 + b1, c1);
        vstd::arithmetic::div_mod::lemma_fundamental_div_mod_converse(o, 1024, a2 * 1024 + b2, c2);
        let r = a1 * 1024 + b1;
        vstd::arithmetic::div_mod::lemma_fundamental_div_mod_converse(r, 1024, a1, b1);
        vstd::arithmetic::div_mod::lemma_fundamental_div_mod_converse(r, 1024, a2, b2);
    }
}

/// Wrapping ignores whole turns around an axis: shifting a coordinate by any multiple of
/// its axis size, on any axis, reaches the same cell and the same buffer offset.
pub proof fn lemma_wrap_periodic(t: int, x: int, y: int, kt: int, kx: int, ky: int)
    ensures
        wrap(t + kt * HISTORY_SIZE, HISTORY_SIZE as int) == wrap(t, HISTORY_SIZE as int),
        wrap(x + kx * WORLD_SIZE_X, WORLD_SIZE_X as int) == wrap(x, WORLD_SIZE_X as int),
        wrap(y + ky * WORLD_SIZE_Y, WORLD_SIZE_Y as int) == wrap(y, WORLD_SIZE_Y as int),
        cell_offset(t + kt * HISTORY_SIZE, x + kx * WORLD_SIZE_X, y + ky * WORLD_SIZE_Y)
            == cell_offset(t, x, y),
{
    vstd::arithmetic::div_mod::lemma_mod_multiples_vanish(kt, t, HISTORY_SIZE as int);
    vstd::arithmetic::div_mod::lemma_mod_multiples_vanish(kx, x, WORLD_SIZE_X as int);
    vstd::arithmetic::div_mod::lemma_mod_multiples_vanish(ky, y, WORLD_SIZE_Y as int);
    assert(kt * HISTORY_SIZE == HISTORY_SIZE * kt);
    assert(kx * WORLD_SIZE_X == WORLD_SIZE_X * kx);
    assert(ky * WORLD_SIZE_Y == WORLD_SIZE_Y * ky);
}

/// `base + off` brought into `[0, n)`, computed without overflow.
pub fn wrap_sum(base: isize, off: isize, n: isize) -> (r: isize)
    requires
        0 < n <= 0x10000,
    ensures
        r == wrap(base + off, n as int),
{
    let b = wrap_coord(base, n);
    let o = wrap_coord(off, n);
    proof {
        vstd::arithmetic::div_mod::lemma_mod_bound(base as int, n as int);
        vstd::arithmetic::div_mod::lemma_mod_bound(off as int, n as int);
        vstd::arithmetic::div_mod::lemma_add_mod_noop(base as int, off as int, n as int);
    }
    wrap_coord(b + o, n)
}

} // verus!

verus! {

/// A rectangle of the world asked for by a snapshot; it may reach past the world's edges,
/// which wrap.
pub struct WorldBounds {
    pub x: isize,
    pub y: isize,
    pub w: isize,
    pub h: isize,
}

/// The spacetime ring of generations, the pointer to the current one, and the loaded
/// species patterns.
pub struct Universe {
    current_time: isize,
    space_time: Vec<UniverseCell>,
    species: UniversePlaneSet,
}

impl Universe {
    /// Slot of the current generation.
    pub closed spec fn time(self) -> int {
        self.current_time as int
    }

    /// The flat buffer: slot after slot, each slot row after row.
    pub closed spec fn cells(self) -> Seq<u8> {
        self.space_time@
    }

    /// The loaded patterns, in order of loading.
    pub closed spec fn patterns(self) -> Seq<Seq<Seq<u8>>> {
        self.species@.map_values(|p: UniversePlane| plane_view(p))
    }

    /// The cell at generation slot `t`, column `x`, row `y`, every axis wrapped.
    pub open spec fn cell(self, t: int, x: int, y: int) -> u8 {
        self.cells()[cell_offset(t, x, y)]
    }

    /// The cell at `(x, y)` of the current generation, both axes wrapped.
    pub open spec fn current_cell(self, x: int, y: int) -> u8 {
        self.cell(self.time(), x, y)
    }

    pub open spec fn wf(self) -> bool {
        &&& self.cells().len() == SPACE_TIME_SIZE
        &&& in_history(self.time())
        &&& forall|k: int| 0 <= k < self.cells().len() ==> is_cell(#[trigger] self.cells()[k])
        &&& forall|i: int|
            0 <= i < self.patterns().len() ==> wf_pattern(#[trigger] self.patterns()[i])
    }

    /// Whether `self` differs from `old` at most in the one cell at buffer offset `k`,
    /// which now holds `c`.
    pub open spec fn written_from(self, old: Universe, k: int, c: u8) -> bool {
        &&& self.cells() == old.cells().update(k, c)
        &&& self.time() == old.time()
        &&& self.patterns() == old.patterns()
    }

    /// A world with every cell dead in every slot, slot 0 current, and no patterns.
    pub fn new() -> (r: Universe)
        ensures
            r.wf(),
            r.time() == 0,
            r.patterns().len() == 0,
            forall|t: int, x: int, y: int| #[trigger] r.cell(t, x, y) == CELL_DEATH,
    {
        let mut universe = Universe {
            current_time: 0,
            space_time: vec![CELL_DEATH; SPACE_TIME_SIZE as usize],
            species: Vec::new(),
        };
        assert(universe.patterns() =~= Seq::<Seq<Seq<u8>>>::empty());
        assert forall|k: int| 0 <= k < universe.cells().len() implies #[trigger] universe.cells()[k]
            == CELL_DEATH by {
            assert(vstd::pervasive::cloned(CELL_DEATH, universe.space_time@[k]));
        }
        universe.init_time();
        assert forall|t: int, x: int, y: int| #[trigger] universe.cell(t, x, y) == CELL_DEATH by {
            lemma_offset_bounds(t, x, y);
        }
        universe
    }

    /// History depth, world width and world height.
    pub fn get_dimensions() -> (r: (isize, isize, isize))
        ensures
            r == (HISTORY_SIZE, WORLD_SIZE_X, WORLD_SIZE_Y),
    {
        (HISTORY_SIZE, WORLD_SIZE_X, WORLD_SIZE_Y)
    }

    /// Clears the current generation.
    fn init_time(&mut self)
        requires
            old(self).wf(),
        ensures
            final(self).wf(),
            final(self).time() == old(self).time(),
            final(self).patterns() == old(self).patterns(),
            forall|t: int, x: int, y: int| #[trigger]
                final(self).cell(t, x, y) == if wrap(t, HISTORY_SIZE as int) == old(self).time() {
                    CELL_DEATH
                } else {
                    old(self).cell(t, x, y)
                },
    {
        let ghost start = *self;
        let mut x_pos: isize = MIN_X;
        while x_pos <= MAX_X
            invariant
                MIN_X <= x_pos <= MAX_X + 1,
                self.wf(),
                self.time() == start.time(),
                self.patterns() == start.patterns(),
                forall|t: int, x: int, y: int|
                    in_history(t) && in_world(x, y) ==> #[trigger] self.cell(t, x, y) == if t
                        == start.time() && x < x_pos {
                        CELL_DEATH
                    } else {
                        start.cell(t, x, y)
                    },
            decreases MAX_X + 1 - x_pos,
        {
            let mut y_pos: isize = MIN_Y;
            while y_pos <= MAX_Y
                invariant
                    MIN_X <= x_pos <= MAX_X,
                    MIN_Y <= y_pos <= MAX_Y + 1,
                    self.wf(),
                    self.time() == start.time(),
                    self.patterns() == start.patterns(),
                    forall|t: int, x: int, y: int|
                        in_history(t) && in_world(x, y) ==> #[trigger] self.cell(t, x, y) == if t
                            == start.time() && (x < x_pos || (x == x_pos && y < y_pos)) {
                            CELL_DEATH
                        } else {
                            start.cell(t, x, y)
                        },
                decreases MAX_Y + 1 - y_pos,
            {
                let (x_index, y_index) = self.position_to_index(x_pos, y_pos);
                let ghost before = *self;
                let k = Universe::map_3d_to_1d_index(self.current_time, x_index, y_index);
                proof {
                    lemma_offset_bounds(self.time(), x_index as int, y_index as int);
                }
                self.space_time.set(k, CELL_DEATH);
                assert forall|t: int, x: int, y: int|
                    in_history(t) && in_world(x, y) implies #[trigger] self.cell(t, x, y) == if t
                        == start.time() && (x < x_pos || (x == x_pos && y < y_pos + 1)) {
                        CELL_DEATH
                    } else {
                        start.cell(t, x, y)
                    } by {
                    lemma_offset_in_range(t, x, y, before.time(), x_pos as int, y_pos as int);
                    assert(before.cell(t, x, y) == self.cell(t, x, y) || (t == before.time()
                        && x == x_pos && y == y_pos));
                }
                y_pos = y_pos + 1;
            }
            x_pos = x_pos + 1;
        }
        assert forall|t: int, x: int, y: int| #[trigger]
            self.cell(t, x, y) == if wrap(t, HISTORY_SIZE as int) == start.time() {
                CELL_DEATH
            } else {
                start.cell(t, x, y)
            } by {
            lemma_offset_bounds(t, x, y);
            let (wt, wx, wy) = (
                wrap(t, HISTORY_SIZE as int),
                wrap(x, WORLD_SIZE_X as int),
                wrap(y, WORLD_SIZE_Y as int),
            );
            lemma_offset_unique(t, x, y, wt, wx, wy);
            lemma_offset_bounds(wt, wx, wy);
            assert(self.cell(wt, wx, wy) == self.cell(t, x, y));
            assert(start.cell(wt, wx, wy) == start.cell(t, x, y));
        }
    }

    /// Offset in the flat buffer of generation `t`, column `x`, row `y`, each axis wrapped.
    pub fn map_3d_to_1d_index(t: isize, x: isize, y: isize) -> (r: usize)
        ensures
            r == cell_offset(t as int, x as int, y as int),
    {
        let t_f = wrap_coord(t, HISTORY_SIZE);
        let x_f = wrap_coord(x, WORLD_SIZE_X);
        let y_f = wrap_coord(y, WORLD_SIZE_Y);
        proof {
            lemma_offset_bounds(t as int, x as int, y as int);
        }
        (t_f * PLANE_SIZE + y_f * WORLD_SIZE_X + x_f) as usize
    }

    /// Writes `cell_state` at generation `next_time`, column `x_pos + x_offset`, row
    /// `y_pos + y_offset`, every axis wrapped.
    pub fn set_cell(
        &mut self,
        next_time: isize,
        x_pos: isize,
        y_pos: isize,
        x_offset: isize,
        y_offset: isize,
        cell_state: UniverseCell,
    )
        requires
            old(self).wf(),
            is_cell(cell_state),
        ensures
            final(self).wf(),
            final(self).written_from(
                *old(self),
                cell_offset(next_time as int, x_pos + x_offset, y_pos + y_offset),
                cell_state,
            ),
    {
        let (x_index, y_index) = self.position_to_index(x_pos, y_pos);
        let x_f = wrap_sum(x_index, x_offset, WORLD_SIZE_X);
        let y_f = wrap_sum(y_index, y_offset, WORLD_SIZE_Y);
        proof {
            lemma_offset_bounds(0, x_pos + x_offset, y_pos + y_offset);
            lemma_wrap_id(x_f as int, WORLD_SIZE_X as int);
            lemma_wrap_id(y_f as int, WORLD_SIZE_Y as int);
        }
        let (x_f, y_f) = self.fix_index(x_f, y_f);
        self.set_cell_low_level(next_time, x_f, y_f, cell_state);
    }

    /// Writes `cell_state` at generation `next_time`, column `x_index`, row `y_index`,
    /// every axis wrapped.
    pub fn set_cell_low_level(
        &mut self,
        next_time: isize,
        x_index: isize,
        y_index: isize,
        cell_state: UniverseCell,
    )
        requires
            old(self).wf(),
            is_cell(cell_state),
        ensures
            final(self).wf(),
            final(self).written_from(
                *old(self),
                cell_offset(next_time as int, x_index as int, y_index as int),
                cell_state,
            ),
    {
        let k = Universe::map_3d_to_1d_index(next_time, x_index, y_index);
        proof {
            lemma_offset_bounds(next_time as int, x_index as int, y_index as int);
        }
        let ghost before = self.cells();
        let ghost start = *self;
        self.space_time.set(k, cell_state);
        assert(self.patterns() == start.patterns());
        assert forall|i: int| 0 <= i < self.cells().len() implies is_cell(
            #[trigger] self.cells()[i],
        ) by {
            assert(i == k || self.cells()[i] == before[i]);
        }
    }

    /// The `bounds.w` by `bounds.h` rectangle of the current generation whose corner is
    /// `(bounds.x, bounds.y)`, indexed `[column][row]`, read through wraparound.
    pub fn get_current_world(&self, bounds: WorldBounds) -> (r: UniversePlane)
        requires
            self.wf(),
            bounds.w > 0,
            bounds.h > 0,
        ensures
            plane_view(r).len() == bounds.w,
            forall|a: int| 0 <= a < bounds.w ==> #[trigger] plane_view(r)[a].len() == bounds.h,
            forall|a: int, b: int|
                0 <= a < bounds.w && 0 <= b < bounds.h ==> #[trigger] plane_view(r)[a][b]
                    == self.current_cell(bounds.x + a, bounds.y + b),
    {
        let mut world_surface: UniversePlane = Vec::new();
        let mut a: isize = 0;
        while a < bounds.w
            invariant
                self.wf(),
                bounds.w > 0,
                bounds.h > 0,
                0 <= a <= bounds.w,
                plane_view(world_surface).len() == a,
                forall|i: int| 0 <= i < a ==> #[trigger] plane_view(world_surface)[i].len() == bounds.h,
                forall|i: int, j: int|
                    0 <= i < a && 0 <= j < bounds.h ==> #[trigger] plane_view(world_surface)[i][j]
                        == self.current_cell(bounds.x + i, bounds.y + j),
            decreases bounds.w - a,
        {
            let x_f = wrap_sum(bounds.x, a, WORLD_SIZE_X);
            let mut column: Vec<UniverseCell> = Vec::new();
            let mut b: isize = 0;
            while b < bounds.h
                invariant
                    self.wf(),
                    bounds.h > 0,
                    0 <= b <= bounds.h,
                    x_f == wrap(bounds.x + a, WORLD_SIZE_X as int),
                    column@.len() == b,
                    forall|j: int|
                        0 <= j < b ==> #[trigger] column@[j] == self.current_cell(
                            bounds.x + a,
                            bounds.y + j,
                        ),
                decreases bounds.h - b,
            {
                let y_f = wrap_sum(bounds.y, b, WORLD_SIZE_Y);
                let c = self.get_current_time_cell(x_f, y_f);
                proof {
                    lemma_offset_bounds(0, bounds.x + a, bounds.y + b);
                    lemma_wrap_id(x_f as int, WORLD_SIZE_X as int);
                    lemma_wrap_id(y_f as int, WORLD_SIZE_Y as int);
                }
                column.push(c);
                b = b + 1;
            }
            let ghost before = plane_view(world_surface);
            world_surface.push(column);
            assert(plane_view(world_surface) =~= before.push(column@));
            a = a + 1;
        }
        world_surface
    }

    /// The cell at `(x_index, y_index)` of the current generation, both axes wrapped.
    pub fn get_current_time_cell(&self, x_index: isize, y_index: isize) -> (r: UniverseCell)
        requires
            self.wf(),
        ensures
            r == self.current_cell(x_index as int, y_index as int),
            is_cell(r),
    {
        let (x_f, y_f) = self.fix_index(x_index, y_index);
        let k = Universe::map_3d_to_1d_index(self.current_time, x_f, y_f);
        proof {
            lemma_offset_bounds(self.time(), x_index as int, y_index as int);
            lemma_wrap_id(x_f as int, WORLD_SIZE_X as int);
            lemma_wrap_id(y_f as int, WORLD_SIZE_Y as int);
        }
        self.space_time[k]
    }

    /// Both coordinates brought into the world.
    pub fn fix_index(&self, x_index: isize, y_index: isize) -> (r: (isize, isize))
        ensures
            r.0 == wrap(x_index as int, WORLD_SIZE_X as int),
            r.1 == wrap(y_index as int, WORLD_SIZE_Y as int),
    {
        (wrap_coord(x_index, WORLD_SIZE_X), wrap_coord(y_index, WORLD_SIZE_Y))
    }

    /// Slot of the current generation.
    pub fn get_current_time(&self) -> (r: isize)
        ensures
            r == self.time(),
    {
        self.current_time
    }

    /// Makes slot `time`, wrapped, the current generation.
    pub fn set_current_time(&mut self, time: isize)
        requires
            old(self).wf(),
        ensures
            final(self).wf(),
            final(self).time() == wrap(time as int, HISTORY_SIZE as int),
            final(self).cells() == old(self).cells(),
            final(self).patterns() == old(self).patterns(),
    {
        proof {
            lemma_offset_bounds(time as int, 0, 0);
        }
        let ghost start = *self;
        self.current_time = wrap_coord(time, HISTORY_SIZE);
        assert(self.patterns() == start.patterns());
    }

    /// Appends a pattern to the collection.
    pub fn push_entity(&mut self, entity: UniversePlane)
        requires
            old(self).wf(),
            wf_pattern(plane_view(entity)),
        ensures
            final(self).wf(),
            final(self).patterns() == old(self).patterns().push(plane_view(entity)),
            final(self).cells() == old(self).cells(),
            final(self).time() == old(self).time(),
    {
        let ghost before = self.patterns();
        let ghost start = *self;
        self.species.push(entity);
        assert(self.patterns() =~= before.push(plane_view(entity)));
        assert forall|i: int| 0 <= i < self.patterns().len() implies wf_pattern(
            #[trigger] self.patterns()[i],
        ) by {
            if i < before.len() {
                assert(self.patterns()[i] == start.patterns()[i]);
            }
        }
    }

    /// The loaded patterns.
    pub fn get_entities(&self) -> (r: &UniversePlaneSet)
        ensures
            r@.map_values(|p: UniversePlane| plane_view(p)) == self.patterns(),
    {
        &self.species
    }

    /// World coordinates to grid indices.
    pub fn position_to_index(&self, x_pos: isize, y_pos: isize) -> (r: (isize, isize))
        ensures
            r.0 == x_pos - MIN_X,
            r.1 == y_pos - MIN_Y,
    {
        (x_pos - MIN_X, y_pos - MIN_Y)
    }
}

} // verus!
