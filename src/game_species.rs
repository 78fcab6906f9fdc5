use vstd::prelude::*;

use crate::game_constants::{is_cell, UniverseCell, UniversePlane, UniversePlaneSet, CELL_DEATH, CELL_LIVE};
use crate::game_text::{chars_of, lines_of, lines_view, split_lines, trim, trimmed};
use crate::game_universe::{plane_view, wf_pattern, Universe};

verus! {

/// Width of a pattern: its number of columns.
pub open spec fn width(p: Seq<Seq<u8>>) -> int {
    p.len() as int
}

/// Height of a pattern: the length of its first column.
pub open spec fn height(p: Seq<Seq<u8>>) -> int {
    p[0].len() as int
}

/// A copy of column `col` of `source`, bottom to top where `reversed`.
fn copy_column(source: &UniversePlane, col: usize, reversed: bool) -> (r: Vec<UniverseCell>)
    requires
        wf_pattern(plane_view(*source)),
        col < source@.len(),
    ensures
        r@ == if reversed {
            plane_view(*source)[col as int].reverse()
        } else {
            plane_view(*source)[col as int]
        },
{
    let ghost p = plane_view(*source);
    let h: usize = source[col].len();
    let mut column: Vec<UniverseCell> = Vec::new();
    let mut b: usize = 0;
    while b < h
        invariant
            p == plane_view(*source),
            col < p.len(),
            h == p[col as int].len(),
            b <= h,
            column@.len() == b,
            forall|j: int|
                0 <= j < b ==> #[trigger] column@[j] == if reversed {
                    p[col as int][h - 1 - j]
                } else {
                    p[col as int][j]
                },
        decreases h - b,
    {
        let v = if reversed {
            source[col][h - 1 - b]
        } else {
            source[col][b]
        };
        column.push(v);
        b = b + 1;
    }
    if reversed {
        assert(column@ =~= p[col as int].reverse());
    } else {
        assert(column@ =~= p[col as int]);
    }
    column
}

/// The identity variant: a copy of the pattern.
pub open spec fn nop_spec(p: Seq<Seq<u8>>) -> Seq<Seq<u8>> {
    p
}

/// A copy of `entity_source`.
pub fn species_nop(entity_source: &UniversePlane) -> (r: UniversePlane)
    requires
        wf_pattern(plane_view(*entity_source)),
    ensures
        plane_view(r) == nop_spec(plane_view(*entity_source)),
{
    let ghost p = plane_view(*entity_source);
    let source_max_x: usize = entity_source.len();
    let mut entity: UniversePlane = Vec::new();
    let mut a: usize = 0;
    while a < source_max_x
        invariant
            p == plane_view(*entity_source),
            wf_pattern(p),
            source_max_x == p.len(),
            a <= source_max_x,
            plane_view(entity) == p.subrange(0, a as int),
        decreases source_max_x - a,
    {
        let column = copy_column(entity_source, a, false);
        let ghost before = plane_view(entity);
        entity.push(column);
        assert(plane_view(entity) =~= before.push(column@));
        assert(plane_view(entity) =~= p.subrange(0, a + 1));
        a = a + 1;
    }
    assert(p.subrange(0, source_max_x as int) =~= p);
    entity
}

/// The pattern turned by 90°: column `i` of the result is row `i` of `p`, read from the last
/// column of `p` to the first.
pub open spec fn rotate_90_spec(p: Seq<Seq<u8>>) -> Seq<Seq<u8>> {
    Seq::new(
        height(p) as nat,
        |i: int| Seq::new(width(p) as nat, |j: int| p[width(p) - 1 - j][i]),
    )
}

/// The pattern mirrored left to right.
pub open spec fn flip_h_spec(p: Seq<Seq<u8>>) -> Seq<Seq<u8>> {
    p.reverse()
}

/// The pattern mirrored top to bottom.
pub open spec fn flip_v_spec(p: Seq<Seq<u8>>) -> Seq<Seq<u8>> {
    p.map_values(|c: Seq<u8>| c.reverse())
}

/// The six variants of a base pattern, in the order they are stored: identity, the three
/// rotations, the left-right mirror and the top-bottom mirror.
pub open spec fn variants_spec(p: Seq<Seq<u8>>) -> Seq<Seq<Seq<u8>>> {
    seq![
        nop_spec(p),
        rotate_90_spec(p),
        rotate_90_spec(rotate_90_spec(p)),
        rotate_90_spec(rotate_90_spec(rotate_90_spec(p))),
        flip_h_spec(p),
        flip_v_spec(p),
    ]
}

/// Turning keeps a pattern well formed and swaps its sides.
pub proof fn lemma_rotate_wf(p: Seq<Seq<u8>>)
    requires
        wf_pattern(p),
    ensures
        wf_pattern(rotate_90_spec(p)),
        width(rotate_90_spec(p)) == height(p),
        height(rotate_90_spec(p)) == width(p),
{
    let r = rotate_90_spec(p);
    assert forall|i: int, j: int| 0 <= i < r.len() && 0 <= j < r[i].len() implies is_cell(
        #[trigger] r[i][j],
    ) by {
        assert(p[width(p) - 1 - j].len() == p[0].len());
    }
}

/// Mirroring keeps a pattern well formed, with the same sides.
pub proof fn lemma_flip_wf(p: Seq<Seq<u8>>)
    requires
        wf_pattern(p),
    ensures
        wf_pattern(flip_h_spec(p)),
        wf_pattern(flip_v_spec(p)),
        width(flip_h_spec(p)) == width(p) && height(flip_h_spec(p)) == height(p),
        width(flip_v_spec(p)) == width(p) && height(flip_v_spec(p)) == height(p),
{
    let h = flip_h_spec(p);
    let v = flip_v_spec(p);
    assert forall|i: int| 0 <= i < h.len() implies #[trigger] h[i].len() == h[0].len() by {
        assert(h[i] == p[p.len() - 1 - i]);
        assert(p[p.len() - 1 - i].len() == p[0].len());
        assert(p[p.len() - 1].len() == p[0].len());
    }
    assert forall|i: int, j: int| 0 <= i < h.len() && 0 <= j < h[i].len() implies is_cell(
        #[trigger] h[i][j],
    ) by {
        assert(h[i] == p[p.len() - 1 - i]);
    }
    assert forall|i: int| 0 <= i < v.len() implies #[trigger] v[i].len() == v[0].len() by {
        assert(p[i].len() == p[0].len());
    }
    assert forall|i: int, j: int| 0 <= i < v.len() && 0 <= j < v[i].len() implies is_cell(
        #[trigger] v[i][j],
    ) by {
        assert(v[i][j] == p[i][p[i].len() - 1 - j]);
    }
}

/// `entity_source` turned by 90°.
pub fn species_rotate_90(entity_source: &UniversePlane) -> (r: UniversePlane)
    requires
        wf_pattern(plane_view(*entity_source)),
    ensures
        plane_view(r) == rotate_90_spec(plane_view(*entity_source)),
{
    let ghost p = plane_view(*entity_source);
    let source_max_x: usize = entity_source.len();
    let source_max_y: usize = entity_source[0].len();
    let mut entity: UniversePlane = Vec::new();
    let mut b: usize = 0;
    while b < source_max_y
        invariant
            p == plane_view(*entity_source),
            wf_pattern(p),
            source_max_x == width(p),
            source_max_y == height(p),
            b <= source_max_y,
            plane_view(entity) == rotate_90_spec(p).subrange(0, b as int),
        decreases source_max_y - b,
    {
        let mut column: Vec<UniverseCell> = Vec::new();
        let mut a: usize = 0;
        while a < source_max_x
            invariant
                p == plane_view(*entity_source),
                wf_pattern(p),
                source_max_x == width(p),
                source_max_y == height(p),
                b < source_max_y,
                a <= source_max_x,
                column@ == rotate_90_spec(p)[b as int].subrange(0, a as int),
            decreases source_max_x - a,
        {
            assert(p[source_max_x - 1 - a].len() == p[0].len());
            column.push(entity_source[source_max_x - 1 - a][b]);
            assert(column@ =~= rotate_90_spec(p)[b as int].subrange(0, a + 1));
            a = a + 1;
        }
        assert(column@ =~= rotate_90_spec(p)[b as int]);
        let ghost before = plane_view(entity);
        entity.push(column);
        assert(plane_view(entity) =~= before.push(column@));
        assert(plane_view(entity) =~= rotate_90_spec(p).subrange(0, b + 1));
        b = b + 1;
    }
    assert(rotate_90_spec(p).subrange(0, source_max_y as int) =~= rotate_90_spec(p));
    entity
}

/// `entity_source` mirrored left to right.
pub fn species_flip_h(entity_source: &UniversePlane) -> (r: UniversePlane)
    requires
        wf_pattern(plane_view(*entity_source)),
    ensures
        plane_view(r) == flip_h_spec(plane_view(*entity_source)),
{
    let ghost p = plane_view(*entity_source);
    let source_max_x: usize = entity_source.len();
    let mut entity: UniversePlane = Vec::new();
    let mut a: usize = 0;
    while a < source_max_x
        invariant
            p == plane_view(*entity_source),
            wf_pattern(p),
            source_max_x == p.len(),
            a <= source_max_x,
            plane_view(entity) == flip_h_spec(p).subrange(0, a as int),
        decreases source_max_x - a,
    {
        let column = copy_column(entity_source, source_max_x - 1 - a, false);
        let ghost before = plane_view(entity);
        entity.push(column);
        assert(plane_view(entity) =~= before.push(column@));
        assert(plane_view(entity) =~= flip_h_spec(p).subrange(0, a + 1));
        a = a + 1;
    }
    assert(flip_h_spec(p).subrange(0, source_max_x as int) =~= flip_h_spec(p));
    entity
}

/// `entity_source` mirrored top to bottom.
pub fn species_flip_v(entity_source: &UniversePlane) -> (r: UniversePlane)
    requires
        wf_pattern(plane_view(*entity_source)),
    ensures
        plane_view(r) == flip_v_spec(plane_view(*entity_source)),
{
    let ghost p = plane_view(*entity_source);
    let source_max_x: usize = entity_source.len();
    let mut entity: UniversePlane = Vec::new();
    let mut a: usize = 0;
    while a < source_max_x
        invariant
            p == plane_view(*entity_source),
            wf_pattern(p),
            source_max_x == p.len(),
            a <= source_max_x,
            plane_view(entity) == flip_v_spec(p).subrange(0, a as int),
        decreases source_max_x - a,
    {
        let column = copy_column(entity_source, a, true);
        let ghost before = plane_view(entity);
        entity.push(column);
        assert(plane_view(entity) =~= before.push(column@));
        assert(plane_view(entity) =~= flip_v_spec(p).subrange(0, a + 1));
        a = a + 1;
    }
    assert(flip_v_spec(p).subrange(0, source_max_x as int) =~= flip_v_spec(p));
    entity
}

/// The six variants of `entity`, in the order of `variants_spec`.
pub fn species_from_base(entity: &UniversePlane) -> (r: UniversePlaneSet)
    requires
        wf_pattern(plane_view(*entity)),
    ensures
        r@.map_values(|q: UniversePlane| plane_view(q)) == variants_spec(plane_view(*entity)),
        forall|i: int| 0 <= i < r@.len() ==> wf_pattern(#[trigger] plane_view(r@[i])),
{
    let ghost p = plane_view(*entity);
    proof {
        lemma_rotate_wf(p);
        lemma_rotate_wf(rotate_90_spec(p));
        lemma_rotate_wf(rotate_90_spec(rotate_90_spec(p)));
        lemma_flip_wf(p);
    }
    let mut entities: UniversePlaneSet = Vec::new();
    entities.push(species_nop(entity));
    entities.push(species_rotate_90(entity));
    let entity1 = species_rotate_90(entity);
    entities.push(species_rotate_90(&entity1));
    let entity1 = species_rotate_90(entity);
    let entity1 = species_rotate_90(&entity1);
    entities.push(species_rotate_90(&entity1));
    entities.push(species_flip_h(entity));
    entities.push(species_flip_v(entity));
    assert(entities@.map_values(|q: UniversePlane| plane_view(q)) =~= variants_spec(p));
    entities
}

/// The pattern turned by 180°.
pub open spec fn half_turn(p: Seq<Seq<u8>>) -> Seq<Seq<u8>> {
    Seq::new(
        width(p) as nat,
        |i: int| Seq::new(height(p) as nat, |j: int| p[width(p) - 1 - i][height(p) - 1 - j]),
    )
}

/// Two quarter turns make a half turn.
pub proof fn lemma_rotate_twice(p: Seq<Seq<u8>>)
    requires
        wf_pattern(p),
    ensures
        rotate_90_spec(rotate_90_spec(p)) == half_turn(p),
        wf_pattern(half_turn(p)),
        width(half_turn(p)) == width(p),
        height(half_turn(p)) == height(p),
{
    lemma_rotate_wf(p);
    lemma_rotate_wf(rotate_90_spec(p));
    let r2 = rotate_90_spec(rotate_90_spec(p));
    let h = half_turn(p);
    assert forall|i: int| 0 <= i < r2.len() implies #[trigger] r2[i] =~= h[i] by {
        assert(p[width(p) - 1 - i].len() == height(p));
    }
    assert(r2 =~= h);
}

/// Turning any pattern by 90° four times gives back the pattern itself.
pub proof fn lemma_rotate_four_times(p: Seq<Seq<u8>>)
    requires
        wf_pattern(p),
    ensures
        rotate_90_spec(rotate_90_spec(rotate_90_spec(rotate_90_spec(p)))) == p,
{
    lemma_rotate_twice(p);
    lemma_rotate_twice(half_turn(p));
    let q = half_turn(half_turn(p));
    assert forall|i: int| 0 <= i < p.len() implies #[trigger] q[i] =~= p[i] by {
        assert(p[i].len() == height(p));
    }
    assert(q =~= p);
}

/// The live cells of a pattern, as `(column, row)` pairs.
pub open spec fn live_cells(p: Seq<Seq<u8>>) -> Set<(int, int)> {
    Set::new(
        |c: (int, int)|
            0 <= c.0 < width(p) && 0 <= c.1 < height(p) && p[c.0][c.1] == CELL_LIVE,
    )
}

/// Number of live cells of a pattern.
pub open spec fn live_count(p: Seq<Seq<u8>>) -> nat {
    live_cells(p).len()
}

/// The live cells of a well-formed pattern form a finite set.
proof fn lemma_live_cells_finite(p: Seq<Seq<u8>>)
    requires
        wf_pattern(p),
    ensures
        live_cells(p).finite(),
{
    let w = width(p);
    let h = height(p);
    let f = |k: int| (k / h, k % h);
    let range = vstd::set_lib::set_int_range(0, w * h);
    vstd::set_lib::lemma_int_range(0, w * h);
    range.lemma_map_finite(f);
    assert forall|c: (int, int)| live_cells(p).contains(c) implies range.map(f).contains(c) by {
        let k = c.0 * h + c.1;
        assert(0 <= k < w * h) by (nonlinear_arith)
            requires
                0 <= c.0 < w,
                0 <= c.1 < h,
                k == c.0 * h + c.1,
        ;
        vstd::arithmetic::div_mod::lemma_fundamental_div_mod_converse(k, h, c.0, c.1);
        assert(range.contains(k));
        assert(f(k) == c);
    }
    vstd::set_lib::lemma_len_subset(live_cells(p), range.map(f));
}

/// Two patterns whose live cells are in one-to-one correspondence have as many live cells.
proof fn lemma_live_count_bijection(p: Seq<Seq<u8>>, q: Seq<Seq<u8>>, f: spec_fn((int, int)) -> (int, int))
    requires
        wf_pattern(p),
        vstd::relations::injective(f),
        live_cells(p).map(f) == live_cells(q),
    ensures
        live_count(q) == live_count(p),
{
    lemma_live_cells_finite(p);
    vstd::set_lib::lemma_map_size(live_cells(p), live_cells(q), f);
}

/// A quarter turn keeps the number of live cells.
proof fn lemma_rotate_live_count(p: Seq<Seq<u8>>)
    requires
        wf_pattern(p),
    ensures
        live_count(rotate_90_spec(p)) == live_count(p),
{
    lemma_rotate_wf(p);
    let r = rotate_90_spec(p);
    let w = width(p);
    let f = |c: (int, int)| (c.1, w - 1 - c.0);
    assert forall|c: (int, int)| #[trigger] live_cells(r).contains(c) implies live_cells(p).map(f).contains(c) by {
        let a = (w - 1 - c.1, c.0);
        assert(p[w - 1 - c.1].len() == height(p));
        assert(live_cells(p).contains(a));
        assert(f(a) == c);
    }
    assert forall|c: (int, int)| #[trigger] live_cells(p).map(f).contains(c) implies live_cells(r).contains(c) by {
        let a = choose|a: (int, int)| live_cells(p).contains(a) && f(a) == c;
        assert(p[a.0].len() == height(p));
    }
    assert(live_cells(p).map(f) =~= live_cells(r));
    lemma_live_count_bijection(p, r, f);
}

/// Every one of the six variants of a pattern has as many live cells as the pattern.
pub proof fn lemma_variants_live_count(p: Seq<Seq<u8>>)
    requires
        wf_pattern(p),
    ensures
        forall|i: int| 0 <= i < 6 ==> #[trigger] live_count(variants_spec(p)[i]) == live_count(p),
{
    lemma_rotate_wf(p);
    lemma_rotate_wf(rotate_90_spec(p));
    lemma_rotate_live_count(p);
    lemma_rotate_live_count(rotate_90_spec(p));
    lemma_rotate_live_count(rotate_90_spec(rotate_90_spec(p)));
    lemma_flip_wf(p);
    let w = width(p);
    let h = height(p);
    let fh = |c: (int, int)| (w - 1 - c.0, c.1);
    let hp = flip_h_spec(p);
    assert forall|c: (int, int)| #[trigger] live_cells(hp).contains(c) implies live_cells(p).map(fh).contains(c) by {
        let a = (w - 1 - c.0, c.1);
        assert(p[w - 1 - c.0].len() == h);
        assert(live_cells(p).contains(a));
        assert(fh(a) == c);
    }
    assert forall|c: (int, int)| #[trigger] live_cells(p).map(fh).contains(c) implies live_cells(hp).contains(c) by {
        let a = choose|a: (int, int)| live_cells(p).contains(a) && fh(a) == c;
        assert(p[a.0].len() == h);
    }
    assert(live_cells(p).map(fh) =~= live_cells(hp));
    lemma_live_count_bijection(p, hp, fh);
    let fv = |c: (int, int)| (c.0, h - 1 - c.1);
    let vp = flip_v_spec(p);
    assert forall|c: (int, int)| #[trigger] live_cells(vp).contains(c) implies live_cells(p).map(fv).contains(c) by {
        let a = (c.0, h - 1 - c.1);
        assert(p[c.0].len() == h);
        assert(live_cells(p).contains(a));
        assert(fv(a) == c);
    }
    assert forall|c: (int, int)| #[trigger] live_cells(p).map(fv).contains(c) implies live_cells(vp).contains(c) by {
        let a = choose|a: (int, int)| live_cells(p).contains(a) && fv(a) == c;
        assert(p[a.0].len() == h);
    }
    assert(live_cells(p).map(fv) =~= live_cells(vp));
    lemma_live_count_bijection(p, vp, fv);
}

/// Whether a trimmed line of the plain cell-grid format is a comment.
pub open spec fn is_comment(t: Seq<char>) -> bool {
    t.len() > 0 && t[0] == '!'
}

/// The rows of a plain cell-grid text given as lines: each line trimmed, comments left out.
pub open spec fn data_rows(lines: Seq<Seq<char>>) -> Seq<Seq<char>>
    decreases lines.len(),
{
    if lines.len() == 0 {
        Seq::empty()
    } else {
        let rest = data_rows(lines.drop_last());
        let t = trim(lines.last());
        if is_comment(t) {
            rest
        } else {
            rest.push(t)
        }
    }
}

/// Length of the longest row.
pub open spec fn max_len(rows: Seq<Seq<char>>) -> nat
    decreases rows.len(),
{
    if rows.len() == 0 {
        0
    } else {
        let m = max_len(rows.drop_last());
        if rows.last().len() > m {
            rows.last().len()
        } else {
            m
        }
    }
}

/// The cell that character `x` of a row stands for: `.` and the missing characters past the
/// end of a short row are dead, any other character is live.
pub open spec fn char_cell(row: Seq<char>, x: int) -> u8 {
    if x < row.len() && row[x] != '.' {
        CELL_LIVE
    } else {
        CELL_DEATH
    }
}

/// The pattern that rows of characters describe: as wide as the longest row, one row per row.
pub open spec fn grid_of(rows: Seq<Seq<char>>) -> Seq<Seq<u8>> {
    Seq::new(max_len(rows), |x: int| Seq::new(rows.len(), |y: int| char_cell(rows[y], x)))
}

/// The pattern that a text in the plain cell-grid format describes.
pub open spec fn plaintext_pattern(text: Seq<char>) -> Seq<Seq<u8>> {
    grid_of(data_rows(lines_of(text)))
}

/// Parses a text in the plain cell-grid format into its pattern.
pub fn species_plaintext_to_vec(text: &str) -> (r: UniversePlane)
    ensures
        plane_view(r) == plaintext_pattern(text@),
{
    let chars = chars_of(text);
    let lines = split_lines(&chars);
    let ghost ls = lines_of(text@);
    let mut rows: Vec<Vec<char>> = Vec::new();
    let mut max_x: usize = 0;
    let mut i: usize = 0;
    while i < lines.len()
        invariant
            ls == lines_view(lines),
            i <= ls.len(),
            lines_view(rows) == data_rows(ls.subrange(0, i as int)),
            max_x == max_len(lines_view(rows)),
        decreases ls.len() - i,
    {
        let line = trimmed(&lines[i]);
        assert(ls.subrange(0, i + 1).drop_last() =~= ls.subrange(0, i as int));
        assert(ls[i as int] == lines[i as int]@);
        if !(line.len() > 0 && line[0] == '!') {
            let ghost before = lines_view(rows);
            if line.len() > max_x {
                max_x = line.len();
            }
            rows.push(line);
            assert(lines_view(rows) =~= before.push(line@));
            assert(lines_view(rows).drop_last() =~= before);
        }
        i = i + 1;
    }
    assert(ls.subrange(0, ls.len() as int) =~= ls);
    let ghost rs = lines_view(rows);
    let max_y: usize = rows.len();
    let mut entity: UniversePlane = Vec::new();
    let mut x: usize = 0;
    while x < max_x
        invariant
            rs == lines_view(rows),
            rs == data_rows(ls),
            ls == lines_of(text@),
            max_x == max_len(rs),
            max_y == rs.len(),
            x <= max_x,
            plane_view(entity) == grid_of(rs).subrange(0, x as int),
        decreases max_x - x,
    {
        let mut column: Vec<UniverseCell> = Vec::new();
        let mut y: usize = 0;
        while y < max_y
            invariant
                rs == lines_view(rows),
                max_x == max_len(rs),
                max_y == rs.len(),
                x < max_x,
                y <= max_y,
                column@ == grid_of(rs)[x as int].subrange(0, y as int),
            decreases max_y - y,
        {
            assert(rs[y as int] == rows[y as int]@);
            let c: UniverseCell = if x < rows[y].len() && rows[y][x] != '.' {
                CELL_LIVE
            } else {
                CELL_DEATH
            };
            column.push(c);
            assert(column@ =~= grid_of(rs)[x as int].subrange(0, y + 1));
            y = y + 1;
        }
        assert(column@ =~= grid_of(rs)[x as int]);
        let ghost before = plane_view(entity);
        entity.push(column);
        assert(plane_view(entity) =~= before.push(column@));
        assert(plane_view(entity) =~= grid_of(rs).subrange(0, x + 1));
        x = x + 1;
    }
    assert(grid_of(rs).subrange(0, max_x as int) =~= grid_of(rs));
    entity
}

/// A tag of the run-length-encoded format: `b` dead cells, `o` live cells, `$` end of row,
/// `!` end of pattern.
pub open spec fn is_rle_tag(c: char) -> bool {
    c == 'b' || c == 'o' || c == '$' || c == '!'
}

pub open spec fn is_digit(c: char) -> bool {
    '0' <= c <= '9'
}

/// Whether a line of a run-length-encoded text is content: a run of `<count><tag>` tokens
/// and nothing else. Comment lines, the size line and any other line are not.
pub open spec fn is_rle_line(l: Seq<char>) -> bool {
    &&& forall|i: int| 0 <= i < l.len() ==> is_digit(#[trigger] l[i]) || is_rle_tag(l[i])
    &&& l.len() == 0 || is_rle_tag(l.last())
}

/// The content lines of a run-length-encoded text, joined.
pub open spec fn rle_stream(lines: Seq<Seq<char>>) -> Seq<char>
    decreases lines.len(),
{
    if lines.len() == 0 {
        Seq::empty()
    } else if is_rle_line(lines.last()) {
        rle_stream(lines.drop_last()) + lines.last()
    } else {
        rle_stream(lines.drop_last())
    }
}

/// The count of a token: its digits read in decimal, or 1 where it has none.
pub open spec fn rle_count(value: int, has_digits: bool) -> int {
    if has_digits {
        value
    } else {
        1
    }
}

/// The character of the cell-grid format that a tag emits.
pub open spec fn rle_emit(c: char) -> char {
    if c == 'b' {
        '.'
    } else if c == 'o' {
        'X'
    } else {
        '\n'
    }
}

/// Decoding state after reading `s`: the cell-grid text emitted so far, the value of the
/// pending digits, whether there are pending digits, and whether `!` was met.
pub open spec fn rle_decode(s: Seq<char>) -> (Seq<char>, int, bool, bool)
    decreases s.len(),
{
    if s.len() == 0 {
        (Seq::empty(), 0, false, false)
    } else {
        let st = rle_decode(s.drop_last());
        let c = s.last();
        if st.3 {
            st
        } else if is_digit(c) {
            (st.0, st.1 * 10 + (c as u32 - '0' as u32), true, false)
        } else if c == '!' {
            (st.0, 0, false, true)
        } else if is_rle_tag(c) {
            (st.0 + Seq::new(rle_count(st.1, st.2) as nat, |k: int| rle_emit(c)), 0, false, false)
        } else {
            st
        }
    }
}

/// The cell-grid text (`.` dead, `X` live, a newline between rows) that a run-length-encoded
/// text describes; decoding stops at the first `!`.
pub open spec fn rle_expand(text: Seq<char>) -> Seq<char> {
    rle_decode(rle_stream(lines_of(text))).0
}

/// The pattern that a run-length-encoded text describes.
pub open spec fn rle_pattern(text: Seq<char>) -> Seq<Seq<u8>> {
    plaintext_pattern(rle_expand(text))
}

/// Whether every count read while decoding `s` fits in a `u64`, the most a count can be here.
pub open spec fn rle_fits(s: Seq<char>) -> bool
    decreases s.len(),
{
    if s.len() == 0 {
        true
    } else {
        rle_fits(s.drop_last()) && rle_decode(s).1 <= u64::MAX
    }
}

/// Whether a run-length-encoded text can be decoded: no count in it exceeds a `u64`.
pub open spec fn rle_decodable(text: Seq<char>) -> bool {
    rle_fits(rle_stream(lines_of(text)))
}

/// What fits keeps fitting when cut short.
proof fn lemma_fits_prefix(s: Seq<char>, t: Seq<char>)
    requires
        rle_fits(s + t),
    ensures
        rle_fits(s),
    decreases t.len(),
{
    if t.len() > 0 {
        assert((s + t).drop_last() =~= s + t.drop_last());
        lemma_fits_prefix(s, t.drop_last());
    } else {
        assert(s + t =~= s);
    }
}

/// The stream of the first `j` lines fits wherever the stream of all lines does.
proof fn lemma_stream_fits(ls: Seq<Seq<char>>, j: int)
    requires
        0 <= j <= ls.len(),
        rle_fits(rle_stream(ls)),
    ensures
        rle_fits(rle_stream(ls.subrange(0, j))),
    decreases ls.len(),
{
    if j == ls.len() {
        assert(ls.subrange(0, j) =~= ls);
    } else {
        let rest = rle_stream(ls.drop_last());
        if is_rle_line(ls.last()) {
            lemma_fits_prefix(rest, ls.last());
        }
        lemma_stream_fits(ls.drop_last(), j);
        assert(ls.drop_last().subrange(0, j) =~= ls.subrange(0, j));
    }
}

/// Whether `line` is a content line of the run-length-encoded format.
fn rle_line(line: &Vec<char>) -> (r: bool)
    ensures
        r == is_rle_line(line@),
{
    let n = line.len();
    let mut k: usize = 0;
    while k < n
        invariant
            n == line@.len(),
            k <= n,
            forall|i: int| 0 <= i < k ==> is_digit(#[trigger] line@[i]) || is_rle_tag(line@[i]),
        decreases n - k,
    {
        let c = line[k];
        if !(('0' <= c && c <= '9') || c == 'b' || c == 'o' || c == '$' || c == '!') {
            return false;
        }
        k = k + 1;
    }
    if n == 0 {
        return true;
    }
    let c = line[n - 1];
    c == 'b' || c == 'o' || c == '$' || c == '!'
}

/// Appends `count` copies of the character `c` stands for to `out`.
fn emit_run(out: &mut String, c: char, count: u64)
    requires
        c == 'b' || c == 'o' || c == '$',
    ensures
        final(out)@ == old(out)@ + Seq::new(count as nat, |k: int| rle_emit(c)),
{
    let ghost start = out@;
    let mut k: u64 = 0;
    while k < count
        invariant
            c == 'b' || c == 'o' || c == '$',
            k <= count,
            out@ == start + Seq::new(k as nat, |i: int| rle_emit(c)),
        decreases count - k,
    {
        let ghost before = out@;
        if c == 'b' {
            out.append(".");
            proof {
                reveal_strlit(".");
            }
        } else if c == 'o' {
            out.append("X");
            proof {
                reveal_strlit("X");
            }
        } else {
            out.append("\n");
            proof {
                reveal_strlit("\n");
            }
        }
        assert(out@ =~= start + Seq::new((k + 1) as nat, |i: int| rle_emit(c)));
        k = k + 1;
    }
}

/// Decodes a run-length-encoded text into the cell-grid format; `None` where a count does not
/// fit in a `u64`.
pub fn process_lif(text: &str) -> (r: Option<String>)
    ensures
        r is Some <==> rle_decodable(text@),
        r matches Some(out) ==> out@ == rle_expand(text@),
{
    let chars = chars_of(text);
    let lines = split_lines(&chars);
    let ghost ls = lines_of(text@);
    let mut buffer = String::new();
    let mut value: u64 = 0;
    let mut has_digits = false;
    let mut done = false;
    let mut i: usize = 0;
    while i < lines.len()
        invariant
            ls == lines_view(lines),
            ls == lines_of(text@),
            i <= ls.len(),
            rle_fits(rle_stream(ls.subrange(0, i as int))),
            ({
                let st = rle_decode(rle_stream(ls.subrange(0, i as int)));
                &&& buffer@ == st.0
                &&& value == st.1
                &&& has_digits == st.2
                &&& done == st.3
            }),
        decreases ls.len() - i,
    {
        let ghost prefix = rle_stream(ls.subrange(0, i as int));
        assert(ls.subrange(0, i + 1).drop_last() =~= ls.subrange(0, i as int));
        assert(ls[i as int] == lines[i as int]@);
        if rle_line(&lines[i]) {
            let n = lines[i].len();
            let mut k: usize = 0;
            assert(prefix + ls[i as int].subrange(0, 0) =~= prefix);
            while k < n
                invariant
                    ls == lines_view(lines),
                    ls == lines_of(text@),
                    i < ls.len(),
                    is_rle_line(ls[i as int]),
                    prefix == rle_stream(ls.subrange(0, i as int)),
                    n == ls[i as int].len(),
                    k <= n,
                    rle_fits(prefix + ls[i as int].subrange(0, k as int)),
                    ({
                        let st = rle_decode(prefix + ls[i as int].subrange(0, k as int));
                        &&& buffer@ == st.0
                        &&& value == st.1
                        &&& has_digits == st.2
                        &&& done == st.3
                    }),
                decreases n - k,
            {
                let c = lines[i][k];
                let ghost s0 = prefix + ls[i as int].subrange(0, k as int);
                let ghost s1 = prefix + ls[i as int].subrange(0, k + 1);
                assert(s1.drop_last() =~= s0);
                assert(s1.last() == c);
                if !done {
                    if '0' <= c && c <= '9' {
                        let d: u64 = (c as u32 - '0' as u32) as u64;
                        if value > (u64::MAX - d) / 10 {
                            proof {
                                assert(value * 10 + d > u64::MAX) by (nonlinear_arith)
                                    requires
                                        value > (u64::MAX - d) / 10,
                                        0 <= d <= 9,
                                ;
                                assert(!rle_fits(s1));
                                let rest = ls[i as int].subrange(k + 1, n as int);
                                assert(s1 + rest =~= prefix + ls[i as int]);
                                assert(ls.subrange(0, i + 1).last() == ls[i as int]);
                                assert(ls.subrange(0, i + 1).drop_last() =~= ls.subrange(0, i as int));
                                assert(rle_stream(ls.subrange(0, i + 1)) == prefix + ls[i as int]);
                                if rle_fits(rle_stream(ls)) {
                                    lemma_stream_fits(ls, i + 1);
                                    lemma_fits_prefix(s1, rest);
                                }
                            }
                            return None;
                        }
                        proof {
                            assert(value * 10 + d <= u64::MAX) by (nonlinear_arith)
                                requires
                                    value <= (u64::MAX - d) / 10,
                                    0 <= d <= 9,
                            ;
                        }
                        value = value * 10 + d;
                        has_digits = true;
                    } else if c == '!' {
                        value = 0;
                        has_digits = false;
                        done = true;
                    } else if c == 'b' || c == 'o' || c == '$' {
                        let count: u64 = if has_digits { value } else { 1 };
                        emit_run(&mut buffer, c, count);
                        value = 0;
                        has_digits = false;
                    }
                }
                k = k + 1;
            }
            assert(ls[i as int].subrange(0, n as int) =~= ls[i as int]);
            assert(ls.subrange(0, i + 1).last() == ls[i as int]);
        }
        i = i + 1;
    }
    assert(ls.subrange(0, ls.len() as int) =~= ls);
    Some(buffer)
}

/// Whether `p` is a rectangle of cells with at least one column and one row.
pub fn pattern_is_valid(p: &UniversePlane) -> (r: bool)
    ensures
        r == wf_pattern(plane_view(*p)),
{
    let ghost v = plane_view(*p);
    if p.len() == 0 {
        return false;
    }
    let h = p[0].len();
    if h == 0 {
        return false;
    }
    let mut a: usize = 0;
    while a < p.len()
        invariant
            v == plane_view(*p),
            v.len() > 0,
            h == v[0].len(),
            h > 0,
            a <= v.len(),
            forall|i: int| 0 <= i < a ==> #[trigger] v[i].len() == h,
            forall|i: int, j: int| 0 <= i < a && 0 <= j < v[i].len() ==> is_cell(#[trigger] v[i][j]),
        decreases v.len() - a,
    {
        assert(v[a as int] == p[a as int]@);
        if p[a].len() != h {
            return false;
        }
        let mut b: usize = 0;
        while b < h
            invariant
                v == plane_view(*p),
                a < v.len(),
                v[a as int].len() == h,
                b <= h,
                forall|j: int| 0 <= j < b ==> is_cell(#[trigger] v[a as int][j]),
            decreases h - b,
        {
            assert(v[a as int] == p[a as int]@);
            let c = p[a][b];
            if !(c == CELL_DEATH || c == CELL_LIVE) {
                return false;
            }
            b = b + 1;
        }
        a = a + 1;
    }
    true
}

/// The two text formats that patterns are loaded from.
#[derive(Clone, Copy, Debug)]
pub enum SpeciesFormat {
    /// One line per row, `.` for a dead cell, any other character for a live one; lines that
    /// start with `!` are comments.
    Plaintext,
    /// Run-length encoded: `<count><tag>` tokens, `b` dead, `o` live, `$` end of row, `!` end.
    Rle,
}

/// Whether `text` in `format` can be decoded at all.
pub open spec fn decodable(format: SpeciesFormat, text: Seq<char>) -> bool {
    match format {
        SpeciesFormat::Plaintext => true,
        SpeciesFormat::Rle => rle_decodable(text),
    }
}

/// The pattern that `text` in `format` describes.
pub open spec fn parsed_pattern(format: SpeciesFormat, text: Seq<char>) -> Seq<Seq<u8>> {
    match format {
        SpeciesFormat::Plaintext => plaintext_pattern(text),
        SpeciesFormat::Rle => rle_pattern(text),
    }
}

/// Parses `text` in `format` and appends the six variants of its pattern to the universe's
/// collection. A text that cannot be decoded, or describes no cell at all, adds nothing and
/// gives `false`.
pub fn load_species_text(universe: &mut Universe, format: SpeciesFormat, text: &str) -> (r: bool)
    requires
        old(universe).wf(),
    ensures
        final(universe).wf(),
        final(universe).cells() == old(universe).cells(),
        final(universe).time() == old(universe).time(),
        r == (decodable(format, text@) && wf_pattern(parsed_pattern(format, text@))),
        final(universe).patterns() == if r {
            old(universe).patterns() + variants_spec(parsed_pattern(format, text@))
        } else {
            old(universe).patterns()
        },
{
    let entity_base = match format {
        SpeciesFormat::Plaintext => species_plaintext_to_vec(text),
        SpeciesFormat::Rle => match process_lif(text) {
            None => return false,
            Some(raw_content) => species_plaintext_to_vec(raw_content.as_str()),
        },
    };
    if !pattern_is_valid(&entity_base) {
        return false;
    }
    let entities = species_from_base(&entity_base);
    let ghost start = universe.patterns();
    let ghost vs = variants_spec(plane_view(entity_base));
    let mut k: usize = 0;
    while k < entities.len()
        invariant
            universe.wf(),
            universe.cells() == old(universe).cells(),
            universe.time() == old(universe).time(),
            start == old(universe).patterns(),
            entities@.map_values(|q: UniversePlane| plane_view(q)) == vs,
            forall|i: int| 0 <= i < entities@.len() ==> wf_pattern(#[trigger] plane_view(entities@[i])),
            k <= entities@.len(),
            universe.patterns() == start + vs.subrange(0, k as int),
        decreases entities@.len() - k,
    {
        let entity = species_nop(&entities[k]);
        universe.push_entity(entity);
        assert(start + vs.subrange(0, k + 1) =~= (start + vs.subrange(0, k as int)).push(vs[k as int]));
        k = k + 1;
    }
    assert(vs.subrange(0, 6) =~= vs);
    true
}

} // verus!
