use game_of_life::game_constants::{CELL_DEATH, CELL_LIVE, HISTORY_SIZE, WORLD_SIZE_X, WORLD_SIZE_Y};
use game_of_life::game_universe::{wrap_coord, Universe, WorldBounds};

fn snapshot(u: &Universe, x: isize, y: isize, w: isize, h: isize) -> Vec<Vec<u8>> {
    u.get_current_world(WorldBounds { x, y, w, h })
}

#[test]
fn wraparound_normalize_is_periodic() {
    let u = Universe::new();
    for x in [-5000isize, -1025, -1024, -1, 0, 1, 511, 1023, 1024, 3000] {
        for k in [-3isize, -1, 0, 1, 7] {
            assert_eq!(
                u.fix_index(x + k * WORLD_SIZE_X, x - k * WORLD_SIZE_Y),
                u.fix_index(x, x)
            );
        }
    }
    assert_eq!(u.fix_index(-1, -1), (1023, 1023));
    assert_eq!(u.fix_index(1024, 2049), (0, 1));
}

#[test]
fn wraparound_index_is_periodic() {
    assert_eq!(Universe::map_3d_to_1d_index(0, 0, 0), 0);
    assert_eq!(Universe::map_3d_to_1d_index(1, 2, 3), 1048576 + 3 * 1024 + 2);
    for (t, x, y) in [(0isize, 5isize, 7isize), (42, 1023, 0), (99, 0, 1023)] {
        let base = Universe::map_3d_to_1d_index(t, x, y);
        assert_eq!(Universe::map_3d_to_1d_index(t + HISTORY_SIZE, x, y), base);
        assert_eq!(Universe::map_3d_to_1d_index(t - 2 * HISTORY_SIZE, x - WORLD_SIZE_X, y + 3 * WORLD_SIZE_Y), base);
    }
    assert_eq!(Universe::map_3d_to_1d_index(-1, -1, -1), 104857599);
}

#[test]
fn wrap_coord_of_extremes() {
    assert_eq!(wrap_coord(isize::MIN, 1024), 0);
    assert_eq!(wrap_coord(isize::MAX, 1024), 1023);
    assert_eq!(wrap_coord(-1, 100), 99);
    assert_eq!(wrap_coord(250, 100), 50);
}

#[test]
fn new_world_is_dead() {
    let u = Universe::new();
    assert_eq!(u.get_current_time(), 0);
    assert_eq!(Universe::get_dimensions(), (100, 1024, 1024));
    assert_eq!(u.get_entities().len(), 0);
    let s = snapshot(&u, 0, 0, 1024, 1024);
    assert!(s.iter().all(|col| col.iter().all(|&c| c == CELL_DEATH)));
}

#[test]
fn snapshot_wraps_and_keeps_shape() {
    let mut u = Universe::new();
    u.set_cell_low_level(0, 0, 0, CELL_LIVE);
    u.set_cell_low_level(0, 1023, 1023, CELL_LIVE);
    let s = snapshot(&u, -2, -2, 4, 4);
    assert_eq!(s.len(), 4);
    assert!(s.iter().all(|col| col.len() == 4));
    assert_eq!(s[2][2], CELL_LIVE);
    assert_eq!(s[1][1], CELL_LIVE);
    assert_eq!(s[0][0], CELL_DEATH);
    let big = snapshot(&u, 1023, 1023, 2050, 3);
    assert_eq!(big.len(), 2050);
    assert_eq!(big[0][0], CELL_LIVE);
    assert_eq!(big[1][1], CELL_LIVE);
    assert_eq!(big[1024][0], CELL_LIVE);
    assert_eq!(big[2048][0], CELL_LIVE);
}

#[test]
fn set_cell_adds_offsets_with_wrap() {
    let mut u = Universe::new();
    u.set_cell(0, 1020, 5, 6, -10, CELL_LIVE);
    assert_eq!(u.get_current_time_cell(2, 1019), CELL_LIVE);
    assert_eq!(u.get_current_time_cell(2 + 1024, 1019 - 1024), CELL_LIVE);
    u.set_cell(0, isize::MAX, isize::MIN, isize::MAX, isize::MIN, CELL_LIVE);
    assert_eq!(u.get_current_time_cell(1022, 0), CELL_LIVE);
}

#[test]
fn current_time_wraps() {
    let mut u = Universe::new();
    u.set_current_time(105);
    assert_eq!(u.get_current_time(), 5);
    u.set_current_time(-1);
    assert_eq!(u.get_current_time(), 99);
    assert_eq!(u.position_to_index(7, -3), (7, -3));
}
