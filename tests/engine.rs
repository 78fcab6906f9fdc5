use game_of_life::game_constants::{CELL_DEATH, CELL_LIVE};
use game_of_life::game_engine::{generate_next_time, inject_entropy_at};
use game_of_life::game_universe::{Universe, WorldBounds};

fn live_cells(u: &Universe) -> Vec<(usize, usize)> {
    let s = u.get_current_world(WorldBounds { x: 0, y: 0, w: 1024, h: 1024 });
    let mut out = Vec::new();
    for (x, col) in s.iter().enumerate() {
        for (y, &c) in col.iter().enumerate() {
            if c == CELL_LIVE {
                out.push((x, y));
            }
        }
    }
    out
}

#[test]
fn blinker_has_period_two() {
    let mut u = Universe::new();
    for x in 10..13 {
        u.set_cell_low_level(0, x, 20, CELL_LIVE);
    }
    let gen0 = live_cells(&u);
    assert_eq!(gen0, vec![(10, 20), (11, 20), (12, 20)]);
    assert_eq!(generate_next_time(&mut u, None), None);
    assert_eq!(u.get_current_time(), 1);
    assert_eq!(live_cells(&u), vec![(11, 19), (11, 20), (11, 21)]);
    generate_next_time(&mut u, None);
    assert_eq!(u.get_current_time(), 2);
    assert_eq!(live_cells(&u), gen0);
}

#[test]
fn blinker_across_the_edge_oscillates() {
    let mut u = Universe::new();
    for x in [1023isize, 0, 1] {
        u.set_cell_low_level(0, x, 0, CELL_LIVE);
    }
    let gen0 = live_cells(&u);
    generate_next_time(&mut u, None);
    assert_eq!(live_cells(&u), vec![(0, 0), (0, 1), (0, 1023)]);
    generate_next_time(&mut u, None);
    assert_eq!(live_cells(&u), gen0);
}

#[test]
fn tick_keeps_previous_generation_intact() {
    let mut u = Universe::new();
    for x in 10..13 {
        u.set_cell_low_level(0, x, 20, CELL_LIVE);
    }
    generate_next_time(&mut u, None);
    u.set_current_time(0);
    assert_eq!(live_cells(&u), vec![(10, 20), (11, 20), (12, 20)]);
}

#[test]
fn block_is_still_and_lonely_cell_dies() {
    let mut u = Universe::new();
    for (x, y) in [(5isize, 5isize), (5, 6), (6, 5), (6, 6), (100, 100)] {
        u.set_cell_low_level(0, x, y, CELL_LIVE);
    }
    generate_next_time(&mut u, None);
    assert_eq!(live_cells(&u), vec![(5, 5), (5, 6), (6, 5), (6, 6)]);
}

#[test]
fn history_ring_wraps_to_slot_zero() {
    let mut u = Universe::new();
    u.set_current_time(99);
    generate_next_time(&mut u, None);
    assert_eq!(u.get_current_time(), 0);
}

#[test]
fn entropy_overwrites_square_and_border() {
    let mut u = Universe::new();
    let square = vec![vec![CELL_LIVE; 3]; 3];
    inject_entropy_at(&mut u, 0, &square, 100, 200);
    let s = u.get_current_world(WorldBounds { x: 99, y: 199, w: 5, h: 5 });
    for a in 0..5 {
        for b in 0..5 {
            let inside = (1..4).contains(&a) && (1..4).contains(&b);
            assert_eq!(s[a][b], if inside { CELL_LIVE } else { CELL_DEATH });
        }
    }
    assert_eq!(live_cells(&u).len(), 9);
}

#[test]
fn entropy_replaces_existing_life() {
    let mut u = Universe::new();
    for x in 0..8isize {
        for y in 0..8isize {
            u.set_cell_low_level(0, x, y, CELL_LIVE);
        }
    }
    let pattern = vec![vec![CELL_DEATH, CELL_LIVE], vec![CELL_LIVE, CELL_DEATH]];
    inject_entropy_at(&mut u, 0, &pattern, 2, 2);
    let s = u.get_current_world(WorldBounds { x: 0, y: 0, w: 8, h: 8 });
    assert_eq!(s[2][2], CELL_DEATH);
    assert_eq!(s[2][3], CELL_LIVE);
    assert_eq!(s[3][2], CELL_LIVE);
    assert_eq!(s[3][3], CELL_DEATH);
    for b in 1..5 {
        assert_eq!(s[1][b], CELL_DEATH);
        assert_eq!(s[4][b], CELL_DEATH);
        assert_eq!(s[b][1], CELL_DEATH);
        assert_eq!(s[b][4], CELL_DEATH);
    }
    assert_eq!(s[0][0], CELL_LIVE);
    assert_eq!(s[5][5], CELL_LIVE);
    assert_eq!(s[0][3], CELL_LIVE);
}

#[test]
fn entropy_wraps_around_the_corner() {
    let mut u = Universe::new();
    inject_entropy_at(&mut u, 0, &vec![vec![CELL_LIVE]], 1023, 1023);
    assert_eq!(live_cells(&u), vec![(1023, 1023)]);
    let mut v = Universe::new();
    v.set_cell_low_level(0, 0, 0, CELL_LIVE);
    inject_entropy_at(&mut v, 0, &vec![vec![CELL_LIVE]], 1023, 1023);
    assert_eq!(live_cells(&v), vec![(1023, 1023)]);
}

#[test]
fn tick_with_entity_places_it_at_returned_corner() {
    let mut u = Universe::new();
    let square = vec![vec![CELL_LIVE; 2]; 2];
    let origin = generate_next_time(&mut u, Some(square)).expect("an origin");
    assert!((0..1024).contains(&origin.0) && (0..1024).contains(&origin.1));
    assert_eq!(u.get_current_time(), 1);
    assert_eq!(live_cells(&u).len(), 4);
    for (a, b) in [(0isize, 0isize), (0, 1), (1, 0), (1, 1)] {
        assert_eq!(u.get_current_time_cell(origin.0 + a, origin.1 + b), CELL_LIVE);
    }
}

#[test]
fn tick_ignores_other_slots() {
    let mut clean = Universe::new();
    let mut noisy = Universe::new();
    for u in [&mut clean, &mut noisy] {
        for x in 10..13 {
            u.set_cell_low_level(0, x, 20, CELL_LIVE);
        }
    }
    for x in 0..30isize {
        noisy.set_cell_low_level(1, x, 19, CELL_LIVE);
        noisy.set_cell_low_level(5, x, 20, CELL_LIVE);
    }
    generate_next_time(&mut clean, None);
    generate_next_time(&mut noisy, None);
    assert_eq!(live_cells(&noisy), live_cells(&clean));
    assert_eq!(live_cells(&clean), vec![(11, 19), (11, 20), (11, 21)]);
}
