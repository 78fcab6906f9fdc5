use game_of_life::game_constants::{CELL_DEATH, CELL_LIVE};
use game_of_life::game_entropy::get_random_entity;
use game_of_life::game_species::{
    load_species_text, pattern_is_valid, process_lif, species_flip_h, species_flip_v,
    species_from_base, species_nop, species_plaintext_to_vec, species_rotate_90, SpeciesFormat,
};
use game_of_life::game_universe::Universe;

fn live_set(p: &Vec<Vec<u8>>) -> Vec<(usize, usize)> {
    let mut out = Vec::new();
    for (x, col) in p.iter().enumerate() {
        for (y, &c) in col.iter().enumerate() {
            if c == CELL_LIVE {
                out.push((x, y));
            }
        }
    }
    out
}

#[test]
fn rle_decodes_two_rows() {
    let text = process_lif("3o$2bo!").expect("decodable");
    assert_eq!(text, "XXX\n..X");
    let p = species_plaintext_to_vec(&text);
    assert_eq!(p.len(), 3);
    assert!(p.iter().all(|col| col.len() == 2));
    let row1: Vec<u8> = (0..3).map(|x| p[x][0]).collect();
    let row2: Vec<u8> = (0..3).map(|x| p[x][1]).collect();
    assert_eq!(row1, vec![CELL_LIVE, CELL_LIVE, CELL_LIVE]);
    assert_eq!(row2, vec![CELL_DEATH, CELL_DEATH, CELL_LIVE]);
}

#[test]
fn rle_skips_comments_and_size_line() {
    let text = "#N Glider\n#C a comment\nx = 3, y = 3, rule = B3/S23\nbo$2bo$3o!\n";
    assert_eq!(process_lif(text).as_deref(), Some(".X\n..X\nXXX"));
}

#[test]
fn rle_stops_at_first_bang() {
    assert_eq!(process_lif("2o!3o\n4o").as_deref(), Some("XX"));
    assert_eq!(process_lif("o$\r\n2o!").as_deref(), Some("X\nXX"));
}

#[test]
fn rle_counts() {
    assert_eq!(process_lif("o2$o!").as_deref(), Some("X\n\nX"));
    assert_eq!(process_lif("0bo!").as_deref(), Some("X"));
    assert_eq!(process_lif("70000o!"), Some("X".repeat(70000)));
    assert_eq!(process_lif("65536b!"), Some(".".repeat(65536)));
    assert_eq!(process_lif("12b!").map(|t| t.len()), Some(12));
    assert_eq!(process_lif("3o 2b!").as_deref(), Some(""));
    assert_eq!(process_lif("3o5").as_deref(), Some(""));
}

#[test]
fn rle_count_beyond_u64_is_refused() {
    assert_eq!(process_lif("99999999999999999999o!"), None);
    assert_eq!(process_lif("#C big\no$\n18446744073709551616b!"), None);
    assert_eq!(process_lif("o!99999999999999999999o").as_deref(), Some("X"));
    let mut u = Universe::new();
    assert!(!load_species_text(&mut u, SpeciesFormat::Rle, "99999999999999999999o!"));
    assert_eq!(u.get_entities().len(), 0);
}

#[test]
fn plaintext_decodes_plus() {
    let p = species_plaintext_to_vec(".X.\nXXX\n.X.");
    assert_eq!(p.len(), 3);
    assert!(p.iter().all(|col| col.len() == 3));
    let mut live = live_set(&p);
    live.sort();
    let mut expected = vec![(1, 0), (0, 1), (1, 1), (2, 1), (1, 2)];
    expected.sort();
    assert_eq!(live, expected);
}

#[test]
fn plaintext_comments_ragged_rows_and_trim() {
    let p = species_plaintext_to_vec("!Name: test\r\n  X\r\n.X.X\r\n\n");
    assert_eq!(p.len(), 4);
    assert!(p.iter().all(|col| col.len() == 3));
    let mut live = live_set(&p);
    live.sort();
    assert_eq!(live, vec![(0, 0), (1, 1), (3, 1)]);
}

#[test]
fn plaintext_empty_text_has_no_cells() {
    assert!(species_plaintext_to_vec("").is_empty());
    assert!(species_plaintext_to_vec("!only a comment\n").is_empty());
    assert!(!pattern_is_valid(&species_plaintext_to_vec("")));
}

#[test]
fn pattern_validity() {
    assert!(pattern_is_valid(&vec![vec![CELL_LIVE, CELL_DEATH]]));
    assert!(!pattern_is_valid(&vec![vec![CELL_LIVE], vec![CELL_LIVE, CELL_LIVE]]));
    assert!(!pattern_is_valid(&vec![vec![]]));
    assert!(!pattern_is_valid(&vec![vec![2u8]]));
}

fn glider() -> Vec<Vec<u8>> {
    species_plaintext_to_vec(".X.\n..X\nXXX")
}

#[test]
fn transforms_move_cells() {
    let l = species_plaintext_to_vec("XX\nX.\nX.");
    assert_eq!(l.len(), 2);
    let r = species_rotate_90(&l);
    assert_eq!(r.len(), 3);
    assert!(r.iter().all(|c| c.len() == 2));
    for a in 0..2 {
        for b in 0..3 {
            assert_eq!(r[b][1 - a], l[a][b]);
        }
    }
    let h = species_flip_h(&l);
    let v = species_flip_v(&l);
    for a in 0..2 {
        for b in 0..3 {
            assert_eq!(h[1 - a][b], l[a][b]);
            assert_eq!(v[a][2 - b], l[a][b]);
        }
    }
    assert_eq!(species_nop(&l), l);
    assert_ne!(r, l);
}

#[test]
fn rotation_four_times_is_identity() {
    let g = glider();
    let mut r = g.clone();
    for _ in 0..4 {
        r = species_rotate_90(&r);
    }
    assert_eq!(r, g);
    let l = species_plaintext_to_vec("XX\nX.\nX.");
    let r4 = species_rotate_90(&species_rotate_90(&species_rotate_90(&species_rotate_90(&l))));
    assert_eq!(r4, l);
}

#[test]
fn variants_keep_live_count() {
    for base in [glider(), species_plaintext_to_vec("XX\nX.\nX.")] {
        let n = live_set(&base).len();
        let vs = species_from_base(&base);
        assert_eq!(vs.len(), 6);
        assert_eq!(vs[0], base);
        assert_eq!(vs[1], species_rotate_90(&base));
        assert_eq!(vs[4], species_flip_h(&base));
        assert_eq!(vs[5], species_flip_v(&base));
        for v in &vs {
            assert_eq!(live_set(v).len(), n);
        }
    }
}

#[test]
fn load_appends_six_variants_or_nothing() {
    let mut u = Universe::new();
    assert!(load_species_text(&mut u, SpeciesFormat::Rle, "#C glider\nx = 3, y = 3\nbo$2bo$3o!"));
    assert_eq!(u.get_entities().len(), 6);
    assert_eq!(u.get_entities()[0], glider());
    assert!(load_species_text(&mut u, SpeciesFormat::Plaintext, "!c\nXX\nXX\n"));
    assert_eq!(u.get_entities().len(), 12);
    assert!(!load_species_text(&mut u, SpeciesFormat::Plaintext, "!nothing\n"));
    assert!(!load_species_text(&mut u, SpeciesFormat::Rle, "#C no content\n"));
    assert_eq!(u.get_entities().len(), 12);
}

#[test]
fn random_entity_is_a_loaded_pattern() {
    let mut u = Universe::new();
    assert!(load_species_text(&mut u, SpeciesFormat::Plaintext, ".X.\n..X\nXXX"));
    for _ in 0..20 {
        let e = get_random_entity(&u);
        assert!(u.get_entities().contains(&e));
    }
}
