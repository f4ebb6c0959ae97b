use bingo_gen::generator::{check_line, difficulty, generate, select_goal};
use bingo_gen::{Bingo, BingoError, Goal, Mode, Template};

fn goal(name: &str, types: &[&str]) -> Goal {
    Goal { name: name.to_string(), types: types.iter().map(|t| t.to_string()).collect() }
}

/// A catalog with one pool per reachable tier, each goal carrying its tier
/// tag so that same-tier picks can collide thematically.
fn full_catalog() -> Template {
    let mut tiers: Vec<Vec<Goal>> = Vec::new();
    for t in 0..25 {
        let tag = format!("g{}", t);
        tiers.push(vec![
            goal(&format!("T{}A", t), &[&tag, "all"]),
            goal(&format!("T{}B", t), &[&tag]),
            goal(&format!("T{}C", t), &["all"]),
        ]);
    }
    Template(tiers)
}

#[test]
fn difficulty_known_values() {
    // seed 587062: low table [1,0,4,2,3], high table [0,3,4,1,2], shift 4.
    assert_eq!(difficulty(587062, 1, Mode::Normal), 19);
    assert_eq!(difficulty(587062, 2, Mode::Normal), 5);
    assert_eq!(difficulty(587062, 1, Mode::Short), 9);
    assert_eq!(difficulty(587062, 1, Mode::Long), 22);
    assert_eq!(difficulty(587062, 1, Mode::Special), 22);
}

#[test]
fn difficulty_range_all_modes() {
    for seed in [0u32, 1, 999, 587062, u32::MAX] {
        for i in 1..=25 {
            for mode in [Mode::Short, Mode::Normal, Mode::Long, Mode::Special] {
                let d = difficulty(seed, i, mode);
                assert!((0..=24).contains(&d));
            }
        }
    }
}

#[test]
fn magic_square_balance() {
    // Normal mode leaves the raw magic-square value unscaled, so every row,
    // column and both main diagonals of the raw grid total 60.
    for seed in [0u32, 7, 42, 587062, 123456, u32::MAX] {
        let grid: Vec<i64> = (1..=25).map(|i| difficulty(seed, i, Mode::Normal)).collect();
        for r in 0..5 {
            let row: i64 = (0..5).map(|c| grid[5 * r + c]).sum();
            assert_eq!(row, 60);
            let col: i64 = (0..5).map(|c| grid[5 * c + r]).sum();
            assert_eq!(col, 60);
        }
        let diag: i64 = (0..5).map(|k| grid[5 * k + k]).sum();
        assert_eq!(diag, 60);
        let anti: i64 = (0..5).map(|k| grid[5 * k + (4 - k)]).sum();
        assert_eq!(anti, 60);
    }
}

#[test]
fn check_line_scores_tag_overlap() {
    // Candidate for cell 1 against a goal already placed on cell 0 (same
    // row): "x" matches "x" with both sides' main tags: 1 + 1 + 1. "y"
    // matches "y" where only the placed side's tag is main: 1 + 1.
    let placed = vec![goal("p", &["x", "q"])];
    let score = check_line(1, &vec!["x".to_string(), "z".to_string()], &placed);
    assert_eq!(score, 3);
    let placed2 = vec![goal("p", &["y", "q"])];
    let score2 = check_line(1, &vec!["z".to_string(), "y".to_string()], &placed2);
    assert_eq!(score2, 2);
    // No placed neighbor: no synergy.
    assert_eq!(check_line(1, &vec!["x".to_string()], &vec![]), 0);
}

#[test]
fn selector_stops_at_first_zero() {
    // Cell 1 shares a line with placed cell 0. Scanning from offset 0, the
    // first candidate scores 3, the second scores 0 and wins; the third,
    // also zero-synergy, is never reached.
    let placed = vec![goal("p", &["x"])];
    let pool = vec![goal("a", &["x"]), goal("b", &["y"]), goal("c", &["y"])];
    let (idx, syn) = select_goal(1, &pool, 0, &placed);
    assert_eq!((idx, syn), (1, 0));
    // A strictly lower nonzero score replaces the incumbent; a tie keeps it.
    let pool2 = vec![goal("a", &["x"]), goal("b", &["x"]), goal("c", &["q", "x"])];
    let (idx2, syn2) = select_goal(1, &pool2, 0, &placed);
    assert_eq!((idx2, syn2), (2, 2));
}

#[test]
fn generate_deterministic() {
    let catalog = full_catalog();
    let a = generate(587062, Mode::Normal, &catalog).unwrap();
    let b = generate(587062, Mode::Normal, &catalog).unwrap();
    assert_eq!(a, b);
    let c = Template::generate(&catalog, 587062, Mode::Normal).unwrap();
    let d = Bingo::new(587062, Mode::Normal, &catalog).unwrap();
    assert_eq!(a, c);
    assert_eq!(a, d);
    // A different seed gives a different board for this catalog.
    let e = generate(587063, Mode::Normal, &catalog).unwrap();
    assert_ne!(a, e);
}

#[test]
fn generate_board_shape() {
    let catalog = full_catalog();
    let board = generate(42, Mode::Long, &catalog).unwrap();
    assert_eq!(board.cells.len(), 5);
    for row in &board.cells {
        assert_eq!(row.len(), 5);
        for cell in row {
            assert!(!cell.is_empty());
        }
    }
}

#[test]
fn generate_respects_assigned_tiers() {
    // Every cell's name carries the tier the difficulty assigner computed.
    let catalog = full_catalog();
    let seed = 587062;
    let board = generate(seed, Mode::Normal, &catalog).unwrap();
    for i in 1..=25usize {
        let tier = difficulty(seed, i, Mode::Normal);
        let name = &board.cells[(i - 1) / 5][(i - 1) % 5];
        assert!(name.starts_with(&format!("T{}", tier)), "cell {} name {}", i, name);
    }
}

#[test]
fn generate_missing_tier_is_an_error() {
    // An empty catalog has no tier at all.
    let empty = Template(vec![]);
    assert_eq!(generate(587062, Mode::Normal, &empty).unwrap_err(), BingoError::CatalogTierMissing);
    // A tier that exists but is empty is just as missing.
    let mut tiers: Vec<Vec<Goal>> = Vec::new();
    for t in 0..25 {
        if t == difficulty(587062, 1, Mode::Normal) {
            tiers.push(vec![]);
        } else {
            tiers.push(vec![goal("x", &[])]);
        }
    }
    let holed = Template(tiers);
    assert_eq!(generate(587062, Mode::Normal, &holed).unwrap_err(), BingoError::CatalogTierMissing);
}

#[test]
fn generate_malformed_catalog_is_an_error() {
    let bad = Template(vec![vec![goal("", &[])]]);
    assert_eq!(generate(1, Mode::Normal, &bad).unwrap_err(), BingoError::MalformedCatalog);
}

#[test]
fn generator_test() {
    // Regression pin: the full pipeline against the tiered catalog above.
    let catalog = full_catalog();
    let bingo = Template::generate(&catalog, 587062, Mode::Normal).unwrap();
    let expected: Vec<Vec<&str>> = vec![
        vec!["T19C", "T5B", "T1B", "T23B", "T12B"],
        vec!["T21B", "T13B", "T17C", "T9B", "T0B"],
        vec!["T7B", "T4B", "T20B", "T11B", "T18C"],
        vec!["T10B", "T16A", "T8B", "T2B", "T24B"],
        vec!["T3B", "T22B", "T14B", "T15B", "T6B"],
    ];
    for r in 0..5 {
        for c in 0..5 {
            assert_eq!(bingo.cells[r][c], expected[r][c], "row {} col {}: {:?}", r, c, bingo.cells);
        }
    }
}
