use life::board::LifeBoard;
use life::engine::{
    apply_changes, eval_cell, exhaustive_changes, sparse_changes, step_exhaustive, step_sparse,
    surrounding_cells,
};

fn mk(w: usize, h: usize) -> LifeBoard {
    LifeBoard::new(w, h).unwrap()
}

fn stamp(b: &mut LifeBoard, cells: &[(isize, isize)]) {
    for &(x, y) in cells {
        b.set(x, y, true);
    }
}

fn live_of(b: &LifeBoard) -> Vec<(usize, usize)> {
    let mut v = b.live_cells();
    v.sort();
    v
}

fn sorted_changes(mut v: Vec<(usize, usize, bool)>) -> Vec<(usize, usize, bool)> {
    v.sort();
    v
}

/// A small deterministic generator, so the random boards are reproducible.
fn lcg_stream(seed: u64, n: usize) -> Vec<u64> {
    let mut s = seed;
    let mut out = Vec::with_capacity(n);
    for _ in 0..n {
        s = s.wrapping_mul(6364136223846793005).wrapping_add(1442695040888963407);
        out.push(s >> 33);
    }
    out
}

fn random_board(w: usize, h: usize, seed: u64, one_in: u64) -> LifeBoard {
    let mut b = mk(w, h);
    let draws = lcg_stream(seed, w * h);
    for y in 0..h {
        for x in 0..w {
            if draws[x + y * w] % one_in == 0 {
                b.set(x as isize, y as isize, true);
            }
        }
    }
    b
}

#[test]
fn still_life_block_is_unchanged() {
    let block = [(2, 2), (3, 2), (2, 3), (3, 3)];
    let mut b = mk(6, 6);
    stamp(&mut b, &block);
    let before = live_of(&b);
    step_sparse(&mut b);
    assert_eq!(live_of(&b), before);
    let mut b2 = mk(6, 6);
    stamp(&mut b2, &block);
    step_exhaustive(&mut b2);
    assert_eq!(live_of(&b2), before);
}

#[test]
fn blinker_oscillates_with_period_two() {
    let mut b = mk(5, 5);
    stamp(&mut b, &[(1, 2), (2, 2), (3, 2)]);
    let horizontal = live_of(&b);
    step_sparse(&mut b);
    assert_eq!(live_of(&b), vec![(2, 1), (2, 2), (2, 3)]);
    step_sparse(&mut b);
    assert_eq!(live_of(&b), horizontal);
}

#[test]
fn glider_translates_by_one_after_four_ticks() {
    let glider = [(1, 0), (2, 1), (0, 2), (1, 2), (2, 2)];
    let mut b = mk(10, 10);
    for &(x, y) in &glider {
        b.set(x + 3, y + 3, true);
    }
    for _ in 0..4 {
        step_sparse(&mut b);
    }
    let mut expected: Vec<(usize, usize)> =
        glider.iter().map(|&(x, y)| ((x + 4) as usize, (y + 4) as usize)).collect();
    expected.sort();
    assert_eq!(live_of(&b), expected);
}

#[test]
fn glider_crosses_the_toroidal_edge() {
    let glider = [(1, 0), (2, 1), (0, 2), (1, 2), (2, 2)];
    let mut b = mk(6, 6);
    for &(x, y) in &glider {
        b.set(x + 4, y + 4, true);
    }
    // 24 ticks move the glider by (6, 6), which wraps to where it began.
    let start = live_of(&b);
    for _ in 0..24 {
        step_sparse(&mut b);
    }
    assert_eq!(live_of(&b), start);
}

#[test]
fn empty_board_stays_empty() {
    let mut b = mk(8, 8);
    assert_eq!(sparse_changes(&b).len(), 0);
    assert_eq!(exhaustive_changes(&b).len(), 0);
    for _ in 0..5 {
        step_sparse(&mut b);
        assert!(live_of(&b).is_empty());
    }
}

#[test]
fn rule_table_for_live_cells() {
    let neighbors = [(2, 2), (3, 2), (4, 2), (2, 3), (4, 3), (2, 4), (3, 4), (4, 4)];
    for n in 0..=8 {
        let mut b = mk(7, 7);
        b.set(3, 3, true);
        stamp(&mut b, &neighbors[..n]);
        step_exhaustive(&mut b);
        assert_eq!(b.get(3, 3), n == 2 || n == 3, "live cell with {} neighbors", n);
    }
}

#[test]
fn rule_table_for_dead_cells() {
    let neighbors = [(2, 2), (3, 2), (4, 2), (2, 3), (4, 3), (2, 4), (3, 4), (4, 4)];
    for n in 0..=8 {
        let mut b = mk(7, 7);
        stamp(&mut b, &neighbors[..n]);
        step_exhaustive(&mut b);
        assert_eq!(b.get(3, 3), n == 3, "dead cell with {} neighbors", n);
    }
}

#[test]
fn strategies_agree_on_sample_boards() {
    // An empty board first, then full and sparse-random boards, plus
    // degenerate sizes where the wrap makes cells their own neighbors.
    let empty = mk(9, 9);
    assert_eq!(
        sorted_changes(exhaustive_changes(&empty)),
        sorted_changes(sparse_changes(&empty))
    );
    let samples: Vec<(usize, usize, u64, u64)> = vec![
        (6, 6, 1, 1), // full
        (12, 12, 7, 4),
        (12, 12, 99, 10),
        (1, 1, 3, 1),
        (2, 2, 5, 1),
        (3, 5, 11, 3),
        (1, 8, 13, 2),
    ];
    for &(w, h, seed, one_in) in &samples {
        let b = random_board(w, h, seed, one_in);
        let ex = sorted_changes(exhaustive_changes(&b));
        let sp = sorted_changes(sparse_changes(&b));
        assert_eq!(ex, sp, "boards {}x{} seed {}", w, h, seed);

        let mut b1 = random_board(w, h, seed, one_in);
        let mut b2 = random_board(w, h, seed, one_in);
        step_exhaustive(&mut b1);
        step_sparse(&mut b2);
        assert_eq!(live_of(&b1), live_of(&b2), "boards {}x{} seed {}", w, h, seed);
    }
}

#[test]
fn full_one_cell_board_dies_of_overpopulation() {
    // On a 1x1 torus the cell's eight neighbor positions all wrap onto
    // itself, so a live cell sees eight live neighbors and dies.
    let mut b = mk(1, 1);
    b.set(0, 0, true);
    step_sparse(&mut b);
    assert!(live_of(&b).is_empty());
}

#[test]
fn eval_cell_reports_only_changes() {
    let mut b = mk(5, 5);
    stamp(&mut b, &[(1, 2), (2, 2), (3, 2)]);
    // The blinker's center survives: no change record.
    assert_eq!(eval_cell(&b, 2, 2), None);
    // The cell above the center is born.
    assert_eq!(eval_cell(&b, 2, 1), Some((2, 1, true)));
    // The end of the line dies of underpopulation.
    assert_eq!(eval_cell(&b, 1, 2), Some((1, 2, false)));
    // A far-away dead cell stays dead: no change record.
    assert_eq!(eval_cell(&b, 0, 0), None);
}

#[test]
fn surrounding_cells_lists_the_eight_neighbors() {
    let r = surrounding_cells(5, 9);
    assert_eq!(
        r,
        vec![(4, 8), (5, 8), (6, 8), (4, 9), (6, 9), (4, 10), (5, 10), (6, 10)]
    );
}

#[test]
fn applying_no_changes_leaves_the_board() {
    let mut b = mk(4, 4);
    b.set(1, 1, true);
    let before = live_of(&b);
    let empty: Vec<(usize, usize, bool)> = Vec::new();
    apply_changes(&mut b, &empty);
    assert_eq!(live_of(&b), before);
}
