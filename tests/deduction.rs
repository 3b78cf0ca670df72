use minesolver::board::{
    blank_and_flagged_surrounding, blank_surrounding, flagged_surrounding, numbered_surrounding,
    surrounding, Board, Cell,
};
use minesolver::engine::{
    apply_flags, check_all_bombs_flagged_then_clear, clear, clear_harder, clear_random_blank,
    deduce, flag, flag_harder, next_step, pick_blank, Step,
};
use minesolver::observe::{classify, parse_cell_id, update_cell, MineExposed, Observation};
use rand::rngs::StdRng;
use rand::{Rng, SeedableRng};

const H: i8 = -1;
const F: i8 = -2;

/// Builds a board from rows of codes: -1 hidden, -2 flagged, n >= 0 revealed.
fn board_of(rows: &[&[i8]]) -> Board {
    let mut b = Board::new(rows.len(), rows[0].len());
    for (r, row) in rows.iter().enumerate() {
        for (c, &v) in row.iter().enumerate() {
            let cell = match v {
                H => Cell::Hidden,
                F => Cell::Flagged,
                n => Cell::Revealed(n as u8),
            };
            b.set(r, c, cell);
        }
    }
    b
}

#[test]
fn neighbors_of_interior_cell_in_compass_order() {
    let n = surrounding(3, 3, 1, 1);
    assert_eq!(
        n,
        vec![(0, 0), (0, 1), (0, 2), (1, 0), (1, 2), (2, 0), (2, 1), (2, 2)]
    );
}

#[test]
fn neighbors_are_clipped_at_the_boundary() {
    assert_eq!(surrounding(3, 3, 0, 0), vec![(0, 1), (1, 0), (1, 1)]);
    assert_eq!(surrounding(3, 4, 2, 3), vec![(1, 2), (1, 3), (2, 2)]);
    assert_eq!(surrounding(1, 1, 0, 0), vec![]);
    assert_eq!(surrounding(16, 30, 0, 15).len(), 5);
}

#[test]
fn neighbor_filters_by_state() {
    let b = board_of(&[&[H, F, 2], &[0, 1, H], &[F, 3, 0]]);
    assert_eq!(blank_surrounding(&b, 1, 1), vec![(0, 0), (1, 2)]);
    assert_eq!(flagged_surrounding(&b, 1, 1), vec![(0, 1), (2, 0)]);
    assert_eq!(
        blank_and_flagged_surrounding(&b, 1, 1),
        vec![(0, 0), (0, 1), (1, 2), (2, 0)]
    );
    assert_eq!(numbered_surrounding(&b, 1, 1), vec![(0, 2), (2, 1)]);
}

#[test]
fn new_board_is_hidden_and_set_replaces_one_cell() {
    let mut b = Board::new(2, 3);
    assert_eq!(b.rows(), 2);
    assert_eq!(b.cols(), 3);
    b.set(1, 2, Cell::Revealed(4));
    assert_eq!(b.get(1, 2), Cell::Revealed(4));
    assert_eq!(b.get(0, 0), Cell::Hidden);
    assert_eq!(b.get(1, 1), Cell::Hidden);
}

#[test]
fn saturated_cell_flags_its_only_hidden_neighbor() {
    let b = board_of(&[&[H, 0, 0], &[0, 1, 0], &[0, 0, 0]]);
    assert_eq!(flag(&b), vec![(0, 0)]);
    assert!(deduce(&b).flags.contains(&(0, 0)));
}

#[test]
fn saturation_counts_flags_toward_the_number() {
    let b = board_of(&[&[H, F, 0], &[0, 2, 0], &[0, 0, 0]]);
    assert_eq!(flag(&b), vec![(0, 0)]);
    let b = board_of(&[&[H, H, 0], &[0, 1, 0], &[0, 0, 0]]);
    assert_eq!(flag(&b), vec![]);
}

#[test]
fn satisfied_cell_clears_its_hidden_neighbor() {
    let b = board_of(&[&[F, F, H], &[0, 2, 0], &[0, 0, 0]]);
    assert_eq!(clear_harder(&b), vec![(0, 2)]);
    assert!(deduce(&b).clears.contains(&(0, 2)));
    assert!(!deduce(&b).flags.contains(&(0, 2)));
}

#[test]
fn subset_rule_clears_the_extra_cell() {
    let b = board_of(&[&[H, 0, H], &[1, 1, 0], &[0, 0, 0]]);
    assert_eq!(clear(&b), vec![(0, 2)]);
    let pass = deduce(&b);
    assert!(pass.clears.contains(&(0, 2)));
    assert_eq!(pass.flags, vec![(0, 0)]);
}

#[test]
fn difference_rule_flags_the_extra_cells() {
    // (1,0) misses one mine among {(0,0)}; (1,1) misses two among
    // {(0,0),(0,2)}: (0,2) must be a mine.
    let b = board_of(&[&[H, 0, H], &[1, 2, 0], &[0, 0, 0]]);
    assert_eq!(flag_harder(&b), vec![(0, 2)]);
    assert_eq!(clear(&b), vec![]);
    let pass = deduce(&b);
    assert_eq!(pass.flags, vec![(0, 0), (0, 2)]);
    assert_eq!(pass.clears, vec![]);
}

#[test]
fn difference_rule_needs_the_exact_count() {
    // (1,0) misses one mine among two cells, (1,1) three among three: the
    // one extra cell cannot hold the two mines of difference.
    let b = board_of(&[&[H, H, H], &[1, 3, 0], &[0, 0, 0]]);
    assert_eq!(flag_harder(&b), vec![]);
    let b = board_of(&[&[H, H, H], &[1, 2, 0], &[0, 0, 0]]);
    assert_eq!(flag_harder(&b), vec![(0, 2)]);
}

#[test]
fn closure_clears_every_hidden_cell() {
    let b = board_of(&[&[F, H, 1], &[H, 2, H], &[0, H, 0]]);
    let cleared = check_all_bombs_flagged_then_clear(&b, 1).unwrap();
    assert_eq!(cleared, vec![(0, 1), (1, 0), (1, 2), (2, 1)]);
    assert_eq!(check_all_bombs_flagged_then_clear(&b, 2), None);
}

#[test]
fn pass_at_fixpoint_stays_empty() {
    let mut b = board_of(&[&[H, H, H], &[H, 2, H], &[H, H, H]]);
    let pass = deduce(&b);
    assert!(pass.flags.is_empty() && pass.clears.is_empty());
    apply_flags(&mut b, &pass.flags);
    let again = deduce(&b);
    assert!(again.flags.is_empty() && again.clears.is_empty());
}

#[test]
fn apply_flags_marks_only_hidden_cells() {
    let mut b = board_of(&[&[H, 1], &[F, H]]);
    apply_flags(&mut b, &vec![(0, 0), (0, 1), (1, 0)]);
    assert_eq!(b.get(0, 0), Cell::Flagged);
    assert_eq!(b.get(0, 1), Cell::Revealed(1));
    assert_eq!(b.get(1, 0), Cell::Flagged);
    assert_eq!(b.get(1, 1), Cell::Hidden);
}

#[test]
fn fallback_is_reproducible_under_a_seed() {
    let b = board_of(&[&[H, 0, H], &[0, H, 0], &[H, 0, H]]);
    let first: usize = StdRng::seed_from_u64(7).gen();
    let second: usize = StdRng::seed_from_u64(7).gen();
    assert_eq!(pick_blank(&b, first), pick_blank(&b, second));
    let hidden = vec![(0, 0), (0, 2), (1, 1), (2, 0), (2, 2)];
    assert_eq!(pick_blank(&b, first), Some(hidden[first % 5]));
    assert_eq!(pick_blank(&b, 7), Some((1, 1)));
}

#[test]
fn fallback_without_hidden_cells() {
    let b = board_of(&[&[0, F], &[1, 1]]);
    assert_eq!(pick_blank(&b, 3), None);
    assert_eq!(clear_random_blank(&b), None);
    let b = board_of(&[&[0, H], &[1, 1]]);
    assert_eq!(clear_random_blank(&b), Some((0, 1)));
}

#[test]
fn next_step_prefers_deduction_then_closure_then_guess() {
    let b = board_of(&[&[H, 0, 0], &[0, 1, 0], &[0, 0, 0]]);
    match next_step(&b, 5, Some(0)) {
        Step::Act(pass) => assert_eq!(pass.flags, vec![(0, 0)]),
        _ => panic!("expected a pass with flags"),
    }
    let b = board_of(&[&[F, H], &[H, H]]);
    match next_step(&b, 1, Some(0)) {
        Step::ClearAll(cells) => assert_eq!(cells, vec![(0, 1), (1, 0), (1, 1)]),
        _ => panic!("expected closure"),
    }
    match next_step(&b, 2, Some(4)) {
        Step::Guess(p) => assert_eq!(p, (1, 0)),
        _ => panic!("expected a guess"),
    }
    assert!(matches!(next_step(&b, 2, None), Step::Stuck));
    let b = board_of(&[&[F, 1], &[1, 1]]);
    assert!(matches!(next_step(&b, 1, Some(0)), Step::Stuck));
}

/// Mine counts of every cell for the placement `mines` on a grid.
fn counts(rows: usize, cols: usize, mines: &[bool]) -> Vec<u8> {
    let mut out = vec![0u8; rows * cols];
    for r in 0..rows {
        for c in 0..cols {
            out[r * cols + c] = surrounding(rows, cols, r, c)
                .iter()
                .filter(|&&(nr, nc)| mines[nr * cols + nc])
                .count() as u8;
        }
    }
    out
}

#[test]
fn deductions_hold_under_every_consistent_placement() {
    let (rows, cols) = (3usize, 4usize);
    let n = rows * cols;
    let placements: Vec<Vec<bool>> = (0u32..(1 << n))
        .map(|m| (0..n).map(|i| m & (1 << i) != 0).collect())
        .collect();
    let mut checked = 0;
    for truth in placements.iter().step_by(37) {
        let cnt = counts(rows, cols, truth);
        for pattern in [0b1010_0110_1101u32, 0b0111_1011_0110, 0b1111_0000_1111] {
            let mut b = Board::new(rows, cols);
            for i in 0..n {
                if pattern & (1 << i) != 0 && !truth[i] {
                    b.set(i / cols, i % cols, Cell::Revealed(cnt[i]));
                }
            }
            let pass = deduce(&b);
            for cand in &placements {
                let ccnt = counts(rows, cols, cand);
                let consistent = (0..n).all(|i| match b.get(i / cols, i % cols) {
                    Cell::Revealed(k) => !cand[i] && ccnt[i] == k,
                    Cell::Flagged => cand[i],
                    Cell::Hidden => true,
                });
                if !consistent {
                    continue;
                }
                for &(r, c) in &pass.flags {
                    assert!(cand[r * cols + c]);
                }
                for &(r, c) in &pass.clears {
                    assert!(!cand[r * cols + c]);
                }
                checked += 1;
            }
        }
    }
    assert!(checked > 0);
}

#[test]
fn classify_reads_cell_classes() {
    assert_eq!(classify("square blank"), Observation::Seen(Cell::Hidden));
    assert_eq!(classify("square open0"), Observation::Seen(Cell::Revealed(0)));
    assert_eq!(classify("square open8"), Observation::Seen(Cell::Revealed(8)));
    assert_eq!(classify("square bombflagged"), Observation::Seen(Cell::Flagged));
    assert_eq!(classify("square bombrevealed"), Observation::MineExposed);
    assert_eq!(classify("square open9"), Observation::Unrecognized);
    assert_eq!(classify("square bombdeath"), Observation::Unrecognized);
    assert_eq!(classify("blank"), Observation::Unrecognized);
    assert_eq!(classify(""), Observation::Unrecognized);
}

#[test]
fn parse_cell_id_counts_from_one() {
    assert_eq!(parse_cell_id("1_1", 16, 30), Some((0, 0)));
    assert_eq!(parse_cell_id("16_30", 16, 30), Some((15, 29)));
    assert_eq!(parse_cell_id("17_1", 16, 30), None);
    assert_eq!(parse_cell_id("0_5", 16, 30), None);
    assert_eq!(parse_cell_id("3_31", 16, 30), None);
    assert_eq!(parse_cell_id("3-4", 16, 30), None);
    assert_eq!(parse_cell_id("_4", 16, 30), None);
    assert_eq!(parse_cell_id("4_", 16, 30), None);
    assert_eq!(parse_cell_id("4_5_6", 16, 30), None);
    assert_eq!(parse_cell_id("99999999999999999999999_1", 16, 30), None);
}

#[test]
fn update_cell_records_and_cascades() {
    let mut b = Board::new(3, 3);
    let more = update_cell(&mut b, 0, 0, Observation::Seen(Cell::Revealed(0))).unwrap();
    assert_eq!(b.get(0, 0), Cell::Revealed(0));
    assert_eq!(more, vec![(0, 1), (1, 0), (1, 1)]);
    let more = update_cell(&mut b, 1, 1, Observation::Seen(Cell::Revealed(2))).unwrap();
    assert!(more.is_empty());
    let more = update_cell(&mut b, 2, 2, Observation::Unrecognized).unwrap();
    assert!(more.is_empty());
    assert_eq!(b.get(2, 2), Cell::Hidden);
    assert_eq!(
        update_cell(&mut b, 2, 1, Observation::MineExposed),
        Err(MineExposed { row: 2, col: 1 })
    );
    assert_eq!(b.get(2, 1), Cell::Hidden);
}

#[test]
fn empty_and_single_cell_boards() {
    let b = Board::new(0, 0);
    let pass = deduce(&b);
    assert!(pass.flags.is_empty() && pass.clears.is_empty());
    assert_eq!(pick_blank(&b, 3), None);
    assert!(matches!(next_step(&b, 0, Some(1)), Step::Stuck));
    let b = Board::new(1, 1);
    assert_eq!(surrounding(1, 1, 0, 0), vec![]);
    assert_eq!(pick_blank(&b, 5), Some((0, 0)));
    assert_eq!(check_all_bombs_flagged_then_clear(&b, 0), Some(vec![(0, 0)]));
}

#[test]
fn full_size_board_corner_deductions() {
    let mut b = Board::new(16, 30);
    for r in 0..16 {
        for c in 0..30 {
            b.set(r, c, Cell::Revealed(0));
        }
    }
    b.set(15, 29, Cell::Hidden);
    b.set(15, 28, Cell::Revealed(1));
    b.set(0, 0, Cell::Hidden);
    b.set(0, 1, Cell::Flagged);
    b.set(1, 1, Cell::Revealed(1));
    let pass = deduce(&b);
    assert_eq!(pass.flags, vec![(15, 29)]);
    assert_eq!(pass.clears, vec![(0, 0)]);
    assert_eq!(surrounding(16, 30, 15, 29), vec![(14, 28), (14, 29), (15, 28)]);
}
