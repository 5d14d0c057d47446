use sudoku::board::Board;
use sudoku::error::SudokuError;
use sudoku::solver::EliminateObviousSolver;
use sudoku::solver::Solver;

fn empty_board() -> Board {
    let b_res = Board::parse(
        "\
        _ _ _ _ _ _ _ _ _
        _ _ _ _ _ _ _ _ _
        _ _ _ _ _ _ _ _ _
        _ _ _ _ _ _ _ _ _
        _ _ _ _ _ _ _ _ _
        _ _ _ _ _ _ _ _ _
        _ _ _ _ _ _ _ _ _
        _ _ _ _ _ _ _ _ _
        _ _ _ _ _ _ _ _ _
    ",
    );
    assert!(b_res.is_ok());
    return b_res.unwrap();
}

fn candidates(b: &mut Board, x: usize, y: usize) -> Vec<i8> {
    let mut all: Vec<i8> = b.field(x, y).options.iter().copied().collect();
    all.sort();
    all
}

fn total_candidates(b: &mut Board) -> usize {
    (0..81).map(|i| b.field_seq(i).options.len()).sum()
}

#[test]
fn test_obvious_solver() {
    let mut b = empty_board();
    let s = EliminateObviousSolver {};

    b.field_seq(0).solve(1).unwrap();

    s.apply(&mut b).unwrap();

    assert!(!b.field(0, 5).options.contains(&1));
    assert!(!b.field(8, 0).options.contains(&1));
    assert!(b.field(1, 5).options.contains(&1));
}

#[test]
fn one_solved_field_clears_its_row_and_column_only() {
    let mut b = empty_board();
    let s = EliminateObviousSolver {};
    b.field_seq(0).solve(1).unwrap();
    assert_eq!(s.apply(&mut b), Ok(true));
    for x in 0..9 {
        for y in 0..9 {
            let expected: Vec<i8> = if x == 0 && y == 0 {
                vec![1]
            } else if x == 0 || y == 0 {
                vec![2, 3, 4, 5, 6, 7, 8, 9]
            } else {
                vec![1, 2, 3, 4, 5, 6, 7, 8, 9]
            };
            assert_eq!(candidates(&mut b, x, y), expected, "({x}, {y})");
        }
    }
    assert_eq!(b.num_solved(), 1);
}

#[test]
fn second_application_reports_no_change() {
    let mut b = empty_board();
    let s = EliminateObviousSolver {};
    b.field(3, 4).solve(7).unwrap();
    assert_eq!(s.apply(&mut b), Ok(true));
    let after_first = Board::parse(&"_ ".repeat(81)).unwrap();
    assert_ne!(b, after_first);
    let weight = total_candidates(&mut b);
    assert_eq!(weight, 81 * 9 - 8 - 16);
    assert_eq!(s.apply(&mut b), Ok(false));
    assert_eq!(total_candidates(&mut b), weight);
}

#[test]
fn empty_board_gives_nothing_to_deduce() {
    let mut b = empty_board();
    let s = EliminateObviousSolver {};
    assert_eq!(s.apply(&mut b), Ok(false));
    assert_eq!(b, Board::new());
}

#[test]
fn box_constraint_is_not_applied() {
    let mut b = empty_board();
    let s = EliminateObviousSolver {};
    b.field(0, 0).solve(5).unwrap();
    s.apply(&mut b).unwrap();
    assert!(b.field(1, 1).options.contains(&5));
    assert!(b.field(2, 2).options.contains(&5));
    assert!(!b.field(1, 0).options.contains(&5));
    assert!(!b.field(0, 1).options.contains(&5));
}

#[test]
fn field_solved_by_elimination_is_swept_in_the_same_pass_when_it_comes_later() {
    let mut b = empty_board();
    let s = EliminateObviousSolver {};
    // Row 0 holds 1 to 8 in columns 0 to 7: the field (8, 0) is left with 9.
    for x in 0..8 {
        b.field(x, 0).solve((x + 1) as i8).unwrap();
    }
    assert_eq!(s.apply(&mut b), Ok(true));
    assert_eq!(b.field(8, 0).value, Some(9));
    // (8, 0) became solved while the pass was at (0, 0), before the pass
    // reached it, so its column was swept in the same pass.
    for y in 1..9 {
        assert!(!b.field(8, y).options.contains(&9));
    }
    assert_eq!(s.apply(&mut b), Ok(false));
}

#[test]
fn field_solved_by_elimination_waits_for_the_next_pass_when_it_came_earlier() {
    let mut b = empty_board();
    let s = EliminateObviousSolver {};
    // Row 0 holds 2 to 9 in columns 1 to 8: the field (0, 0) is left with 1,
    // but the pass has already gone by it when that shows.
    for x in 1..9 {
        b.field(x, 0).solve((x + 1) as i8).unwrap();
    }
    assert_eq!(s.apply(&mut b), Ok(true));
    assert_eq!(b.field(0, 0).value, Some(1));
    for y in 1..9 {
        assert!(b.field(0, y).options.contains(&1));
    }
    assert_eq!(s.apply(&mut b), Ok(true));
    for y in 1..9 {
        assert!(!b.field(0, y).options.contains(&1));
    }
    assert_eq!(s.apply(&mut b), Ok(false));
}

#[test]
fn same_value_twice_in_a_row_exhausts() {
    let mut b = empty_board();
    let s = EliminateObviousSolver {};
    b.field(0, 0).solve(4).unwrap();
    b.field(5, 0).solve(4).unwrap();
    assert_eq!(s.apply(&mut b), Err(SudokuError::Exhausted));
    assert_eq!(
        s.apply(&mut empty_with_clash()).map_err(|e| e.message()),
        Err("The field is left with no possible value".to_string())
    );
    // The pass stopped at the field that lost its last candidate.
    assert_eq!(b.field(5, 0).value, Some(4));
    assert_eq!(b.field(5, 0).options.len(), 0);
    // Column 0 was swept up to the row that step 5 visits, and no further.
    assert!(!b.field(0, 5).options.contains(&4));
    assert!(b.field(0, 6).options.contains(&4));
    assert!(!b.field(4, 0).options.contains(&4));
    assert!(b.field(6, 0).options.contains(&4));
}

fn empty_with_clash() -> Board {
    let mut b = empty_board();
    b.field(2, 2).solve(9).unwrap();
    b.field(2, 7).solve(9).unwrap();
    b
}

#[test]
fn repeated_application_reaches_a_fixed_point() {
    let mut b = Board::parse(
        "\
        3 6 _ _ 1 7 _ _ 5
        _ 5 _ _ 6 _ 3 1 2
        1 8 2 _ 3 _ 7 9 6
        _ _ 6 _ _ _ _ 5 1
        5 _ _ 6 _ 9 _ _ 8
        9 2 _ _ _ _ 6 _ _
        2 9 4 _ 8 _ 5 6 7
        7 3 8 _ 4 _ _ 2 _
        6 _ _ 7 9 _ _ 8 3
    ",
    )
    .unwrap();
    let s = EliminateObviousSolver {};
    let mut weight = total_candidates(&mut b);
    let bound = weight;
    let mut passes = 0;
    loop {
        let r = s.apply(&mut b);
        let now = total_candidates(&mut b);
        passes += 1;
        assert!(passes <= bound + 1);
        if r == Ok(false) {
            assert_eq!(now, weight);
            break;
        }
        assert!(now < weight);
        weight = now;
    }
    assert_eq!(s.apply(&mut b), Ok(false));
    assert_eq!(total_candidates(&mut b), weight);
    // No field has as candidate the value of another field of its row or column.
    for i in 0..81 {
        if let Some(v) = b.field_seq(i).value {
            for p in 0..81 {
                if p != i && (p % 9 == i % 9 || p / 9 == i / 9) {
                    assert!(!b.field_seq(p).options.contains(&v));
                }
            }
        }
    }
}

#[test]
fn pass_only_narrows_and_keeps_values() {
    let text = "\
        3 6 _ _ 1 7 _ _ 5
        _ 5 _ _ 6 _ 3 1 2
        1 8 2 _ 3 _ 7 9 6
        _ _ 6 _ _ _ _ 5 1
        5 _ _ 6 _ 9 _ _ 8
        9 2 _ _ _ _ 6 _ _
        2 9 4 _ 8 _ 5 6 7
        7 3 8 _ 4 _ _ 2 _
        6 _ _ 7 9 _ _ 8 3
    ";
    let mut before = Board::parse(text).unwrap();
    let mut after = Board::parse(text).unwrap();
    let s = EliminateObviousSolver {};
    assert_eq!(s.apply(&mut after), Ok(true));
    for i in 0..81 {
        let old = before.field_seq(i);
        let new = after.field_seq(i);
        assert!(new.options.is_subset(&old.options));
        if old.value.is_some() {
            assert_eq!(new.value, old.value);
        }
        // What went away is the value of a solved field of the row or column.
        let gone: Vec<i8> = old.options.difference(&new.options).copied().collect();
        for v in gone {
            let mut held = false;
            for p in 0..81 {
                if p != i && (p % 9 == i % 9 || p / 9 == i / 9) {
                    held = held || after.field_seq(p).value == Some(v);
                }
            }
            assert!(held);
        }
    }
}
