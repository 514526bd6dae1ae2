use sudoku::{SolveOutcome, SudokuGrid};

const EASY_PUZZLE: &str = "\
...26.7.1
68..7..9.
19...45..
82.1...4.
..46.29..
.5...3.28
..93...74
.4..5..36
7.3.18...
";

const EASY_SOLUTION: &str = "\
435269781
682571493
197834562
826195347
374682915
951743628
519326874
248957136
763418259";

#[test]
fn solve_easy() {
    let puzzle_str = EASY_PUZZLE;
    let solution_str = EASY_SOLUTION;

    let mut puzzle_grid = SudokuGrid::from(puzzle_str).unwrap();
    let solution_grid = SudokuGrid::from(solution_str).unwrap();

    puzzle_grid.solve();
    assert!(puzzle_grid.is_correct());
    assert_eq!(puzzle_grid, solution_grid);
}

#[test]
fn solve_hard() {
    let puzzle_str = "\
...6..4..
7....36..
....91.8.
.........
.5.18...3
...3.6.45
.4.2...6.
9.3......
.2....1..
";
    let solution_str = "\
581672439
792843651
364591782
438957216
256184973
179326845
845219367
913768524
627435198";

    let mut puzzle_grid = SudokuGrid::from(puzzle_str).unwrap();
    let solution_grid = SudokuGrid::from(solution_str).unwrap();

    puzzle_grid.solve();
    assert!(puzzle_grid.is_correct());
    assert_eq!(puzzle_grid, solution_grid);
}

#[test]
fn is_correct() {
    let solution_grid = SudokuGrid::from(EASY_SOLUTION).unwrap();
    assert!(solution_grid.is_correct());
}

#[test]
fn unfilled_is_not_correct() {
    let unfilled_str = "\
...6..4..
7....36..
....91.8.
.........
.5.18...3
...3.6.45
.4.2...6.
9.3......
.2....1..";

    let unfilled_grid = SudokuGrid::from(unfilled_str).unwrap();
    assert!(!unfilled_grid.is_correct());
}

#[test]
#[should_panic]
fn row_conflict() {
    let row_conflict_str = "\
435269718
682571493
197834562
826195347
374682915
951743628
519326874
248957136
763418259";

    SudokuGrid::from(row_conflict_str).unwrap();
}

#[test]
#[should_panic]
fn col_conflict() {
    let col_conflict_str = "\
435269781
682571493
197834562
826195345
374682917
951743628
519326874
248957136
763418259";

    SudokuGrid::from(col_conflict_str).unwrap();
}

#[test]
#[should_panic]
fn box_conflict() {
    let box_conflict_str = "\
581672439
792843651
438957216
364591782
256184973
179326845
845219367
913768524
627435198";

    SudokuGrid::from(box_conflict_str).unwrap();
}

#[test]
fn conflicts_are_errors_from_parse() {
    assert!(SudokuGrid::from("11.......").is_err());
    assert!(SudokuGrid::from("1........\n1........").is_err());
    assert!(SudokuGrid::from("1........\n.1.......").is_err());
    assert!(SudokuGrid::from("1........\n...1.....").is_ok());
}

#[test]
fn empty_grid_has_no_conflicts() {
    let g = SudokuGrid::new();
    assert!(!g.has_conflicts());
    assert!(!g.is_correct());
}

#[test]
fn has_conflicts_on_row_column_and_box() {
    let mut g = SudokuGrid::new();
    g.set(0, 0, 5).unwrap();
    g.set(0, 8, 4).unwrap();
    assert!(!g.has_conflicts());
    g.set(4, 4, 5).unwrap();
    assert!(!g.has_conflicts());
    g.set(8, 0, 5).unwrap();
    assert!(g.has_conflicts());

    let mut g = SudokuGrid::new();
    g.set(3, 3, 7).unwrap();
    g.set(5, 5, 7).unwrap();
    assert!(g.has_conflicts());

    let mut g = SudokuGrid::new();
    g.set(2, 1, 9).unwrap();
    g.set(2, 7, 9).unwrap();
    assert!(g.has_conflicts());
}

#[test]
fn set_rejects_out_of_range() {
    let mut g = SudokuGrid::new();
    assert!(g.set(0, 0, 0).is_err());
    assert!(g.set(0, 0, 10).is_err());
    assert!(g.set(9, 0, 1).is_err());
    assert!(g.set(0, 9, 1).is_err());
    assert_eq!(g, SudokuGrid::new());
    assert!(g.set(8, 8, 9).is_ok());
    assert!(g.set(0, 0, 1).is_ok());
    assert_ne!(g, SudokuGrid::new());
}

#[test]
fn set_writes_without_checking_conflicts() {
    let mut g = SudokuGrid::new();
    g.set(0, 0, 3).unwrap();
    assert!(g.set(0, 1, 3).is_ok());
    assert!(g.has_conflicts());
}

#[test]
fn parse_ignores_other_characters_and_extra_columns() {
    let a = SudokuGrid::from("1x0.-....9\n\n..3").unwrap();
    let mut b = SudokuGrid::new();
    b.set(0, 0, 1).unwrap();
    b.set(2, 2, 3).unwrap();
    assert_eq!(a, b);
}

#[test]
fn parse_valid_filled_text_is_correct() {
    let g = SudokuGrid::from(EASY_SOLUTION).unwrap();
    assert!(g.is_correct());
    assert!(!g.has_conflicts());
}

#[test]
fn solve_reports_solved_and_keeps_givens() {
    let mut g = SudokuGrid::from(EASY_PUZZLE).unwrap();
    assert_eq!(g.solve(), SolveOutcome::Solved);
    let solution = SudokuGrid::from(EASY_SOLUTION).unwrap();
    assert_eq!(g, solution);
    assert_eq!(g.render(), solution.render());
}

#[test]
fn solve_twice_is_a_no_op() {
    let mut g = SudokuGrid::from(EASY_PUZZLE).unwrap();
    assert_eq!(g.solve(), SolveOutcome::Solved);
    let once = g.render();
    assert_eq!(g.solve(), SolveOutcome::Solved);
    assert_eq!(g.render(), once);
    assert!(g.is_correct());
}

#[test]
fn solve_empty_grid_gives_correct_grid() {
    let mut g = SudokuGrid::new();
    assert_eq!(g.solve(), SolveOutcome::Solved);
    assert!(g.is_correct());
}

#[test]
fn solve_reports_no_solution() {
    let mut g = SudokuGrid::from("12345678.\n........9").unwrap();
    assert_eq!(g.solve(), SolveOutcome::NoSolution);
}

#[test]
fn render_layout() {
    let g = SudokuGrid::from(EASY_SOLUTION).unwrap();
    assert_eq!(
        g.render(),
        " 4  3  5 | 2  6  9 | 7  8  1 \n 6  8  2 | 5  7  1 | 4  9  3 \n 1  9  7 | 8  3  4 | 5  6  2 \n---------+---------+---------\n 8  2  6 | 1  9  5 | 3  4  7 \n 3  7  4 | 6  8  2 | 9  1  5 \n 9  5  1 | 7  4  3 | 6  2  8 \n---------+---------+---------\n 5  1  9 | 3  2  6 | 8  7  4 \n 2  4  8 | 9  5  7 | 1  3  6 \n 7  6  3 | 4  1  8 | 2  5  9 "
    );
}

#[test]
fn render_empty_cells_as_dots() {
    let mut g = SudokuGrid::new();
    g.set(0, 4, 7).unwrap();
    let text = g.render();
    let first = text.lines().next().unwrap();
    assert_eq!(first, " .  .  . | .  7  . | .  .  . ");
    assert_eq!(text.lines().count(), 11);
}
