use sudoku::strategy::step::Step;
use sudoku::strategy::{Strategy, StrategySolver};
use sudoku::{parse_sudoku, Solver, SolverError, Sudoku};

#[test]
fn solves_sudoku() {
    let expected = vec![
        5, 3, 4, 6, 7, 8, 9, 1, 2,
        6, 7, 2, 1, 9, 5, 3, 4, 8,
        1, 9, 8, 3, 4, 2, 5, 6, 7,
        8, 5, 9, 7, 6, 1, 4, 2, 3,
        4, 2, 6, 8, 5, 3, 7, 9, 1,
        7, 1, 3, 9, 2, 4, 8, 5, 6,
        9, 6, 1, 5, 3, 7, 2, 8, 4,
        2, 8, 7, 4, 1, 9, 6, 3, 5,
        3, 4, 5, 2, 8, 6, 1, 7, 9,
    ];
    let sudoku = r"
        53. .7. ...
        6.. 195 ...
        .98 ... .6.
        8.. .6. ..3
        4.. 8.3 ..1
        7.. .2. ..6
        .6. ... 28.
        ... 419 ..5
        ... .8. .79
    ";

    let expected = Sudoku::new(expected).unwrap();
    let sudoku = parse_sudoku(sudoku).unwrap();
    let result = Solver::find_unique(&sudoku);

    assert!(result.is_ok());
    let actual = result.unwrap();
    assert_eq!(expected, actual);
}

#[test]
fn fails_to_solve_invalid_sudoku() {
    let sudoku = "..9.287..8.6..4..5..3.....46.........2.71345.........23.....5..9..4..8.7..125.3..";

    let sudoku = parse_sudoku(sudoku).unwrap();
    assert_eq!(SolverError::Unsolvable, Solver::find_unique(&sudoku).unwrap_err());
}

#[test]
fn finds_2_solutions() {
    let sudoku = ".39...12....9.7...8..4.1..6.42...79...........91...54.5..1.9..3...8.5....14...87.";
    let sudoku = parse_sudoku(sudoku).unwrap();

    let solver = Solver::find_all(&sudoku);
    assert_eq!(2, solver.solutions().len());

    let expected = vec![
        parse_sudoku("439658127156927384827431956342516798785294631691783542578149263263875419914362875").unwrap(),
        parse_sudoku("439658127156927384827431956642513798785294631391786542578149263263875419914362875").unwrap(),
    ];

    assert_eq!(SolverError::TooManySolutions(2), Solver::find_unique(&sudoku).unwrap_err());
    assert!(solver.solutions().iter().all(|solution| expected.contains(solution)));
}

#[test]
fn solve_hard_sudokus() {
    let sudokus = [
        r"...1.4.96 ..9....1. 1.59..... ..4..1972 .18792.3. 2974..1.8 ...2.83.9 48.379... 9..5.678.",
        // Y-Wing
        r"51.394.69 .631..4.9 ..47.6.31 ...4..1.. 43..71..2 1.82.9.4. ...942316 641..3..7 329617..4",
    ];

    for sudoku in sudokus.iter() {
        let sudoku = parse_sudoku(sudoku).unwrap();
        assert!(Solver::find_unique(&sudoku).is_ok());
    }
}

#[test]
fn solve_sudokus() {
    let sudokus = vec![
        r"4.....8.5 .3....... ...7..... .2.....6. ....8.4.. ....1.... ...6.3.7. 5..2..... 1.4......",
    ];

    let solutions = vec![
        r"417369825 632158947 958724316 825437169 791586432 346912758 289643571 573291684 164875293",
    ];

    let solver = StrategySolver::new();

    for (&sudoku, solution) in sudokus.iter().zip(solutions) {
        let sudoku = parse_sudoku(sudoku).unwrap();
        let solution = parse_sudoku(solution).unwrap();

        let actual = solver.solve(&sudoku, false);
        assert!(actual.is_ok());
        let (actual, _) = actual.unwrap();
        assert!(actual.is_solved());
        assert_eq!(solution, actual);
    }
}

fn every_house_holds_each_digit_once(sudoku: &Sudoku) {
    for line in sudoku.get_rows().iter().chain(sudoku.get_cols().iter()).chain(sudoku.get_blocks().iter()) {
        let mut digits = line.iter().map(|c| c.digit()).collect::<Vec<_>>();
        digits.sort();
        assert_eq!(vec![1, 2, 3, 4, 5, 6, 7, 8, 9], digits);
    }
}

#[test]
fn solved_boards_hold_each_digit_once_per_house() {
    let sudoku = parse_sudoku("53..7.... 6..195... .98....6. 8...6...3 4..8.3..1 7...2...6 .6....28. ...419..5 ....8..79").unwrap();
    let solved = Solver::find_unique(&sudoku).unwrap();
    every_house_holds_each_digit_once(&solved);

    let hard = parse_sudoku("4.....8.5 .3....... ...7..... .2.....6. ....8.4.. ....1.... ...6.3.7. 5..2..... 1.4......").unwrap();
    let (solved, _) = StrategySolver::new().solve(&hard, false).unwrap();
    every_house_holds_each_digit_once(&solved);
}

#[test]
fn applying_steps_never_adds_candidates() {
    let hard = parse_sudoku("4.....8.5 .3....... ...7..... .2.....6. ....8.4.. ....1.... ...6.3.7. 5..2..... 1.4......").unwrap();
    let solver = StrategySolver::new();
    let (_, steps) = solver.solve(&hard, false).unwrap();
    let mut board = hard.clone();
    board.init_candidates();
    for step in steps.iter() {
        let before = board.clone();
        solver.apply(step, &mut board);
        for index in 0..81 {
            assert!(board.get(index).candidates().count() <= before.get(index).candidates().count());
            if before.get(index).is_digit() {
                assert!(board.get(index).is_digit());
            }
        }
        assert_ne!(before, board);
    }
    assert!(board.is_solved());
}

#[test]
fn solving_twice_gives_the_same_steps() {
    let hard = parse_sudoku("4.....8.5 .3....... ...7..... .2.....6. ....8.4.. ....1.... ...6.3.7. 5..2..... 1.4......").unwrap();
    let first: Vec<Step> = StrategySolver::new().solve(&hard, false).unwrap().1;
    let second: Vec<Step> = StrategySolver::new().solve(&hard, false).unwrap().1;
    assert_eq!(first, second);
}

#[test]
fn solve_with_step_checks() {
    let sudoku = parse_sudoku("53..7.... 6..195... .98....6. 8...6...3 4..8.3..1 7...2...6 .6....28. ...419..5 ....8..79").unwrap();
    let (solved, steps) = StrategySolver::new().solve(&sudoku, true).unwrap();
    assert_eq!(Solver::find_unique(&sudoku).unwrap(), solved);
    assert!(!steps.is_empty());
}

#[test]
fn solve_reports_when_stuck() {
    let sudoku = parse_sudoku(".39...12....9.7...8..4.1..6.42...79...........91...54.5..1.9..3...8.5....14...87.").unwrap();
    let result = StrategySolver::new().solve(&sudoku, false);
    assert_eq!(SolverError::StrategyNotFound, result.unwrap_err());
    let result = StrategySolver::new().solve(&sudoku, true);
    assert!(matches!(result.unwrap_err(), SolverError::TooManySolutions(2)));
}

#[test]
fn technique_names() {
    let solver = StrategySolver::new();
    let _ = solver;
    assert_eq!("Naked Single", sudoku::strategy::algorithms::NakedSingle::new().name());
    assert_eq!("YWing", sudoku::strategy::algorithms::YWing::new().name());
}

#[test]
fn solve_returns_a_solved_grid_as_it_is() {
    let solved = parse_sudoku("534678912672195348198342567859761423426853791713924856961537284287419635345286179").unwrap();
    let (result, steps) = StrategySolver::new().solve(&solved, false).unwrap();
    assert!(steps.is_empty());
    assert_eq!(solved, result);
}
