use sudoku::{parse_sudoku, Grid, GridError, Sudoku, parse_grid, Value};

const SUDOKU: [u8; 81] = [
    5, 3, 0, 0, 7, 0, 0, 0, 0,
    6, 0, 0, 1, 9, 5, 0, 0, 0,
    0, 9, 8, 0, 0, 0, 0, 6, 0,
    8, 0, 0, 0, 6, 0, 0, 0, 3,
    4, 0, 0, 8, 0, 3, 0, 0, 1,
    7, 0, 0, 0, 2, 0, 0, 0, 6,
    0, 6, 0, 0, 0, 0, 2, 8, 0,
    0, 0, 0, 4, 1, 9, 0, 0, 5,
    0, 0, 0, 0, 8, 0, 0, 7, 9,
];

#[test]
fn sudoku_parses_from_string() {
    let sudoku = r"
        --- --- 984
        4-- 8-- 25-
        -8- -49 --3
        9-6 157 8-2
        --- --- -4-
        --- -8- 196
        -34 928 56-
        6-2 -15 37-
        --5 -6- ---
    ";
    assert!(parse_sudoku(sudoku).is_ok());
}

#[test]
fn creates_sudoku() {
    assert!(Sudoku::new(SUDOKU.to_vec()).is_ok());
}

#[test]
fn create_sudoku_fails_with_wrong_numbers() {
    let numbers = vec![
        0, 0, 0, 0, 0, 0, 9, 8, 4,
        4, 0, 0, 8, 0, 0, 2, 5, 0,
        0, 8, 0, 0, 4, 9, 0, 0, 3,
        9, 0, 6, 1, 5, 7, 8, 0, 2,
        0, 0, 0, 0, 0, 0, 0, 4, 0,
        0, 0, 0, 0, 8, 0, 1, 9, 6,
        0, 3, 4, 9, 2, 8, 5, 6, 0,
        6, 0, 2, 0, 1, 5, 3, 7, 0,
        0, 0, 5, 0, 6, 0, 0, 0, 11,
    ];
    assert!(Sudoku::new(numbers).is_err());
}

#[test]
fn creates_sudoku_fails_without_numbers() {
    assert!(Sudoku::new(vec![]).is_err());
}

#[test]
fn sudoku_test_init_candidates() {
    let sudoku: Vec<u8> = vec![
        8, 0, 0, 7, 3, 9, 0, 0, 6,
        3, 7, 0, 4, 6, 5, 0, 0, 0,
        0, 4, 0, 1, 8, 2, 0, 0, 9,
        0, 0, 0, 6, 0, 0, 0, 4, 0,
        0, 5, 4, 3, 0, 0, 6, 1, 0,
        0, 6, 0, 5, 0, 0, 0, 0, 0,
        4, 0, 0, 8, 5, 3, 0, 7, 0,
        0, 0, 0, 2, 7, 1, 0, 6, 4,
        1, 0, 0, 9, 4, 0, 0, 0, 2,
    ];

    let mut sudoku = Sudoku::new(sudoku).unwrap();
    sudoku.init_candidates();

    let c = sudoku.get(1).candidates();

    assert_eq!(2, c.count());
    assert_eq!(vec![1u8, 2], c.iter());
}

#[test]
fn test_get_row_values() {
    let sudoku = Sudoku::new(SUDOKU.to_vec()).unwrap();
    let actual = sudoku.get_row(6).iter().map(|c| c.digit()).collect::<Vec<_>>();
    let expected = vec![0u8, 6, 0, 0, 0, 0, 2, 8, 0];
    assert_eq!(expected, actual);
}

#[test]
fn test_get_col_values() {
    let sudoku = Sudoku::new(SUDOKU.to_vec()).unwrap();
    let actual = sudoku.get_col(5).iter().map(|c| c.digit()).collect::<Vec<_>>();
    let expected = vec![0u8, 5, 0, 0, 3, 0, 0, 9, 0];
    assert_eq!(expected, actual);
}

#[test]
fn cell_block_indices() {
    let sudoku = Sudoku::empty();
    let expected_blocks: Vec<u8> = vec![
        0, 0, 0, 1, 1, 1, 2, 2, 2,
        0, 0, 0, 1, 1, 1, 2, 2, 2,
        0, 0, 0, 1, 1, 1, 2, 2, 2,
        3, 3, 3, 4, 4, 4, 5, 5, 5,
        3, 3, 3, 4, 4, 4, 5, 5, 5,
        3, 3, 3, 4, 4, 4, 5, 5, 5,
        6, 6, 6, 7, 7, 7, 8, 8, 8,
        6, 6, 6, 7, 7, 7, 8, 8, 8,
        6, 6, 6, 7, 7, 7, 8, 8, 8,
    ];

    for (index, cell) in sudoku.iter().enumerate() {
        assert_eq!(expected_blocks[index], cell.block() as u8);
    }
}

#[test]
fn test_parse_sudoku() {
    let input = r"
        000 --- 984
        4.. 8.. 25.
        .8. .49 ..3
        9.6 157 8.2
        ... ... .4.
        ... .8. 196
        .34 928 56.
        6.2 .15 37.
        ..5 .6. ...
    ";
    let expected = vec![
        0, 0, 0, 0, 0, 0, 9, 8, 4,
        4, 0, 0, 8, 0, 0, 2, 5, 0,
        0, 8, 0, 0, 4, 9, 0, 0, 3,
        9, 0, 6, 1, 5, 7, 8, 0, 2,
        0, 0, 0, 0, 0, 0, 0, 4, 0,
        0, 0, 0, 0, 8, 0, 1, 9, 6,
        0, 3, 4, 9, 2, 8, 5, 6, 0,
        6, 0, 2, 0, 1, 5, 3, 7, 0,
        0, 0, 5, 0, 6, 0, 0, 0, 0,
    ];
    let expected = Sudoku::new(expected).unwrap();

    let result = parse_sudoku(input);
    assert!(result.is_ok());

    let actual = result.unwrap();
    assert_eq!(expected, actual);
}

#[test]
fn grid_parses_from_string() {
    let grid = r"
        --- --- 984
        4-- 8-- 25-
        -8- -49 --3
        9-6 157 8-2
        --- --- -4-
        --- -8- 196
        -34 928 56-
        6-2 -15 37-
        --5 -6- ---
    ";
    assert!(parse_grid(grid).is_ok());
}

#[test]
fn creates_grid() {
    let numbers = vec![
        0, 0, 0, 0, 0, 0, 9, 8, 4,
        4, 0, 0, 8, 0, 0, 2, 5, 0,
        0, 8, 0, 0, 4, 9, 0, 0, 3,
        9, 0, 6, 1, 5, 7, 8, 0, 2,
        0, 0, 0, 0, 0, 0, 0, 4, 0,
        0, 0, 0, 0, 8, 0, 1, 9, 6,
        0, 3, 4, 9, 2, 8, 5, 6, 0,
        6, 0, 2, 0, 1, 5, 3, 7, 0,
        0, 0, 5, 0, 6, 0, 0, 0, 0,
    ];
    assert!(Grid::new(numbers).is_ok());
}

#[test]
fn create_grid_fails_with_wrong_numbers() {
    let numbers = vec![
        0, 0, 0, 0, 0, 0, 9, 8, 4,
        4, 0, 0, 8, 0, 0, 2, 5, 0,
        0, 8, 0, 0, 4, 9, 0, 0, 3,
        9, 0, 6, 1, 5, 7, 8, 0, 2,
        0, 0, 0, 0, 0, 0, 0, 4, 0,
        0, 0, 0, 0, 8, 0, 1, 9, 6,
        0, 3, 4, 9, 2, 8, 5, 6, 0,
        6, 0, 2, 0, 1, 5, 3, 7, 0,
        0, 0, 5, 0, 6, 0, 0, 0, 11,
    ];
    assert!(Grid::new(numbers).is_err());
}

#[test]
fn creates_grid_fails_without_numbers() {
    assert!(Grid::new(vec![]).is_err());
}

#[test]
fn grid_errors_name_their_cause() {
    assert_eq!(GridError::WrongFieldCount(0), Sudoku::new(vec![]).unwrap_err());
    let mut fields = SUDOKU.to_vec();
    fields[80] = 11;
    assert_eq!(GridError::InvalidDigit(11), Sudoku::new(fields.clone()).unwrap_err());
    assert_eq!(GridError::InvalidDigit(11), Grid::new(fields).unwrap_err());
    assert_eq!(GridError::ParseError(4), parse_sudoku("123 x56").unwrap_err());
    assert_eq!(GridError::WrongFieldCount(3), parse_sudoku("1.3").unwrap_err());
    assert_eq!(GridError::WrongFieldCount(3), parse_grid(" 0 - 9 ").unwrap_err());
}

#[test]
fn grid_holds_its_values() {
    let grid = Grid::new(SUDOKU.to_vec()).unwrap();
    assert_eq!(Value::Number(5), grid.values()[0]);
    assert_eq!(Value::Unset, grid.values()[2]);
    assert_eq!(81, grid.values().len());
}

#[test]
fn new_leaves_candidates_to_init_candidates() {
    let mut sudoku = Sudoku::new(SUDOKU.to_vec()).unwrap();
    assert!(sudoku.get(2).is_empty());
    assert!(sudoku.get(2).candidates().is_empty());
    sudoku.init_candidates();
    assert_eq!(vec![1, 2, 4], sudoku.get(2).candidates_vec());
    assert!(sudoku.get(0).is_digit());
    assert_eq!(5, sudoku.get(0).digit());
    assert!(sudoku.get(0).candidates().is_empty());
}

#[test]
fn init_candidates_twice_keeps_the_sets() {
    let mut sudoku = Sudoku::new(SUDOKU.to_vec()).unwrap();
    sudoku.init_candidates();
    let once = sudoku.clone();
    sudoku.init_candidates();
    assert_eq!(once, sudoku);
}

#[test]
fn house_holds_twenty_cells() {
    let sudoku = Sudoku::new(SUDOKU.to_vec()).unwrap();
    let house = sudoku.get_house(40).iter().map(|c| c.index()).collect::<Vec<_>>();
    assert_eq!(
        vec![4, 13, 22, 30, 31, 32, 36, 37, 38, 39, 41, 42, 43, 44, 48, 49, 50, 58, 67, 76],
        house
    );
    let block = sudoku.get_block(4).iter().map(|c| c.index()).collect::<Vec<_>>();
    assert_eq!(vec![30, 31, 32, 39, 40, 41, 48, 49, 50], block);
    assert_eq!(9, sudoku.get_rows().len());
    assert_eq!(vec![2, 11, 20, 29, 38, 47, 56, 65, 74], sudoku.get_cols()[2].iter().map(|c| c.index()).collect::<Vec<_>>());
    assert_eq!(vec![60, 61, 62, 69, 70, 71, 78, 79, 80], sudoku.get_blocks()[8].iter().map(|c| c.index()).collect::<Vec<_>>());
}

#[test]
fn set_and_unset_digit() {
    let mut sudoku = Sudoku::new(SUDOKU.to_vec()).unwrap();
    assert!(!sudoku.is_solved());
    sudoku.set_digit(2, 4);
    assert_eq!(4, sudoku.get(2).digit());
    sudoku.unset(2);
    assert!(sudoku.get(2).is_empty());
    assert!(sudoku.get(2).candidates().is_empty());
}
