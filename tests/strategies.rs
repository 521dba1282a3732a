use sudoku::strategy::algorithms::{
    HiddenSingle, HiddenSubset, Jellyfish, LockedCandidate, NakedSingle, NakedSubset, PointingTuple,
    Swordfish, XWing, YWing,
};
use sudoku::strategy::grid::Grid;
use sudoku::strategy::Strategy;
use sudoku::{parse_sudoku, Candidates, Sudoku};

fn board(text: &str) -> Sudoku {
    parse_sudoku(text).unwrap()
}

#[test]
fn finds_naked_single() {
    let sudoku = r"
        .1.9..74.
        ...8....3
        .7.32.69.
        ..4.3.2..
        ...6.2...
        ..8.1.3..
        .81.7..3.
        3....8...
        .69..3.2.
    ";

    let mut sudoku = board(sudoku);
    sudoku.init_candidates();
    let strategy = NakedSingle::new();

    let step = strategy.find(&sudoku).unwrap();
    assert!(step.has_digit());
    assert_eq!((20_usize, 5_u8), *step.digit().unwrap());
}

#[test]
fn find_naked_single_examples() {
    let sudokus = [
        r"...26.7.1 68..7..9. 19...45.. 82.1...4 ...46.29. ..5...3.2 8..93... 74.4..5.. 367.3.18...",
    ];

    let strategy = NakedSingle::new();
    for &sudoku in sudokus.iter() {
        let mut sudoku = board(sudoku);
        sudoku.init_candidates();
        assert!(strategy.find(&sudoku).is_some());
    }
}

#[test]
fn finds_naked_single_not_found() {
    let sudoku = r"
        ..4...2..
        76...3...
        9.....75.
        ...7.831.
        .....9...
        .321.68..
        ..5.....8
        ...9...34
        ..7...1..
    ";

    let mut sudoku = board(sudoku);
    sudoku.init_candidates();
    let strategy = NakedSingle::new();

    assert_eq!(None, strategy.find(&sudoku));
}

#[test]
fn naked_single_eliminates_in_house() {
    let mut sudoku = board(".1.9..74. ...8....3 .7.32.69. ..4.3.2.. ...6.2... ..8.1.3.. .81.7..3. 3....8... .69..3.2.");
    sudoku.init_candidates();
    let step = NakedSingle::new().find(&sudoku).unwrap();
    assert!(!step.eliminated_candidates().is_empty());
    for &(index, digit) in step.eliminated_candidates() {
        assert_eq!(5, digit);
        assert!(sudoku.get(index).has_candidate(5));
        assert!(sudoku.get(index).sees(sudoku.get(20)));
    }
}

#[test]
fn hidden_single_found() {
    let sudoku = r"
        .28..7...
        .16.83.7.
        ....2.851
        13729....
        ...73....
        ....463.7
        29..7....
        ...86.14.
        ...3..7..
    ";

    let mut sudoku = board(sudoku);
    sudoku.init_candidates();
    let strategy = HiddenSingle::new();

    let step = strategy.find(&sudoku).unwrap();
    assert_eq!(Some(&(21usize, 6u8)), step.digit());
    assert_eq!(&vec![(21usize, 4u8), (21usize, 9u8), (3usize, 6)], step.eliminated_candidates());
}

#[test]
fn hidden_single_eliminates_candidates_in_house() {
    let sudoku = r"
        4.....8.5
        .3.......
        ...7.....
        .2.....6.
        ....8.4..
        ....1....
        ...6.3.7.
        5..2.....
        1.4......
    ";

    let mut sudoku = board(sudoku);
    sudoku.init_candidates();
    sudoku.get_mut(46).unset_candidate(4);
    let strategy = HiddenSingle::new();

    let step = strategy.find(&sudoku).unwrap();
    assert_eq!(Some(&(65_usize, 3_u8)), step.digit());
    assert_eq!(
        &vec![
            (65_usize, 6_u8),
            (65_usize, 7_u8),
            (65_usize, 8_u8),
            (65_usize, 9_u8),
            (29_usize, 3_u8),
            (38_usize, 3_u8),
            (47_usize, 3_u8),
            (69_usize, 3_u8),
            (70_usize, 3_u8),
            (71_usize, 3_u8),
        ],
        step.eliminated_candidates()
    );
}

#[test]
fn hidden_single_not_found() {
    let sudoku = r"
        .28..7...
        .16.83.7.
        ...62.851
        13729....
        ...73....
        ....463.7
        29..7....
        ...86.14.
        ...3..7..
    ";

    let mut sudoku = board(sudoku);
    sudoku.init_candidates();
    let strategy = HiddenSingle::new();

    assert_eq!(None, strategy.find(&sudoku));
}

#[test]
fn find_hidden_subset() {
    let sudoku = r"
        ....6....
        ....42736
        ..673..4.
        .94....68
        ....964.7
        6.7.5.923
        1......85
        .6..8.271
        ..5.1..94
    ";

    let mut sudoku = board(sudoku);
    sudoku.init_candidates();
    let strategy = HiddenSubset::pair();

    let step = strategy.find(&sudoku);
    assert!(step.is_some());

    let step = step.unwrap();
    let expected_eliminated: Vec<(usize, u8)> = vec![
        (0, 2),
        (0, 3),
        (0, 5),
        (0, 8),
        (0, 9),
        (1, 1),
        (1, 2),
        (1, 3),
        (1, 5),
        (1, 8),
    ];
    assert_eq!(&expected_eliminated, step.eliminated_candidates());
}

#[test]
fn find_hidden_subset_pair() {
    let sudoku = r"
        .49132...
        .81479...
        327685914
        .96.518..
        .75.28...
        .38.46..5
        853267...
        712894563
        964513...
    ";

    let mut sudoku = board(sudoku);
    sudoku.init_candidates();
    let strategy = HiddenSubset::pair();

    let step = strategy.find(&sudoku);
    assert!(step.is_some());

    let step = step.unwrap();
    assert_eq!(&vec![(44, 6)], step.eliminated_candidates());
}

#[test]
fn find_jellyfish() {
    let sudoku = r"
        ..17538..
        .5......7
        7..89.1..
        ...6.157.
        625478931
        .179.54..
        ....67..4
        .7.....1.
        ..63.97..
    ";

    let mut sudoku = board(sudoku);
    sudoku.init_candidates();
    let strategy = Jellyfish::new();

    let step = strategy.find(&sudoku).unwrap();
    assert_eq!(
        &vec![
            (9, 2),
            (13, 2),
            (16, 2),
            (25, 2),
            (26, 2),
            (54, 2),
            (61, 2),
            (63, 2),
            (67, 2),
            (71, 2),
        ],
        step.eliminated_candidates()
    );

    let two = Candidates::new(&[2]);
    assert_eq!(
        &vec![
            (0, two),
            (7, two),
            (8, two),
            (31, two),
            (35, two),
            (49, two),
            (52, two),
            (53, two),
            (72, two),
            (76, two),
            (79, two),
            (80, two),
        ],
        step.locked_candidates(),
    );
}

#[test]
fn jellyfish_ignores_other_fishes() {
    let sudokus = [
        r"16.543.7. .786.1435 4358.76.1 72.458.69 6..912.57 ...376..4 .16.3..4. 3...8..16 ..71645.3",
    ];

    let strategy = Jellyfish::new();
    for sudoku in sudokus.iter() {
        let mut sudoku = board(sudoku);
        sudoku.init_candidates();
        let step = strategy.find(&sudoku);
        assert_eq!(None, step);
    }
}

#[test]
fn locked_candidate_row_found() {
    let sudoku = r"
        318..54.6
        ...6.381.
        ..6.8.5.3
        864952137
        123476958
        795318264
        .3.5..78.
        .....73.5
        ....39641
    ";

    let mut sudoku = board(sudoku);
    sudoku.init_candidates();
    let strategy = LockedCandidate::new();

    let step = strategy.find(&sudoku).unwrap();
    let seven = Candidates::new(&[7]);
    assert_eq!(&vec![(10_usize, seven), (11_usize, seven)], step.locked_candidates());
    assert_eq!(&vec![(19_usize, 7)], step.eliminated_candidates());
}

#[test]
fn locked_candidate_column_found() {
    let sudoku = r"
        762..8..1
        98......6
        15.....87
        478..3169
        526..9873
        3198..425
        835..1692
        297685314
        641932758
    ";

    let mut sudoku = board(sudoku);
    sudoku.init_candidates();

    let strategy = LockedCandidate::new();

    let step = strategy.find(&sudoku).unwrap();
    let four = Candidates::new(&[4]);
    assert_eq!(&vec![(14_usize, four), (23_usize, four)], step.locked_candidates());
    assert_eq!(
        &vec![(3_usize, 4), (4_usize, 4), (12_usize, 4), (13_usize, 4), (21_usize, 4), (22_usize, 4)],
        step.eliminated_candidates(),
    );
}

#[test]
fn locked_candidate_not_in_grid() {
    let sudoku = r"
        984......
        ..25...4.
        ..19.4..2
        ..6.9723.
        ..36.2...
        2.9.3561.
        195768423
        427351896
        638..9751
    ";

    let mut sudoku = board(sudoku);
    sudoku.init_candidates();

    // remove the existing locked candidates
    sudoku.get_mut(24).unset_candidate(5);
    sudoku.get_mut(40).unset_candidate(8);

    let strategy = LockedCandidate::new();
    assert_eq!(None, strategy.find(&sudoku));
}

#[test]
fn pointing_tuple_in_row_found() {
    let sudoku = r"
        984......
        ..25...4.
        ..19.4..2
        ..6.9723.
        ..36.2...
        2.9.3561.
        195768423
        427351896
        638..9751
    ";

    let mut sudoku = board(sudoku);
    sudoku.init_candidates();
    let strategy = PointingTuple::new();

    let step = strategy.find(&sudoku).expect("Should return step");
    let five = Candidates::new(&[5]);
    assert_eq!(&vec![(18, five), (19, five)], step.locked_candidates());
    assert_eq!(&vec![(24_usize, 5)], step.eliminated_candidates());
}

#[test]
fn pointing_tuple_in_col_found() {
    let sudoku = r"
        957842136
        .1.97....
        ..41...9.
        64.59..12
        ....61...
        .91..86..
        38..194..
        4.9.8..21
        1....4.6.
    ";

    let mut sudoku = board(sudoku);
    sudoku.init_candidates();
    // remove a few candidates to reflect the example exactly
    sudoku.get_mut(68).unset_candidate(6);
    sudoku.get_mut(38).unset_candidate(5);
    let strategy = PointingTuple::new();

    let step = strategy.find(&sudoku).expect("Should return step");
    let seven = Candidates::new(&[7]);
    assert_eq!(&vec![(64, seven), (73, seven)], step.locked_candidates());
    assert_eq!(&vec![(37_usize, 7)], step.eliminated_candidates());
}

#[test]
fn find_naked_pair() {
    let sudoku = r"
        7..849.3.
        928135..6
        4..267.89
        642783951
        397451628
        8156923..
        2.4516.93
        1....8.6.
        5....4.1.
    ";

    let mut sudoku = board(sudoku);
    sudoku.init_candidates();
    let strategy = NakedSubset::pair();

    let step = strategy.find(&sudoku).unwrap();
    assert_eq!(&vec![(64, 3)], step.eliminated_candidates());
    assert_eq!(
        &vec![(65, Candidates::new(&[3, 9])), (66, Candidates::new(&[3, 9]))],
        step.locked_candidates(),
    );
}

#[test]
fn find_naked_subset_triple_with_issue() {
    let sudoku = r"
        4.....8.5
        .3.......
        ...7.....
        .2.....6.
        ....8.4..
        ....1....
        ...6.3.7.
        5..2.....
        1.4......
    ";

    let mut sudoku = board(sudoku);
    sudoku.init_candidates();
    let strategy = NakedSubset::triple();

    let step = strategy.find(&sudoku).unwrap();
    assert_eq!(
        &vec![(58, 9), (60, 2), (60, 9), (62, 2), (62, 8), (62, 9)],
        step.eliminated_candidates(),
    );
}

#[test]
fn find_naked_triple() {
    let sudoku = r"
        ...29438.
        ...17864.
        48.3561..
        ..48375.1
        ...4157..
        5..629834
        953782416
        126543978
        .4.961253
    ";

    let mut sudoku = board(sudoku);
    sudoku.init_candidates();
    let strategy = NakedSubset::triple();

    let step = strategy.find(&sudoku).unwrap();
    assert_eq!(&vec![(1, 6)], step.eliminated_candidates(),);
    assert_eq!(
        &vec![
            (10, Candidates::new(&[3, 9])),
            (28, Candidates::new(&[6, 9])),
            (37, Candidates::new(&[3, 6, 9])),
        ],
        step.locked_candidates(),
    );
}

#[test]
fn find_naked_quadruple() {
    let sudoku = r"
        532786...
        978241.6.
        ..1953287
        .254..67.
        ..3617.52
        7..5.....
        ...1.....
        ...8.51.6
        ...3...98
    ";

    let mut sudoku = board(sudoku);
    sudoku.init_candidates();
    let strategy = NakedSubset::quadruple();

    let step = strategy.find(&sudoku).unwrap();
    assert_eq!(
        &vec![
            (54, 4),
            (54, 6),
            (55, 4),
            (55, 6),
            (55, 9),
            (63, 4),
            (72, 4),
            (72, 6),
            (73, 4),
            (73, 6)
        ],
        step.eliminated_candidates(),
    );
    assert_eq!(
        &vec![
            (56, Candidates::new(&[4, 6, 7, 9])),
            (64, Candidates::new(&[4, 9])),
            (65, Candidates::new(&[4, 7, 9])),
            (74, Candidates::new(&[4, 6, 7])),
        ],
        step.locked_candidates(),
    );
}

#[test]
fn fix_naked_subset_pair() {
    let sudoku = r"
        ..81.....
        5.392....
        ...78.6..
        145698237
        .3.247.1.
        7823..964
        3.4869.5.
        8..5..4.9
        .5.4..386
    ";

    let mut sudoku = board(sudoku);
    sudoku.init_candidates();
    sudoku.get_mut(23).unset_candidate(4);
    sudoku.get_mut(26).unset_candidate(1);
    sudoku.get_mut(26).unset_candidate(2);
    sudoku.get_mut(5).unset_candidate(3);
    sudoku.get_mut(5).unset_candidate(5);

    let strategy = NakedSubset::pair();

    let step = strategy.find(&sudoku);

    if let Some(step) = step {
        for &(index, digit) in step.eliminated_candidates() {
            assert!(sudoku.get(index).has_candidate(digit));
        }
    }
}

#[test]
fn find_swordfish() {
    let sudoku = r"
        16.543.7.
        .786.1435
        4358.76.1
        72.458.69
        6..912.57
        ...376..4
        .16.3..4.
        3...8..16
        ..71645.3
    ";

    let mut sudoku = board(sudoku);
    sudoku.init_candidates();
    let strategy = Swordfish::new();

    let step = strategy.find(&sudoku).unwrap();

    assert_eq!(&vec![(52, 2), (54, 2)], step.eliminated_candidates());
    let two = Candidates::new(&[2]);
    assert_eq!(
        &vec![(9, two), (13, two), (22, two), (25, two), (72, two), (79, two)],
        step.locked_candidates(),
    );
}

#[test]
fn find_swordfish_in_multiple_sudokus() {
    let sudokus = [
        r"926...1.. 537.1.42. 841...6.3 259734816 714.6..3. 36812..4. 1.2....82 485.7136. 6.3.....1",
        r".2..43.69 ..38962.. 96..25.3. 89.56..13 6...3.... .3..81.26 3...1..7. ..96743.2 27.358.9.",
    ];

    let strategy = Swordfish::new();
    for sudoku in sudokus.iter() {
        let mut sudoku = board(sudoku);
        sudoku.init_candidates();

        assert!(strategy.find(&sudoku).is_some());
    }
}

#[test]
fn ignores_xwings() {
    let sudokus = [
        r"5..27134....6.3....3.8.9..7..3..7.....7..8.3.6..31472..8.79...3...3..6.....1..5..",
    ];

    let strategy = Swordfish::new();
    for sudoku in sudokus.iter() {
        let mut sudoku = board(sudoku);
        sudoku.init_candidates();

        assert!(strategy.find(&sudoku).is_none());
    }
}

#[test]
fn find_xwing_in_rows() {
    let sudoku = r"
        .41729.3.
        760..34.2
        .3264.719
        4.39..17.
        6.7..49.3
        19537..24
        214567398
        376.9.541
        958431267
    ";

    let mut sudoku = board(sudoku);
    sudoku.init_candidates();
    let strategy = XWing::new();

    let step = strategy.find(&sudoku).unwrap();

    assert_eq!(&vec![(31, 5)], step.eliminated_candidates());
    let five = Candidates::new(&[5]);
    assert_eq!(&vec![(13, five), (16, five), (40, five), (43, five)], step.locked_candidates());
}

#[test]
fn find_xwing_in_columns() {
    let sudoku = r"
        98..62753
        .65..3...
        327.5...6
        79..3.5..
        .5...9...
        832.45..9
        673591428
        249.87..5
        518.2...7
    ";

    let mut sudoku = board(sudoku);
    sudoku.init_candidates();
    let strategy = XWing::new();

    let step = strategy.find(&sudoku).unwrap();
    assert_eq!(
        &vec![(12, 1), (15, 1), (16, 1), (17, 1), (38, 1), (39, 1), (42, 1), (43, 1), (44, 1)],
        step.eliminated_candidates(),
    );
    let one = Candidates::new(&[1]);
    assert_eq!(&vec![(9, one), (13, one), (36, one), (40, one)], step.locked_candidates());
}

#[test]
fn detect_xwing_in_sudokus() {
    let sudokus = [
        r"5..27134....6.3....3.8.9..7..3..7.....7..8.3.6..31472..8.79...3...3..6.....1..5..",
    ];

    let strategy = XWing::new();
    for sudoku in sudokus.iter() {
        let mut sudoku = board(sudoku);
        sudoku.init_candidates();

        assert!(strategy.find(&sudoku).is_some());
    }
}

#[test]
fn xwing_ignores_other_fishes() {
    let sudokus = [
        r"16.543.7..786.14354358.76.172.458.696..912.57...376..4.16.3..4.3...8..16..71645.3",
    ];

    let strategy = XWing::new();
    for sudoku in sudokus.iter() {
        let mut sudoku = board(sudoku);
        sudoku.init_candidates();

        let step = strategy.find(&sudoku);
        assert_eq!(None, step);
    }
}

#[test]
fn find_ywing() {
    let sudoku = r"
        9..24....
        .5.69.231
        .2..5..9.
        .9.7..32.
        ..29356.7
        .7...29..
        .69.2..73
        51..79.62
        2.7.86..9
    ";

    let mut sudoku = board(sudoku);
    sudoku.init_candidates();
    let strategy = YWing::new();

    let step = strategy.find(&sudoku).unwrap();
    assert_eq!(&vec![(65, 4)], step.eliminated_candidates());
    assert_eq!(
        &vec![
            (1, Candidates::new(&[3, 8])),
            (11, Candidates::new(&[4, 8])),
            (73, Candidates::new(&[3, 4])),
        ],
        step.locked_candidates(),
    );
}

#[test]
fn find_ywing_eliminate_in_pivot_box() {
    let sudoku = r"
        .6..8..3.
        895...7.2
        .........
        179......
        246851.7.
        ..89.712.
        .....8..7
        617.3.58.
        98..7..6.
    ";

    let mut sudoku = board(sudoku);
    sudoku.init_candidates();
    // naked subset (2)
    sudoku.get_mut(53).unset_candidates(&[3, 5]);
    // naked subset (2)
    sudoku.get_mut(33).unset_candidate(3);
    sudoku.get_mut(35).unset_candidate(3);
    // naked subset (4)
    sudoku.get_mut(24).unset_candidates(&[4, 9]);
    sudoku.get_mut(33).unset_candidate(4);
    // naked subset (4)
    sudoku.get_mut(26).unset_candidates(&[1, 4, 5, 9]);
    // naked subset (2)
    sudoku.get_mut(21).unset_candidate(6);
    sudoku.get_mut(22).unset_candidate(6);
    sudoku.get_mut(23).unset_candidate(6);
    // locked candidate
    sudoku.get_mut(21).unset_candidate(3);
    sudoku.get_mut(23).unset_candidate(3);
    // naked subset (4)
    sudoku.get_mut(14).unset_candidate(4);
    sudoku.get_mut(32).unset_candidates(&[2, 4]);
    // locked candidate
    sudoku.get_mut(57).unset_candidate(2);
    sudoku.get_mut(58).unset_candidate(2);
    sudoku.get_mut(75).unset_candidate(2);
    sudoku.get_mut(77).unset_candidate(2);
    // locked candidate
    sudoku.get_mut(57).unset_candidate(5);
    // XWing
    sudoku.get_mut(23).unset_candidate(9);
    sudoku.get_mut(60).unset_candidate(9);
    // naked subset (4)
    sudoku.get_mut(57).unset_candidate(4);
    sudoku.get_mut(58).unset_candidate(4);
    sudoku.get_mut(61).unset_candidate(4);
    let strategy = YWing::new();

    let step = strategy.find(&sudoku).unwrap();
    assert_eq!(&vec![(25, 9)], step.eliminated_candidates());
    assert_eq!(
        &vec![
            (6, Candidates::new(&[4, 9])),
            (16, Candidates::new(&[1, 4])),
            (61, Candidates::new(&[1, 9])),
        ],
        step.locked_candidates(),
    );
}

#[test]
fn find_ywing_in_same_box() {
    let sudoku = r"
        .67918.2.
        ...63..7.
        ..32.7618
        8..1.37..
        3197..862
        7..8.91..
        6.53724.1
        .7..81..6
        .3..962.7
    ";

    let mut sudoku = board(sudoku);
    sudoku.init_candidates();
    sudoku.get_mut(9).unset_candidates(&[4, 5, 9]);
    sudoku.get_mut(10).unset_candidates(&[4, 5, 9]);
    sudoku.get_mut(11).unset_candidates(&[2, 4]);
    sudoku.get_mut(19).unset_candidate(5);

    let strategy = YWing::new();

    let step = strategy.find(&sudoku).unwrap();
    assert_eq!(&vec![(63, 2)], step.eliminated_candidates());
    assert_eq!(
        &vec![
            (9, Candidates::new(&[1, 2])),
            (65, Candidates::new(&[2, 4])),
            (72, Candidates::new(&[1, 4])),
        ],
        step.locked_candidates(),
    );
}

#[test]
fn detect_no_ywing() {
    let sudoku = r"
        ...5...29
        ....821..
        8..9....3
        .512.7.4.
        .........
        .6...125.
        1....8...
        ..514....
        67...5...
    ";

    let mut sudoku = board(sudoku);
    sudoku.init_candidates();
    let strategy = YWing::new();

    assert_eq!(None, strategy.find(&sudoku));
}

#[test]
fn grid_test_init_candidates() {
    let sudoku: Vec<u8> = vec![
        8, 0, 0, 7, 3, 9, 0, 0, 6,
        3, 7, 0, 4, 6, 5, 0, 0, 0,
        0, 4, 0, 1, 8, 2, 0, 0, 9,
        0, 0, 0, 6, 0, 0, 0, 4, 0,
        0, 5, 4, 3, 0, 0, 6, 1, 0,
        0, 6, 0, 5, 0, 0, 0, 0, 0,
        4, 0, 0, 8, 5, 3, 0, 7, 0,
        0, 0, 0, 2, 7, 1, 0, 6, 4,
        1, 0, 0, 9, 4, 0, 0, 0, 2,
    ];

    let mut grid = Grid::new(&Sudoku::new(sudoku).unwrap());
    grid.init_candidates();

    let cell = grid.get(0, 1);
    assert!(cell.is_empty());

    let c = cell.candidates();
    assert_eq!(2, c.count());
    assert_eq!(vec![1u8, 2], c.iter());
}
