use sudoku::Board;

#[test]
fn test_gen_map() {
    let board = Board {
        height: 3,
        width: 3,
        ..Default::default()
    };
    //  0, 1, 2, 3, 4, 5, 6, 7, 8,
    //  9,10,11,12,13,14,15,16,17,
    // 18,19,20,21,22,23,24,25,26,
    // 27,28,29,30,31,32,33,34,35,
    // 36,37,38,39,40,41,42,43,44,
    // 45,45,47,48,49,50,51,52,53,
    // 54,55,56,57,58,59,60,61,62,
    // 63,64,65,66,67,68,69,70,71,
    // 72,73,74,75,76,77,78,79,80,
    let map = board.gen_map();
    assert_eq!(map[0], [
            1, 2, 3, 4, 5, 6, 7, 8,
        9, 10,11,
        18,19,20,
        27,
        36,
        45,
        54,
        63,
        72,
    ]);
    assert_eq!(map[30], [
                 3,
                 12,
                 21,
        27,28,29,   31,32,33,34,35,
                 39,40,41,
                 48,49,50,
                 57,
                 66,
                 75,
    ]);

    let board = Board {
        height: 3,
        width: 2,
        ..Default::default()
    };
    //  0, 1, 2, 3, 4, 5,
    //  6, 7, 8, 9,10,11,
    // 12,13,14,15,16,17,
    // 18,19,20,21,22,23,
    // 24,25,26,27,28,29,
    // 30,31,32,33,34,35,
    let map = board.gen_map();
    assert_eq!(map[15], [
               2, 3,
               8, 9,
        12,13,14   ,16,17,
                 21,
                 27,
                 33,
    ]);
    assert_eq!(map[35], [
                        5,
                       11,
                       17,
                    22,23,
                    28,29,
        30,31,32,33,34,
    ]);
}

#[test]
fn test_is_solved() {
    let mut solved_board = Board {
        height: 3,
        width: 3,
        nums: vec![
            9,2,6,1,7,8,5,4,3,
            4,7,3,6,5,2,1,9,8,
            8,5,1,9,4,3,6,2,7,
            6,8,5,2,3,1,9,7,4,
            7,3,4,8,9,5,2,6,1,
            2,1,9,4,6,7,8,3,5,
            5,6,8,7,2,4,3,1,9,
            3,4,2,5,1,9,7,8,6,
            1,9,7,3,8,6,4,5,2,
        ]
    };
    assert_eq!(solved_board.is_solved(), true);
    solved_board.nums[12] = 1;
    assert_eq!(solved_board.is_solved(), false);
    solved_board.nums[12] = 0;
    assert_eq!(solved_board.is_solved(), false);
    solved_board.nums[12] = 10;
    assert_eq!(solved_board.is_solved(), false);
}

#[test]
fn test_solve_empty() {
    let board1 = Board {
        height: 4,
        width: 3,
        nums: vec![0; 3*3*4*4],
    };
    let solved1 = board1.solve();
    assert!(solved1.is_some());
    assert!(solved1.unwrap().is_solved());

    let board2 = Board {
        height: 2,
        width: 2,
        nums: vec![0; 2*2*2*2],
    };
    let solved2 = board2.solve();
    assert!(solved2.is_some());
    assert!(solved2.unwrap().is_solved());
}

#[test]
fn test_solve_partial() {
    let board = Board {
        height: 2,
        width: 3,
        nums: vec![
            1,0,4,0,3,6,
            0,0,6,1,0,0,
            0,4,1,0,2,5,
            3,0,2,4,0,0,
            2,0,3,0,0,4,
            4,0,5,2,0,3,
        ],
    };
    let solved = board.solve();
    assert!(solved.is_some());
    assert!(solved.unwrap().is_solved());
}

#[test]
fn test_map_symmetric_irreflexive() {
    // 6x6 grid with 3x2 boxes: the map never lists a cell for itself,
    // and lists j for i exactly when it lists i for j.
    let board = Board {
        height: 3,
        width: 2,
        nums: vec![0; 36],
    };
    let map = board.gen_map();
    assert_eq!(map.len(), 36);
    for i in 0..36 {
        assert!(!map[i].contains(&i));
        for j in 0..36 {
            assert_eq!(map[i].contains(&j), map[j].contains(&i));
        }
    }
}

#[test]
fn test_map_degenerate_single_cell() {
    // A 1x1 geometry has one cell and an empty conflict set.
    let board = Board {
        height: 1,
        width: 1,
        nums: vec![0],
    };
    let map = board.gen_map();
    assert_eq!(map.len(), 1);
    assert!(map[0].is_empty());

    let solved = board.solve().unwrap();
    assert_eq!(solved.nums, vec![1]);
    assert!(solved.is_solved());
}

#[test]
fn test_solve_empty_standard() {
    // An empty standard 9x9 board always solves to a solved grid.
    let board = Board {
        height: 3,
        width: 3,
        ..Default::default()
    };
    let solved = board.solve();
    assert!(solved.is_some());
    assert!(solved.unwrap().is_solved());
}

#[test]
fn test_solve_rejects_invalid() {
    // Two equal values in one row: solve refuses to search at all.
    let mut board = Board {
        height: 2,
        width: 2,
        nums: vec![0; 16],
    };
    board.nums[0] = 3;
    board.nums[1] = 3;
    assert!(board.solve().is_none());

    // An out-of-range value is rejected as well.
    let mut board2 = Board {
        height: 2,
        width: 2,
        nums: vec![0; 16],
    };
    board2.nums[5] = 5;
    assert!(board2.solve().is_none());
}

#[test]
fn test_solve_deterministic() {
    // Solving the same board twice yields identical grids.
    let board = Board {
        height: 2,
        width: 3,
        nums: vec![
            1,0,4,0,3,6,
            0,0,6,1,0,0,
            0,4,1,0,2,5,
            3,0,2,4,0,0,
            2,0,3,0,0,4,
            4,0,5,2,0,3,
        ],
    };
    let first = board.solve().unwrap();
    let second = board.solve().unwrap();
    assert_eq!(first.nums, second.nums);
    assert_eq!(first.height, second.height);
    assert_eq!(first.width, second.width);
}

#[test]
fn test_solve_keeps_clues() {
    // The solved grid keeps every preset clue in place.
    let board = Board {
        height: 2,
        width: 2,
        nums: vec![
            1,0,3,0,
            0,4,0,2,
            2,0,4,0,
            0,3,0,1,
        ],
    };
    let solved = board.solve().unwrap();
    assert!(solved.is_solved());
    for i in 0..16 {
        if board.nums[i] != 0 {
            assert_eq!(solved.nums[i], board.nums[i]);
        }
    }
}

#[test]
fn test_one_soulution() {
    // A completely solved board trivially has one solution.
    let solved_board = Board {
        height: 3,
        width: 3,
        nums: vec![
            9,2,6,1,7,8,5,4,3,
            4,7,3,6,5,2,1,9,8,
            8,5,1,9,4,3,6,2,7,
            6,8,5,2,3,1,9,7,4,
            7,3,4,8,9,5,2,6,1,
            2,1,9,4,6,7,8,3,5,
            5,6,8,7,2,4,3,1,9,
            3,4,2,5,1,9,7,8,6,
            1,9,7,3,8,6,4,5,2,
        ]
    };
    assert!(solved_board.one_soulution());

    // Clearing a single cell leaves exactly one way to refill it.
    let mut one_gap = Board {
        height: 3,
        width: 3,
        nums: solved_board.nums.clone(),
    };
    one_gap.nums[40] = 0;
    assert!(one_gap.one_soulution());

    // An empty 4x4 board has many solutions.
    let empty = Board {
        height: 2,
        width: 2,
        nums: vec![0; 16],
    };
    assert!(!empty.one_soulution());

    // A board whose clues already conflict does not report a unique solution.
    let mut stuck = Board {
        height: 2,
        width: 2,
        nums: vec![0; 16],
    };
    stuck.nums[0] = 1;
    stuck.nums[1] = 1;
    assert!(!stuck.one_soulution());
}
