use sudoku::Board;
use sudoku::generator::gen_board;
use sudoku::solver::ascending_order;
use sudoku::solver::descending_order;
use sudoku::generator::shuffled_order;

#[test]
fn test_gen_board_solvable() {
    // A generated puzzle is valid, passes the uniqueness check, and
    // can be solved again; so can the board emptied of all its clues.
    let board = gen_board(2, 2);
    assert_eq!(board.width, 2);
    assert_eq!(board.height, 2);
    assert_eq!(board.nums.len(), 16);
    assert!(board.one_soulution());

    let solved = board.solve();
    assert!(solved.is_some());
    let solved = solved.unwrap();
    assert!(solved.is_solved());
    for i in 0..16 {
        if board.nums[i] != 0 {
            assert_eq!(solved.nums[i], board.nums[i]);
        }
    }

    let emptied = Board {
        height: board.height,
        width: board.width,
        nums: vec![0; 16],
    };
    let resolved = emptied.solve();
    assert!(resolved.is_some());
    assert!(resolved.unwrap().is_solved());
}

#[test]
fn test_gen_board_rectangular() {
    // Generation also works with rectangular boxes.
    let board = gen_board(3, 2);
    assert_eq!(board.nums.len(), 36);
    assert!(board.one_soulution());
    let solved = board.solve();
    assert!(solved.is_some());
    assert!(solved.unwrap().is_solved());
}

#[test]
fn test_candidate_orders() {
    assert_eq!(ascending_order(4), vec![1, 2, 3, 4]);
    assert_eq!(descending_order(4), vec![4, 3, 2, 1]);

    // A shuffled order holds each candidate value exactly once.
    let mut shuffled = shuffled_order(9);
    shuffled.sort();
    assert_eq!(shuffled, vec![1, 2, 3, 4, 5, 6, 7, 8, 9]);
}
