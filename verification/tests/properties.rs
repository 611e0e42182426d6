use twenty48::{Arrow, Board};

fn value_sum(cells: &[[u8; 4]; 4]) -> u64 {
    let mut total = 0u64;
    for row in cells {
        for &rank in row {
            if rank != 0 {
                total += 1u64 << rank;
            }
        }
    }
    total
}

fn occupied_count(cells: &[[u8; 4]; 4]) -> usize {
    cells.iter().flatten().filter(|&&rank| rank != 0).count()
}

#[test]
fn test_down_scenario() {
    let mut board = Board::from([[0, 0, 0, 1], [0, 0, 0, 0], [0, 0, 3, 0], [0, 0, 3, 1]]);
    board.merge(Arrow::Down);
    assert_eq!(
        board.board,
        [[0, 0, 0, 0], [0, 0, 0, 0], [0, 0, 0, 0], [0, 0, 4, 2]]
    );
    assert_eq!(board.score(), 20);
}

#[test]
fn test_right_scenario() {
    let mut board = Board::from([[0; 4], [0; 4], [0; 4], [4, 4, 4, 4]]);
    board.merge(Arrow::Right);
    assert_eq!(
        board.board,
        [[0, 0, 0, 0], [0, 0, 0, 0], [0, 0, 0, 0], [0, 0, 5, 5]]
    );
    assert_eq!(board.score(), 64);
}

#[test]
fn test_left_scenario() {
    let mut board = Board::from([[0; 4], [0; 4], [0; 4], [1, 0, 0, 1]]);
    board.merge(Arrow::Left);
    assert_eq!(
        board.board,
        [[0, 0, 0, 0], [0, 0, 0, 0], [0, 0, 0, 0], [2, 0, 0, 0]]
    );
    assert_eq!(board.score(), 4);
}

#[test]
fn test_no_second_merge_in_one_move() {
    // [1 1 2] must become [2 2], never cascade into [3].
    let mut board = Board::from([[0; 4], [0; 4], [0; 4], [1, 1, 2, 0]]);
    board.merge(Arrow::Left);
    assert_eq!(board.board[3], [2, 2, 0, 0]);
    assert_eq!(board.score(), 4);

    let mut board = Board::from([[0; 4], [0; 4], [0; 4], [2, 1, 1, 0]]);
    board.merge(Arrow::Right);
    assert_eq!(board.board[3], [0, 0, 2, 2]);
    assert_eq!(board.score(), 4);
}

#[test]
fn test_terminal_move_is_identity() {
    // A lost board: every direction reports no change and leaves the
    // board, score included, bit for bit as it was.
    let mut rng = rand::thread_rng();
    let board = Board::from([[1, 2, 1, 2], [2, 1, 2, 1], [1, 2, 1, 2], [2, 1, 2, 1]]);
    for direction in Arrow::iter() {
        let mut copy = board;
        let changed = copy.play_changed(direction, &mut rng);
        assert!(!changed);
        assert!(copy == board);
    }
}

#[test]
fn test_score_never_decreases() {
    let mut rng = rand::thread_rng();
    let mut board = Board::new(&mut rng);
    let mut previous = board.score();
    for _ in 0..200 {
        for direction in Arrow::iter() {
            board.play_changed(direction, &mut rng);
            assert!(board.score() >= previous);
            previous = board.score();
        }
        if board.is_lost(&mut rng) {
            break;
        }
    }
}

#[test]
fn test_move_conserves_value() {
    // A move neither creates nor destroys tile value: two rank-r tiles
    // become one tile worth exactly their sum.
    let cases = [
        ([[0, 0, 0, 1], [0, 0, 0, 0], [0, 0, 3, 0], [0, 0, 3, 1]], Arrow::Down),
        ([[0; 4], [0; 4], [0; 4], [4, 4, 4, 4]], Arrow::Right),
        ([[1, 1, 2, 2], [3, 0, 3, 0], [5, 5, 5, 5], [1, 2, 3, 4]], Arrow::Left),
        ([[1, 1, 2, 2], [3, 0, 3, 0], [5, 5, 5, 5], [1, 2, 3, 4]], Arrow::Up),
    ];
    for (cells, direction) in cases {
        let mut board = Board::from(cells);
        let before = value_sum(&board.board);
        board.merge(direction);
        assert_eq!(value_sum(&board.board), before);
    }
}

#[test]
fn test_is_lost_matches_four_directions() {
    let mut rng = rand::thread_rng();
    let boards = [
        [[1, 2, 1, 2], [2, 1, 2, 1], [1, 2, 1, 2], [2, 1, 2, 1]],
        [[1, 2, 1, 2], [2, 1, 2, 1], [1, 2, 1, 2], [2, 1, 2, 0]],
        [[1, 1, 2, 3], [4, 5, 6, 7], [8, 9, 1, 2], [3, 4, 5, 6]],
        [[0; 4], [0; 4], [0; 4], [0, 0, 0, 1]],
    ];
    for cells in boards {
        let board = Board::from(cells);
        let mut any_changes = false;
        for direction in Arrow::iter() {
            let mut copy = board;
            if copy.play_changed(direction, &mut rng) {
                any_changes = true;
            }
        }
        assert_eq!(board.is_lost(&mut rng), !any_changes);
    }
}

#[test]
fn test_initialize() {
    let mut rng = rand::thread_rng();
    for _ in 0..100 {
        let board = Board::new(&mut rng);
        assert_eq!(board.score(), 0);
        assert_eq!(occupied_count(&board.board), 2);
        for row in &board.board {
            for &rank in row {
                assert!(rank == 0 || rank == 1);
            }
        }
    }
}

#[test]
fn test_spawn_on_full_board_is_noop() {
    let mut rng = rand::thread_rng();
    let mut board = Board::from([[1, 2, 1, 2], [2, 1, 2, 1], [1, 2, 1, 2], [2, 1, 2, 1]]);
    let before = board;
    assert!(!board.gen_num(&mut rng));
    assert!(board == before);
}

#[test]
fn test_spawn_fills_one_empty_cell() {
    let mut rng = rand::thread_rng();
    for _ in 0..50 {
        let mut board = Board::from([[1, 2, 1, 2], [2, 1, 2, 1], [1, 2, 1, 2], [2, 1, 2, 0]]);
        assert!(board.gen_num(&mut rng));
        // The one empty cell got rank 1 or 2; nothing else moved.
        assert!(board.board[3][3] == 1 || board.board[3][3] == 2);
        let mut expected = [[1, 2, 1, 2], [2, 1, 2, 1], [1, 2, 1, 2], [2, 1, 2, 0]];
        expected[3][3] = board.board[3][3];
        assert_eq!(board.board, expected);
        assert_eq!(board.score(), 0);
    }
}

#[test]
fn test_is_full() {
    let full = Board::from([[1, 2, 1, 2], [2, 1, 2, 1], [1, 2, 1, 2], [2, 1, 2, 1]]);
    assert!(full.is_full());
    let sparse = Board::from([[1, 2, 1, 2], [2, 1, 2, 1], [1, 2, 1, 2], [2, 1, 2, 0]]);
    assert!(!sparse.is_full());
}

#[test]
fn test_move_fits() {
    let fresh = Board::from([[0; 4], [0; 4], [0; 4], [1, 0, 0, 1]]);
    assert!(fresh.move_fits());
    let mut rich = Board::from([[0; 4], [0; 4], [0; 4], [1, 0, 0, 0]]);
    rich.score = u64::MAX;
    assert!(!rich.move_fits());
}

#[test]
fn test_from_starts_at_score_zero() {
    let cells = [[0, 0, 0, 0], [0, 0, 0, 0], [0, 0, 9, 0], [0, 0, 0, 3]];
    let board = Board::from(cells);
    assert_eq!(board.board, cells);
    assert_eq!(board.score(), 0);
}

#[test]
fn test_merge_reachable_only_after_compaction() {
    // The two 1-tiles meet only once sliding has closed the gap between
    // them, so loss detection must simulate whole moves.
    let mut rng = rand::thread_rng();
    let board = Board::from([[1, 0, 0, 1], [0; 4], [0; 4], [0; 4]]);
    assert!(!board.is_lost(&mut rng));
    let mut copy = board;
    copy.merge(Arrow::Left);
    assert_eq!(copy.board[0], [2, 0, 0, 0]);
}
