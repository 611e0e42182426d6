use twenty48::{Arrow, Board};

#[test]
fn test_is_lost() {
    let mut rng = rand::thread_rng();
    let lost_boards = [[[1, 2, 1, 2], [2, 1, 2, 1], [1, 2, 1, 2], [2, 1, 2, 1]]];

    let not_yet_losts = [
        [[1, 2, 1, 2], [2, 1, 2, 1], [1, 2, 1, 2], [2, 1, 2, 0]],
        [[1, 2, 1, 2], [3, 1, 2, 1], [2, 2, 1, 2], [2, 1, 2, 1]],
    ];

    for cells in lost_boards {
        let board = Board::from(cells);
        assert!(board.is_lost(&mut rng));
    }
    for cells in not_yet_losts {
        let board = Board::from(cells);
        assert!(!board.is_lost(&mut rng));
    }
}

#[test]
fn test_merge_squash() {
    let pairs = [
        (
            [[0, 0, 0, 1], [0, 0, 3, 0], [0, 0, 3, 0], [0, 0, 3, 1]],
            Arrow::Down,
            [[0, 0, 0, 0], [0, 0, 0, 0], [0, 0, 3, 0], [0, 0, 4, 2]],
        ),
        (
            [[0; 4], [0; 4], [0; 4], [4; 4]],
            Arrow::Right,
            [[0, 0, 0, 0], [0, 0, 0, 0], [0, 0, 0, 0], [0, 0, 5, 5]],
        ),
        (
            [[0, 0, 0, 0], [0, 0, 0, 0], [0, 0, 0, 0], [1, 0, 1, 1]],
            Arrow::Left,
            [[0, 0, 0, 0], [0, 0, 0, 0], [0, 0, 0, 0], [2, 1, 0, 0]],
        ),
        (
            [[0, 0, 0, 0], [0, 0, 0, 0], [0, 0, 0, 0], [1, 0, 1, 1]],
            Arrow::Right,
            [[0, 0, 0, 0], [0, 0, 0, 0], [0, 0, 0, 0], [0, 0, 1, 2]],
        ),
    ];
    for (i, (left, op, right)) in pairs.into_iter().enumerate() {
        let mut left = Board::from(left);
        let right = Board::from(right);
        left.merge(op);
        assert!(left.board == right.board, "case {i} failed!");
    }
}
