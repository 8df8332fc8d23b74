use mcts_connect4::get_score;
use mcts_connect4::predict_best_move;

/// How often, out of twenty searches, the engine recommends `expected`.
/// The search is randomized, so the recommendations are asserted with
/// overwhelming frequency rather than on a single run.
fn hits_of_twenty(board: &str, player: i8, iters: usize, expected: usize) -> usize {
    let mut hits = 0;
    let mut run = 0;
    while run < 20 {
        if predict_best_move(board, player, iters) == Some(expected) {
            hits += 1;
        }
        run += 1;
    }
    hits
}

#[test]
fn best_move_test() {
    let board = "\
                        .......\n\
                        .......\n\
                        .......\n\
                        .......\n\
                        ......O\n\
                        .OXX.XO\n\
                    ";
    assert!(hits_of_twenty(board, 1, 100, 4) >= 12);
    assert!(hits_of_twenty(board, -1, 100, 4) >= 12);

    let board = "\
                        .......\n\
                        .......\n\
                        .......\n\
                        O.....X\n\
                        O.....X\n\
                        O.....X\n\
                    ";
    assert!(hits_of_twenty(board, 1, 100, 6) >= 12);
}

#[test]
fn test_recommend_finds_immediate_win() {
    // One move from a win for the side to move: with a large budget
    // the winning column must be picked nearly every time.
    let board = "\
                        .......\n\
                        .......\n\
                        .......\n\
                        ..X....\n\
                        ..X.O..\n\
                        ..X.OO.\n\
                    ";
    let hits = hits_of_twenty(board, 1, 200, 2);
    assert!(hits >= 12, "winning move found only {} times out of 20", hits);
}

#[test]
fn test_recommend_single_iteration() {
    // One iteration expands the root; with every child still at zero
    // visits the tie goes to the earliest child, the first open column.
    let board = "\
                        .......\n\
                        .......\n\
                        .......\n\
                        .......\n\
                        ......O\n\
                        .OXX.XO\n\
                    ";
    assert_eq!(predict_best_move(board, 1, 1), Some(0));
    assert_eq!(predict_best_move(board, -1, 1), Some(0));
    // With no iteration at all there is nothing to report.
    assert_eq!(predict_best_move(board, 1, 0), None);
}

#[test]
fn test_recommend_rejects_bad_input() {
    // Malformed boards and foreign players give no recommendation.
    assert_eq!(predict_best_move("garbage", 1, 50), None);
    assert_eq!(predict_best_move("...\n...\n...\n", 1, 50), None);
    let board = "\
                        .......\n\
                        .......\n\
                        .......\n\
                        .......\n\
                        ......O\n\
                        .OXX.XO\n\
                    ";
    assert_eq!(predict_best_move(board, 0, 50), None);
    assert_eq!(predict_best_move(board, 2, 50), None);
}

#[test]
fn test_recommend_none_on_decided_or_full() {
    // A decided position gets no move.
    let won = "\
                        .......\n\
                        .......\n\
                        .......\n\
                        ...X...\n\
                        ...X.O.\n\
                        XXXX.OO\n\
                    ";
    assert_eq!(predict_best_move(won, -1, 50), None);
    // A completely full drawn board gets no move either.
    let full = "\
                        XOXOXOX\n\
                        XOXOXOX\n\
                        OXOXOXO\n\
                        OXOXOXO\n\
                        XOXOXOX\n\
                        XOXOXOX\n\
                    ";
    assert_eq!(predict_best_move(full, 1, 50), None);
}

#[test]
fn test_get_score_entry_point() {
    let won_by_x = "\
                        .......\n\
                        .......\n\
                        .......\n\
                        ...X...\n\
                        ...X.O.\n\
                        XXXX.OO\n\
                    ";
    assert_eq!(get_score(won_by_x), Some(1));
    let open_board = "\
                        .......\n\
                        .......\n\
                        .......\n\
                        .......\n\
                        ......O\n\
                        .OXX.XO\n\
                    ";
    assert_eq!(get_score(open_board), Some(0));
    assert_eq!(get_score("not a board"), None);
    let won_by_o = "\
                        .......\n\
                        .......\n\
                        ..O....\n\
                        ..OX...\n\
                        ..OX.X.\n\
                        ..OX.XX\n\
                    ";
    assert_eq!(get_score(won_by_o), Some(-1));
}
