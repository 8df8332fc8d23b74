use mcts_connect4::tictactoe::TicTacToe;

#[test]
fn test_tictactoe_score() {
    let mut tictactoe: TicTacToe;

    tictactoe = TicTacToe { board: vec![vec![0, 0, 0], vec![0, 0, 0], vec![0, 0, 0]] };
    assert_eq!(tictactoe.get_score(), 0);

    tictactoe = TicTacToe { board: vec![vec![1, 0, 0], vec![1, 0, 0], vec![1, 0, 0]] };
    assert_eq!(tictactoe.get_score(), 1);

    tictactoe = TicTacToe { board: vec![vec![0, -1, 0], vec![0, -1, 0], vec![0, -1, 0]] };
    assert_eq!(tictactoe.get_score(), -1);

    tictactoe = TicTacToe { board: vec![vec![-1, 0, 0], vec![0, -1, 0], vec![0, 0, -1]] };
    assert_eq!(tictactoe.get_score(), -1);

    tictactoe = TicTacToe { board: vec![vec![-1, 0, 1], vec![0, 1, 0], vec![1, 0, -1]] };
    assert_eq!(tictactoe.get_score(), 1);

    tictactoe = TicTacToe { board: vec![vec![-1, 0, 1], vec![0, 0, 1], vec![1, 0, 1]] };
    assert_eq!(tictactoe.get_score(), 1);
}

#[test]
fn test_tictactoe_available() {
    let mut tictactoe: TicTacToe;

    tictactoe = TicTacToe { board: vec![vec![0, 0, 0], vec![0, -1, 0], vec![1, 0, -1]] };
    assert_eq!(
        tictactoe.get_available(),
        [(0, 0), (0, 1), (0, 2), (1, 0), (1, 2), (2, 1)]
    );

    tictactoe = TicTacToe { board: vec![vec![-1, 1, 0], vec![-1, -1, -1], vec![1, 1, 0]] };
    assert_eq!(tictactoe.get_available(), [(0, 2), (2, 2)]);
}

#[test]
fn test_tictactoe_fmt() {
    let tictactoe = TicTacToe { board: vec![vec![1, 1, -1], vec![0, 0, -1], vec![1, 0, 0]] };
    let tictactoe_str = tictactoe.to_string();
    assert_eq!(tictactoe_str, "X X O \n. . O \nX . . \n");
}

#[test]
fn test_tictactoe_from_string_dimensions() {
    // The text must reach the last cell; a final line break is
    // optional, anything longer leaves the grid and is rejected.
    assert_eq!(TicTacToe::from_string(""), None);
    assert_eq!(TicTacToe::from_string("XX.\nO.O"), None);
    assert_eq!(
        TicTacToe::from_string("..X\nO..\nXXO"),
        Some(TicTacToe { board: vec![vec![0, 0, 1], vec![-1, 0, 0], vec![1, 1, -1]] })
    );
    assert_eq!(TicTacToe::from_string("...\n...\n...\n...\n"), None);
}

#[test]
fn test_tictactoe_from_string() {
    let mut tictactoe;

    tictactoe = TicTacToe::from_string("XX.\nO.O\n..X\r");
    assert_eq!(
        tictactoe,
        Some(TicTacToe { board: vec![vec![1, 1, 0], vec![-1, 0, -1], vec![0, 0, 1]] })
    );

    tictactoe = TicTacToe::from_string("XX.\rO.O\n...X\n");
    assert_eq!(tictactoe, None);
}
