use mcts_connect4::connect4::Connect4;
use mcts_connect4::mcts::GeneralGame;

#[test]
fn test_connect4_fromstr() {
    let str = "\
                        X.....\n\
                        O.....\n\
                        X..O..\n\
                        O..X..\n\
                        XO.XX.\n\
                        XX.OOO\n\
                    ";
    assert_eq!(
        Connect4::<6, 6, 4>::from_string(str),
        Some(Connect4 {
            board: vec![
                vec![1, 0, 0, 0, 0, 0],
                vec![-1, 0, 0, 0, 0, 0],
                vec![1, 0, 0, -1, 0, 0],
                vec![-1, 0, 0, 1, 0, 0],
                vec![1, -1, 0, 1, 1, 0],
                vec![1, 1, 0, -1, -1, -1]
            ]
        })
    );

    let str = "\
                        X..O..\n\
                        O.....\n\
                        X..O..\n\
                        O..X..\n\
                        XO.XX.\n\
                        XX.OOO\n\
                    ";
    assert_eq!(Connect4::<6, 6, 4>::from_string(str), None);

    let str = "\
                        X..O..\n\
                        O.....\n\
                        X..O..\n\
                        O..X..\n\
                        XO.XX.\n\
                    ";
    assert_eq!(Connect4::<6, 6, 4>::from_string(str), None);

    let str = "\
                        X.XO...\n\
                        O.OX...\n\
                        XOOOX..\n\
                        OXXXOO.\n\
                        XOOXXO.\n\
                        XOXOXO.\n\
                    ";
    assert_eq!(
        Connect4::<6, 7, 4>::from_string(str),
        Some(Connect4 {
            board: vec![
                vec![1, 0, 1, -1, 0, 0, 0],
                vec![-1, 0, -1, 1, 0, 0, 0],
                vec![1, -1, -1, -1, 1, 0, 0],
                vec![-1, 1, 1, 1, -1, -1, 0],
                vec![1, -1, -1, 1, 1, -1, 0],
                vec![1, -1, 1, -1, 1, -1, 0]
            ]
        })
    );
}

#[test]
fn test_connect4_score() {
    let str = "\
                        X.....\n\
                        O.....\n\
                        X..O..\n\
                        O..X..\n\
                        XO.XX.\n\
                        OOOOOO\n\
                    ";
    assert_eq!(Connect4::<6, 6, 4>::from_string(str).unwrap().get_score(), -1);

    let str = "\
                        X.....\n\
                        O.....\n\
                        X..O..\n\
                        O..X..\n\
                        XO.XX.\n\
                        XX.OOO\n\
                    ";
    assert_eq!(Connect4::<6, 6, 4>::from_string(str).unwrap().get_score(), 0);

    let str = "\
                        X.....\n\
                        X.....\n\
                        X..O..\n\
                        X..X..\n\
                        XO.XX.\n\
                        XX.OOO\n\
                    ";
    assert_eq!(Connect4::<6, 6, 4>::from_string(str).unwrap().get_score(), 1, "vertical");

    let str = "\
                        X.X...\n\
                        O.XX..\n\
                        X.XOX.\n\
                        O.OXOX\n\
                        XOOXXO\n\
                        OOXOXO\n\
                    ";
    assert_eq!(Connect4::<6, 6, 4>::from_string(str).unwrap().get_score(), -1, "diagonal y=x");

    let str = "\
                        X.XO...\n\
                        O.OX...\n\
                        XOOOX..\n\
                        OXXXOO.\n\
                        XOOXXO.\n\
                        XOXOXO.\n\
                    ";
    assert_eq!(Connect4::<6, 7, 4>::from_string(str).unwrap().get_score(), -1, "diagonal y=x");

    let str = "\
                        X.XO...\n\
                        O.XX...\n\
                        XOOOX.O\n\
                        OXXXOOX\n\
                        XOOXOOX\n\
                        XOXOXOX\n\
                    ";
    assert_eq!(Connect4::<6, 7, 4>::from_string(str).unwrap().get_score(), -1, "diagonal y=x");

    let str = "\
                        X.....\n\
                        X.....\n\
                        O..O..\n\
                        XO.X..\n\
                        XOOXX.\n\
                        XXOOOO\n\
                    ";
    assert_eq!(Connect4::<6, 6, 4>::from_string(str).unwrap().get_score(), -1, "diagonal y=-x");

    let str = "\
                        X..O..\n\
                        O.OO..\n\
                        XOXO..\n\
                        OXXX..\n\
                        XOOXX.\n\
                        OOOXOO\n\
                    ";
    assert_eq!(Connect4::<6, 6, 4>::from_string(str).unwrap().get_score(), -1);

    let str = "\
                        X.....\n\
                        O.....\n\
                        X..O..\n\
                        OX.X..\n\
                        XOXXX.\n\
                        OOOXOO\n\
                    ";
    assert_eq!(Connect4::<6, 6, 4>::from_string(str).unwrap().get_score(), 1);

    let str = "\
                        O.X...\n\
                        X.XX..\n\
                        OXOXX.\n\
                        XOXOXX\n\
                        OOOXOO\n\
                    ";
    assert_eq!(Connect4::<5, 6, 4>::from_string(str).unwrap().get_score(), 1);
}

#[test]
fn test_connect4_available() {
    let str = "\
                        X.....\n\
                        O.....\n\
                        X..O..\n\
                        O..X..\n\
                        XO.XX.\n\
                        OOOOOO\n\
                    ";
    assert_eq!(Connect4::<6, 6, 4>::from_string(str).unwrap().get_available(), [1, 2, 3, 4, 5]);

    let str = "\
                        X..OX.\n\
                        O..XO.\n\
                        X..OX.\n\
                        O..XX.\n\
                        XO.XX.\n\
                        XX.OOO\n\
                    ";
    assert_eq!(Connect4::<6, 6, 4>::from_string(str).unwrap().get_available(), [1, 2, 5]);

    let str = "\
                        ......\n\
                        X.....\n\
                        X..O..\n\
                        X..X..\n\
                        XO.XX.\n\
                        XX.OOO\n\
                    ";
    assert_eq!(Connect4::<6, 6, 4>::from_string(str).unwrap().get_available(), [0, 1, 2, 3, 4, 5]);

    let str = "\
                        XXOXXO\n\
                        XOOOOO\n\
                        XOOOOO\n\
                        XOOXOO\n\
                        XOXXXX\n\
                        XXXOOO\n\
                    ";
    assert_eq!(Connect4::<6, 6, 4>::from_string(str).unwrap().get_available(), []);

    let str = "\
                        O..XO..\n\
                        X..OX..\n\
                        O..XX..\n\
                        XO.XX..\n\
                        XX.OOO.\n\
                    ";
    assert_eq!(Connect4::<5, 7, 4>::from_string(str).unwrap().get_available(), [1, 2, 5, 6]);
}

#[test]
fn test_connect4_fmt() {
    let connect4 = Connect4::<6, 6, 4> {
        board: vec![
            vec![-1, 0, 0, 1, 0, 0],
            vec![0, 0, 0, 0, 0, 0],
            vec![0, 0, 0, 0, 0, 0],
            vec![0, 0, 0, 0, 0, 0],
            vec![0, 0, 1, 0, -1, 1],
            vec![-1, 0, 1, 0, 0, -1],
        ],
    };

    let connect4_str = connect4.to_string();
    assert_eq!(
        connect4_str,
        "O . . X . . \n. . . . . . \n. . . . . . \n. . . . . . \n. . X . O X \nO . X . . O \n"
    );

    let connect4 = Connect4::<3, 6, 4> {
        board: vec![
            vec![0, 0, 0, 0, 0, 0],
            vec![0, 0, 1, 0, -1, 1],
            vec![-1, 0, 1, 0, 0, -1],
        ],
    };

    let connect4_str = connect4.to_string();
    assert_eq!(connect4_str, ". . . . . . \n. . X . O X \nO . X . . O \n");
}

#[test]
fn test_connect4_update() {
    let mut str = "\
                        X.....\n\
                        O.....\n\
                        X..O..\n\
                        O..X..\n\
                        XO.XX.\n\
                        OOOOO.\n\
                    ";
    let connect4 = Connect4::<6, 6, 4>::from_string(str).unwrap();

    str = "\
                        X.....\n\
                        O.....\n\
                        X..O..\n\
                        OX.X..\n\
                        XO.XX.\n\
                        OOOOO.\n\
                    ";
    let mut test = connect4.clone();
    test.update(1, 1);
    assert_eq!(test, Connect4::from_string(str).unwrap());

    str = "\
                        X.....\n\
                        O.....\n\
                        X..O..\n\
                        O..X..\n\
                        XO.XX.\n\
                        OOOOOO\n\
                    ";
    test = connect4.clone();
    test.update(5, -1);
    assert_eq!(test, Connect4::from_string(str).unwrap());

    str = "\
                O......\n\
                X..O...\n\
                O..X..X\n\
                XO.XX.O\n\
                OOOOOOX\n\
            ";
    let mut test = Connect4::<5, 7, 4>::from_string(&str).unwrap();
    test.update(6, -1);
    str = "\
                O......\n\
                X..O..O\n\
                O..X..X\n\
                XO.XX.O\n\
                OOOOOOX\n\
            ";
    assert_eq!(test, Connect4::from_string(str).unwrap());
}

#[test]
fn test_connect4_rejects_wrong_dimensions() {
    // A board text must hold exactly ROWS full newline-terminated rows.
    assert_eq!(Connect4::<6, 6, 4>::from_string(""), None);
    assert_eq!(Connect4::<6, 6, 4>::from_string("X.....\n"), None);
    assert_eq!(
        Connect4::<6, 6, 4>::from_string("......\n......\n......\n......\n......\n......"),
        None
    );
    assert_eq!(
        Connect4::<6, 6, 4>::from_string(
            "......\n......\n......\n......\n......\n......\n......\n"
        ),
        None
    );
}

#[test]
fn test_connect4_canon_round_trip() {
    let texts = [
        "X.....\nO.....\nX..O..\nO..X..\nXO.XX.\nXX.OOO\n",
        "......\n......\n......\n......\n......\n......\n",
        "X.XO...\nO.OX...\nXOOOX..\nOXXXOO.\nXOOXXO.\nXOXOXO.\n",
    ];
    for text in texts {
        let board = Connect4::<6, 6, 4>::from_string(text);
        let board7 = Connect4::<6, 7, 4>::from_string(text);
        if let Some(b) = board {
            assert_eq!(b.canon_string(), text);
        } else {
            let b = board7.expect("one of the two widths must accept the text");
            assert_eq!(b.canon_string(), text);
        }
    }
}

#[test]
fn test_connect4_score_flip_symmetric() {
    let texts = [
        "X.....\nO.....\nX..O..\nO..X..\nXO.XX.\nOOOOOO\n",
        "X.....\nX.....\nX..O..\nX..X..\nXO.XX.\nXX.OOO\n",
        "X.X...\nO.XX..\nX.XOX.\nO.OXOX\nXOOXXO\nOOXOXO\n",
        "X.....\nO.....\nX..O..\nO..X..\nXO.XX.\nXX.OOO\n",
    ];
    for text in texts {
        let flipped: String = text
            .chars()
            .map(|c| if c == 'X' { 'O' } else if c == 'O' { 'X' } else { c })
            .collect();
        let a = Connect4::<6, 6, 4>::from_string(text).unwrap().get_score();
        let b = Connect4::<6, 6, 4>::from_string(&flipped).unwrap().get_score();
        assert_eq!(a, -b);
    }
}
