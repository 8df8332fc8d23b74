use mcts_connect4::connect4::Connect4;
use mcts_connect4::mcts::GeneralGame;
use mcts_connect4::mcts::Node;
use mcts_connect4::mcts::NodeScore;
use mcts_connect4::tictactoe::TicTacToe;

fn score_f32(s: NodeScore) -> f32 {
    match s {
        NodeScore::Infinite => f32::INFINITY,
        NodeScore::Finite(v) => (v as f64 / 4294967296.0) as f32,
    }
}

#[test]
fn test_node_new() {
    let tictactoe = TicTacToe::from_string("..X\nO..\nXXO").unwrap();
    let node = Node::new(tictactoe, -1, 0);

    let game = TicTacToe::from_string("..X\nO..\nXXO").unwrap();
    assert_eq!(
        node,
        Node {
            game: game,
            player: -1,
            visits: 0,
            wins: 0,
            losses: 0,
            children: Vec::<Node<TicTacToe>>::new(),
            created_children: false,
            move_index: 0
        }
    )
}

#[test]
fn test_node_rollout() {
    let mut rng = rand::thread_rng();

    let tictactoe = TicTacToe::from_string("XX.\nOOX\nOXO").unwrap();
    let mut node = Node::new(tictactoe, -1, 0);

    assert_eq!(node.rollout(&mut rng), -1);

    node.player = 1;
    assert_eq!(node.rollout(&mut rng), 1);

    let tictactoe = TicTacToe::from_string("...\n...\n...").unwrap();
    let node = Node::new(tictactoe, -1, 0);
    let max_iter: usize = 10000;
    let mut iter = 0usize;
    let (mut player_1, mut player_2, mut draw) = (false, false, false);
    while !(player_1 && player_2 && draw) {
        iter += 1;
        let res = node.rollout(&mut rng);
        match res {
            -1 => player_1 = true,
            0 => draw = true,
            1 => player_2 = true,
            _ => panic!("Invalid result"),
        };
        assert!(iter < max_iter);
    }
}

#[test]
fn test_node_create_children() {
    let tictactoe = TicTacToe::from_string("..X\nO..\nXXO").unwrap();
    let mut node = Node::new(tictactoe, -1, 0);

    node.create_children();
    assert_eq!(node.children.len(), 4);
    assert_eq!(node.children[0].game, TicTacToe::from_string("O.X\nO..\nXXO").unwrap());
}

#[test]
fn test_node_score() {
    let tictactoe = TicTacToe::from_string("..X\nO..\nXXO").unwrap();
    let mut node = Node::new(tictactoe, -1, 0);

    assert_eq!(node.get_score(1), NodeScore::Infinite);
    node.visits = 1;
    node.wins = 1;
    assert_eq!(score_f32(node.get_score(1)), 1.);

    node.visits = 2;
    node.wins = 1;
    assert!((score_f32(node.get_score(2)) - 2.1651).abs() < 0.0001);

    node.visits = 5;
    node.wins = 1;
    node.losses = 2;
    assert!((score_f32(node.get_score(10)) - 1.7194).abs() < 0.0001);
}

#[test]
fn test_node_next_maxscore() {
    let mut rng = rand::thread_rng();

    let tictactoe = TicTacToe::from_string("X.O\nOXO\nXX.").unwrap();
    let mut node = Node::new(tictactoe, -1, 0);

    assert_eq!(node.get_child_with_highest_score(&mut rng), None);

    node.create_children();

    assert_ne!(node.get_child_with_highest_score(&mut rng), None);

    let max_iter: usize = 10;
    let mut iter = 0usize;
    loop {
        iter += 1;
        if node.get_child_with_highest_score(&mut rng).unwrap() != 0 {
            break;
        }
        assert!(iter < max_iter);
    }

    node.children[0].wins = 0;
    node.children[0].losses = 1;
    node.children[0].visits = 1;
    node.children[1].wins = 1;
    node.children[1].visits = 2;
    node.visits = 3;

    assert!((score_f32(node.children[0].get_score(3)) - 1.9646).abs() < 0.0001);
    assert!((score_f32(node.children[1].get_score(3)) - 2.5963).abs() < 0.0001);

    assert_eq!(node.get_child_with_highest_score(&mut rng), Some(1));

    node.children[1].wins = 10;
    node.children[1].losses = 2;
    node.children[1].visits = 20;
    node.visits = 21;

    assert_eq!(node.get_child_with_highest_score(&mut rng), Some(0));
}

#[test]
fn test_node_expansion_counts_columns() {
    // A six-column board with three full columns has exactly three
    // legal moves, so expansion creates exactly three children.
    let str = "\
                        X..OX.\n\
                        O..XO.\n\
                        X..OX.\n\
                        O..XO.\n\
                        X..OO.\n\
                        X..OX.\n\
                    ";
    let board = Connect4::<6, 6, 4>::from_string(str).unwrap();
    assert_eq!(board.get_available(), [1, 2, 5]);
    let mut node = Node::new(board, 1, 0);
    node.create_children();
    assert_eq!(node.children.len(), 3);
    for child in node.children.iter() {
        assert_eq!(child.player, -1);
        assert_eq!(child.visits, 0);
    }
}

#[test]
fn test_node_terminal_expansion_empty() {
    // Expansion of an already-decided position creates no children.
    let tictactoe = TicTacToe::from_string("XXX\nO.O\n..O").unwrap();
    let mut node = Node::new(tictactoe, -1, 0);
    node.create_children();
    assert_eq!(node.children.len(), 0);
    assert!(node.created_children);
}
