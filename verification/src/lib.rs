//! A Monte Carlo tree search engine for two-player, zero-sum, perfect
//! information games, together with a connect-style board game and a
//! 3-by-3 tic-tac-toe board that plug into it.

use vstd::prelude::*;

pub mod connect4;
pub mod mcts;
pub mod tictactoe;
pub mod numeric;
mod randsrc;

use crate::connect4::Connect4;
use crate::mcts::GeneralGame;
use crate::mcts::Node;

verus! {

/// The grid a standard six-by-seven board text denotes, if any.
pub open spec fn parsed_board(s: Seq<char>) -> Option<Seq<Seq<i8>>> {
    connect4::parse_grid(s, 6, 7)
}

/// Recommends a move for `player` on a standard six-by-seven,
/// connect-four board read from `board`: runs `iters` search
/// iterations of one simulation each and reports the most-visited
/// immediate move, ties going to the earliest.  Returns a move exactly
/// when the text is a well-formed board, the player is one of the two
/// sides, the position is undecided with a legal move left, and at
/// least one iteration was run; the move is always legal.
pub fn predict_best_move(board: &str, player: i8, iters: usize) -> (r: Option<usize>)
    ensures
        r is Some <==> ({
            let pb = parsed_board(board@);
            &&& player == 1i8 || player == -1i8
            &&& iters >= 1
            &&& pb is Some
            &&& (pb matches Some(g) ==> connect4::score_of_grid(g, 6, 7, 4) == 0
                && connect4::avail_up_to(g, 7).len() > 0)
        }),
        r matches Some(m) ==> (parsed_board(board@) matches Some(g) && connect4::avail_up_to(
            g,
            7,
        ).contains(m)),
{
    if player != 1 && player != -1 {
        return None;
    }
    let board_opt = Connect4::<6, 7, 4>::from_string(board);

    if let Some(board) = board_opt {
        let mut root_node = Node::<Connect4<6, 7, 4>>::new(board, player, 0);

        root_node.predict(iters, 1);

        let child = root_node.get_most_visited_child();
        if let Some(child) = child {
            proof {
                let cs = root_node.children@;
                let i = choose|i: int|
                    0 <= i < cs.len() && *child == #[trigger] cs[i] && (forall|j: int|
                        0 <= j < i ==> #[trigger] cs[j].visits < child.visits);
                assert(root_node.game.avail_spec().contains(cs[i].move_index));
            }
            return Some(child.move_index);
        }
    }

    return None;
}

/// The terminal score of a standard six-by-seven board read from
/// `board`, or nothing when the text is malformed.
pub fn get_score(board: &str) -> (r: Option<i8>)
    ensures
        match parsed_board(board@) {
            None => r is None,
            Some(g) => r matches Some(s) && s as int == connect4::score_of_grid(g, 6, 7, 4),
        },
{
    let board_opt = Connect4::<6, 7, 4>::from_string(board);

    if let Some(board) = board_opt {
        return Some(board.get_score());
    }

    return None;
}

} // verus!
