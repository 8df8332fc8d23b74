//! The Monte Carlo tree search engine.
//!
//! A [`Node`] owns one game position together with its visit and
//! win/loss statistics and, once expanded, one child per legal move.
//! The engine is generic over the [`GeneralGame`] capability contract:
//! apply a move, report a terminal score, enumerate legal moves.

use vstd::prelude::*;

use crate::numeric;
use crate::randsrc;

verus! {

/// The capability contract a playable game must meet.
///
/// A game is abstracted by a rectangular grid of cells (`model`), a
/// terminal score, an ordered list of legal move identifiers, and a
/// count of free cells that every applied move strictly decreases —
/// the measure that bounds every rollout.
pub trait GeneralGame: Sized {
    /// The game value is internally consistent.
    spec fn wf(&self) -> bool;

    /// The abstract state: the grid of cells, row by row.
    spec fn model(&self) -> Seq<Seq<i8>>;

    /// The terminal score of the current position: 1, -1 or 0.
    spec fn score_spec(&self) -> int;

    /// The legal move identifiers, in the order they are enumerated.
    spec fn avail_spec(&self) -> Seq<usize>;

    /// How many cells are still free: the rollout termination measure.
    spec fn free_spec(&self) -> nat;

    /// The abstract state after a legal move by `player`.
    spec fn apply_spec(&self, index: usize, player: i8) -> Seq<Seq<i8>>;

    /// The terminal score: 1 or -1 when a side has won, 0 otherwise.
    fn get_score(&self) -> (r: i8)
        requires
            self.wf(),
        ensures
            -1 <= r as int <= 1,
            r as int == self.score_spec(),
    ;

    /// The legal moves of the current position.
    fn get_available(&self) -> (r: Vec<usize>)
        requires
            self.wf(),
        ensures
            r@ == self.avail_spec(),
    ;

    /// Applies a legal move, filling one free cell.
    fn update(&mut self, index: usize, player: i8)
        requires
            old(self).wf(),
            old(self).avail_spec().contains(index),
            player == 1i8 || player == -1i8,
        ensures
            final(self).wf(),
            final(self).model() == old(self).apply_spec(index, player),
            final(self).free_spec() < old(self).free_spec(),
    ;

    /// An independent copy of the position.
    fn clone_game(&self) -> (r: Self)
        requires
            self.wf(),
        ensures
            r.wf(),
            r.model() == self.model(),
            r.score_spec() == self.score_spec(),
            r.avail_spec() == self.avail_spec(),
            r.free_spec() == self.free_spec(),
            forall|i: usize, p: i8| #[trigger] r.apply_spec(i, p) == self.apply_spec(i, p),
    ;
}

/// The side to move after `p`.
pub open spec fn other_player(p: i8) -> i8 {
    if p == 1i8 {
        -1i8
    } else {
        1i8
    }
}

/// The outcome `r` can end a full playout from position `g` with `p`
/// to move: either the position is already decided and `r` is its
/// score, or no move is left and `r` is a draw, or some legal move
/// leads to a position from which the rest of the playout, with the
/// sides alternating, ends in `r`.
pub open spec fn playout_reaches<T: GeneralGame>(g: T, p: i8, r: i8) -> bool
    decreases g.free_spec(),
{
    if g.score_spec() != 0 {
        r as int == g.score_spec()
    } else if g.avail_spec().len() == 0 {
        r == 0i8
    } else {
        exists|j: int, g2: T|
            #![trigger g.avail_spec()[j], g2.model()]
            0 <= j < g.avail_spec().len() && g2.wf() && g2.model() == g.apply_spec(
                g.avail_spec()[j],
                p,
            ) && g2.free_spec() < g.free_spec() && playout_reaches(g2, other_player(p), r)
    }
}

/// Two game values that agree on score, moves, free count and the
/// effect of every move admit the same playout outcomes.
proof fn lemma_playout_congruent<T: GeneralGame>(a: T, b: T, p: i8, r: i8)
    requires
        a.score_spec() == b.score_spec(),
        a.avail_spec() == b.avail_spec(),
        a.free_spec() == b.free_spec(),
        forall|i: usize, q: i8| #[trigger] a.apply_spec(i, q) == b.apply_spec(i, q),
    ensures
        playout_reaches(a, p, r) == playout_reaches(b, p, r),
{
    if a.score_spec() == 0 && a.avail_spec().len() > 0 {
        if playout_reaches(a, p, r) {
            let (j, g2) = choose|j: int, g2: T|
                #![trigger a.avail_spec()[j], g2.model()]
                0 <= j < a.avail_spec().len() && g2.wf() && g2.model() == a.apply_spec(
                    a.avail_spec()[j],
                    p,
                ) && g2.free_spec() < a.free_spec() && playout_reaches(g2, other_player(p), r);
            assert(g2.model() == b.apply_spec(b.avail_spec()[j], p));
            assert(playout_reaches(b, p, r));
        }
        if playout_reaches(b, p, r) {
            let (j, g2) = choose|j: int, g2: T|
                #![trigger b.avail_spec()[j], g2.model()]
                0 <= j < b.avail_spec().len() && g2.wf() && g2.model() == b.apply_spec(
                    b.avail_spec()[j],
                    p,
                ) && g2.free_spec() < b.free_spec() && playout_reaches(g2, other_player(p), r);
            assert(g2.model() == a.apply_spec(a.avail_spec()[j], p));
            assert(playout_reaches(a, p, r));
        }
    }
}

/// The selection score of a child: unbounded for a never-visited
/// child, otherwise a fixed-point confidence-bound value.
#[derive(Clone, Copy, Debug, PartialEq, Eq, Structural)]
pub enum NodeScore {
    Infinite,
    Finite(i64),
}

/// One position in the search tree, with its accumulated statistics
/// and (after expansion) one child per legal move.
#[derive(Debug, PartialEq)]
pub struct Node<T: GeneralGame> {
    pub game: T,
    pub player: i8,
    pub visits: usize,
    pub wins: usize,
    pub losses: usize,
    pub children: Vec<Node<T>>,
    pub created_children: bool,
    pub move_index: usize,
}

impl<T: GeneralGame> Node<T> {
    /// Whether this node's children have been created.
    pub open spec fn expanded(&self) -> bool {
        self.created_children
    }

    /// The tree invariant: the game is well formed, the player is one
    /// of the two sides, tallies never exceed visits, and every child
    /// was built from a legal move, plays the opposite side, has a
    /// strictly smaller position, and has been visited at least as
    /// recently as its parent.
    pub open spec fn wf(&self) -> bool
        decreases *self,
    {
        &&& self.game.wf()
        &&& self.player == 1i8 || self.player == -1i8
        &&& self.wins + self.losses <= self.visits
        &&& forall|i: int|
            #![trigger self.children@[i]]
            0 <= i < self.children@.len() ==> {
                let c = self.children@[i];
                &&& c.wf()
                &&& c.player as int == -(self.player as int)
                &&& c.game.free_spec() < self.game.free_spec()
                &&& c.visits <= self.visits
                &&& (c.visits == 0 ==> !c.expanded())
                &&& self.game.avail_spec().contains(c.move_index)
            }
    }

    /// Some child among the first `n` has at least `m` visits.
    pub open spec fn some_child_visited(children: Seq<Node<T>>, m: nat) -> bool {
        exists|i: int| 0 <= i < children.len() && #[trigger] children[i].visits >= m
    }

    /// Some single child received this search call; see `descended_at`.
    pub open spec fn some_descent(
        before: Seq<Node<T>>,
        after: Seq<Node<T>>,
        rollouts: nat,
        r: (usize, usize),
    ) -> bool {
        exists|i: int| #[trigger] Self::descended_at(before, after, i, rollouts, r)
    }

    /// The children after one descent at position `i`: that child alone
    /// received the same search call — its visits grew by `rollouts`
    /// and the returned pair `r` was folded into its tallies from its
    /// own player's side — and every other child is untouched.
    pub open spec fn descended_at(
        before: Seq<Node<T>>,
        after: Seq<Node<T>>,
        i: int,
        rollouts: nat,
        r: (usize, usize),
    ) -> bool {
        &&& 0 <= i < before.len()
        &&& after.len() == before.len()
        &&& (forall|j: int| 0 <= j < before.len() && j != i ==> #[trigger] after[j] == before[j])
        &&& after[i].game == before[i].game
        &&& after[i].player == before[i].player
        &&& after[i].move_index == before[i].move_index
        &&& after[i].visits == before[i].visits + rollouts
        &&& after[i].wins == before[i].wins + (if before[i].player == 1i8 {
            r.1
        } else {
            r.0
        })
        &&& after[i].losses == before[i].losses + (if before[i].player == 1i8 {
            r.0
        } else {
            r.1
        })
    }

    /// The fixed-point selection score of the child at `j`, seen from
    /// this node.
    pub open spec fn child_ucb(&self, j: int) -> int {
        numeric::spec_ucb_val(
            self.children@[j].wins as nat,
            self.children@[j].losses as nat,
            self.children@[j].visits as nat,
            self.visits as nat,
        )
    }

    /// A fresh, unexpanded node for a position.
    pub fn new(game: T, player: i8, move_index: usize) -> (r: Node<T>)
        ensures
            r.game == game,
            r.player == player,
            r.visits == 0,
            r.wins == 0,
            r.losses == 0,
            r.children@.len() == 0,
            !r.expanded(),
            r.move_index == move_index,
    {
        Node {
            game,
            player,
            visits: 0,
            wins: 0,
            losses: 0,
            children: Vec::new(),
            created_children: false,
            move_index,
        }
    }

    /// Plays uniformly random legal moves from this position until the
    /// game ends, and reports the terminal score.  Termination is
    /// bounded by the number of free cells: every move fills one.
    pub fn rollout(&self, rng: &mut rand::rngs::ThreadRng) -> (r: i8)
        requires
            self.game.wf(),
            self.player == 1i8 || self.player == -1i8,
        ensures
            -1 <= r as int <= 1,
            playout_reaches(self.game, self.player, r),
            self.game.score_spec() != 0 ==> r as int == self.game.score_spec(),
            self.game.score_spec() == 0 && self.game.avail_spec().len() == 0 ==> r == 0,
    {
        let mut current_game = self.game.clone_game();
        let mut current_player = self.player;
        proof {
            assert forall|rr: i8| #[trigger] playout_reaches(current_game, current_player, rr)
                implies playout_reaches(self.game, self.player, rr) by {
                lemma_playout_congruent(current_game, self.game, self.player, rr);
            }
        }
        loop
            invariant
                current_game.wf(),
                current_player == 1i8 || current_player == -1i8,
                self.game.score_spec() != 0 ==> current_game.score_spec() == self.game.score_spec(),
                self.game.score_spec() == 0 && self.game.avail_spec().len() == 0 ==> (
                current_game.score_spec() == 0 && current_game.avail_spec().len() == 0),
                forall|rr: i8| #[trigger] playout_reaches(current_game, current_player, rr)
                    ==> playout_reaches(self.game, self.player, rr),
            decreases current_game.free_spec(),
        {
            let score = current_game.get_score();
            if score != 0 {
                proof {
                    assert(playout_reaches(current_game, current_player, score));
                }
                return score;
            }
            let available = current_game.get_available();
            if available.len() == 0 {
                proof {
                    assert(playout_reaches(current_game, current_player, 0i8));
                }
                return 0;
            }
            let j = randsrc::random_below(rng, available.len());
            let index = available[j];
            let ghost prev = current_game;
            proof {
                assert(current_game.avail_spec()[j as int] == index);
            }
            current_game.update(index, current_player);
            proof {
                let new_p = other_player(current_player);
                assert forall|rr: i8| #[trigger] playout_reaches(current_game, new_p, rr)
                    implies playout_reaches(self.game, self.player, rr) by {
                    assert(0 <= j < prev.avail_spec().len() && current_game.wf()
                        && current_game.model() == prev.apply_spec(
                        prev.avail_spec()[j as int],
                        current_player,
                    ) && current_game.free_spec() < prev.free_spec() && playout_reaches(
                        current_game,
                        other_player(current_player),
                        rr,
                    ));
                    assert(playout_reaches(prev, current_player, rr));
                }
            }
            current_player = -current_player;
        }
    }

    /// The selection score of this node under a parent with
    /// `parent_visits` visits: unbounded when never visited, otherwise
    /// the fixed-point win rate plus exploration bonus.
    pub fn get_score(&self, parent_visits: usize) -> (r: NodeScore)
        requires
            self.visits > 0 ==> parent_visits >= 1,
            self.wins + self.losses <= self.visits,
        ensures
            self.visits == 0 ==> r == NodeScore::Infinite,
            self.visits > 0 ==> r == NodeScore::Finite(
                numeric::spec_ucb_val(
                    self.wins as nat,
                    self.losses as nat,
                    self.visits as nat,
                    parent_visits as nat,
                ) as i64,
            ),
            self.visits > 0 ==> numeric::spec_ucb_val(
                self.wins as nat,
                self.losses as nat,
                self.visits as nat,
                parent_visits as nat,
            ) == numeric::spec_ucb_val(
                self.wins as nat,
                self.losses as nat,
                self.visits as nat,
                parent_visits as nat,
            ) as i64 as int,
    {
        if self.visits == 0 {
            return NodeScore::Infinite;
        }
        let v = numeric::ucb_score(self.wins, self.losses, self.visits, parent_visits);
        NodeScore::Finite(v)
    }

    /// Creates one child per legal move of this position, each holding
    /// a copy of the game with that move applied by this node's player
    /// and representing the opposite side.  On a terminal position no
    /// children are created; either way the node is marked expanded.
    pub fn create_children(&mut self)
        requires
            old(self).wf(),
        ensures
            final(self).wf(),
            final(self).expanded(),
            final(self).game == old(self).game,
            final(self).player == old(self).player,
            final(self).visits == old(self).visits,
            final(self).wins == old(self).wins,
            final(self).losses == old(self).losses,
            final(self).move_index == old(self).move_index,
            old(self).game.score_spec() != 0 ==> final(self).children == old(self).children,
            old(self).game.score_spec() == 0 ==> final(self).children@.len() == old(
                self,
            ).children@.len() + old(self).game.avail_spec().len(),
            forall|j: int|
                0 <= j < old(self).children@.len() ==> final(self).children@[j] == old(
                    self,
                ).children@[j],
            forall|j: int|
                #![trigger final(self).children@[j]]
                old(self).children@.len() <= j < final(self).children@.len() ==> {
                    let c = final(self).children@[j];
                    let k = j - old(self).children@.len();
                    &&& c.move_index == old(self).game.avail_spec()[k]
                    &&& c.player as int == -(old(self).player as int)
                    &&& c.visits == 0
                    &&& c.wins == 0
                    &&& c.losses == 0
                    &&& !c.expanded()
                    &&& c.children@.len() == 0
                    &&& c.game.model() == old(self).game.apply_spec(c.move_index, old(self).player)
                },
    {
        self.created_children = true;

        // A decided position gets no children.
        if self.game.get_score() != 0 {
            return ;
        }
        let available = self.game.get_available();
        let next_player: i8 = -self.player;
        let mut idx: usize = 0;
        while idx < available.len()
            invariant
                old(self).wf(),
                idx <= available.len(),
                available@ == old(self).game.avail_spec(),
                next_player as int == -(old(self).player as int),
                self.game == old(self).game,
                self.player == old(self).player,
                self.visits == old(self).visits,
                self.wins == old(self).wins,
                self.losses == old(self).losses,
                self.move_index == old(self).move_index,
                self.created_children,
                self.children@.len() == old(self).children@.len() + idx,
                forall|j: int|
                    0 <= j < old(self).children@.len() ==> self.children@[j] == old(
                        self,
                    ).children@[j],
                forall|j: int|
                    #![trigger self.children@[j]]
                    old(self).children@.len() <= j < self.children@.len() ==> {
                        let c = self.children@[j];
                        let k = j - old(self).children@.len();
                        &&& c.move_index == old(self).game.avail_spec()[k]
                        &&& c.player as int == -(old(self).player as int)
                        &&& c.visits == 0
                        &&& c.wins == 0
                        &&& c.losses == 0
                        &&& !c.expanded()
                        &&& c.children@.len() == 0
                        &&& c.game.wf()
                        &&& c.game.free_spec() < old(self).game.free_spec()
                        &&& c.game.model() == old(self).game.apply_spec(
                            c.move_index,
                            old(self).player,
                        )
                    },
            decreases available.len() - idx,
        {
            let index = available[idx];
            proof {
                assert(old(self).game.avail_spec()[idx as int] == index);
            }
            let mut child = Node::new(self.game.clone_game(), next_player, index);
            child.game.update(index, self.player);
            self.children.push(child);
            idx = idx + 1;
        }
        proof {
            let ghost base = old(self).children@.len() as int;
            assert forall|i: int| 0 <= i < self.children@.len() implies {
                let c = #[trigger] self.children@[i];
                &&& c.wf()
                &&& c.player as int == -(self.player as int)
                &&& c.game.free_spec() < self.game.free_spec()
                &&& c.visits <= self.visits
                &&& (c.visits == 0 ==> !c.expanded())
                &&& self.game.avail_spec().contains(c.move_index)
            } by {
                let c = self.children@[i];
                if i < base {
                    assert(c == old(self).children@[i]);
                    assert(old(self).wf());
                } else {
                    let k = i - base;
                    assert(old(self).game.avail_spec()[k] == c.move_index);
                    assert(self.game.avail_spec().contains(c.move_index));
                    assert(c.children@.len() == 0);
                    assert(c.wf());
                }
            }
        }
    }

    /// Whether the child at `j` scores strictly higher than the child
    /// at `i`: an unvisited child beats any visited one, two unvisited
    /// children tie, and visited children compare by fixed-point score.
    pub open spec fn child_beats(&self, j: int, i: int) -> bool {
        let cj = self.children@[j];
        let ci = self.children@[i];
        if cj.visits == 0 {
            ci.visits != 0
        } else if ci.visits == 0 {
            false
        } else {
            self.child_ucb(j) > self.child_ucb(i)
        }
    }

    /// Compares two selection scores; unbounded never beats unbounded.
    fn score_gt(a: NodeScore, b: NodeScore) -> (r: bool)
        ensures
            r == match (a, b) {
                (NodeScore::Infinite, NodeScore::Infinite) => false,
                (NodeScore::Infinite, NodeScore::Finite(_)) => true,
                (NodeScore::Finite(_), NodeScore::Infinite) => false,
                (NodeScore::Finite(x), NodeScore::Finite(y)) => x > y,
            },
    {
        match (a, b) {
            (NodeScore::Infinite, NodeScore::Infinite) => false,
            (NodeScore::Infinite, NodeScore::Finite(_)) => true,
            (NodeScore::Finite(_), NodeScore::Infinite) => false,
            (NodeScore::Finite(x), NodeScore::Finite(y)) => x > y,
        }
    }

    /// Picks the child to descend into: the one with the strictly
    /// greatest selection score, except that when some child is still
    /// unvisited the pick is uniform among the never-expanded children.
    /// Returns the child's position, or nothing for a childless node.
    pub fn get_child_with_highest_score(&self, rng: &mut rand::rngs::ThreadRng) -> (r: Option<
        usize,
    >)
        requires
            self.wf(),
        ensures
            r is Some <==> self.children@.len() > 0,
            r matches Some(i) ==> i < self.children@.len(),
            r matches Some(i) ==> ((exists|j: int|
                0 <= j < self.children@.len() && #[trigger] self.children@[j].visits == 0)
                ==> !self.children@[i as int].expanded()),
            r matches Some(i) ==> ((forall|j: int|
                0 <= j < self.children@.len() ==> #[trigger] self.children@[j].visits > 0) ==> (
            forall|j: int|
                0 <= j < self.children@.len() ==> !self.child_beats(j, i as int))),
    {
        let n = self.children.len();
        if n == 0 {
            return None;
        }
        proof {
            assert(self.children@[0int].wf());
        }
        let mut max_index: usize = 0;
        let mut max_score: NodeScore = if self.children[0].visits == 0 {
            NodeScore::Infinite
        } else {
            self.children[0].get_score(self.visits)
        };
        let mut idx: usize = 1;
        while idx < n
            invariant
                self.wf(),
                n == self.children@.len(),
                0 < n,
                1 <= idx <= n,
                max_index < idx,
                (max_score == NodeScore::Infinite) == (self.children@[max_index as int].visits
                    == 0),
                self.children@[max_index as int].visits > 0 ==> max_score == NodeScore::Finite(
                    self.child_ucb(max_index as int) as i64,
                ) && self.child_ucb(max_index as int) == self.child_ucb(max_index as int) as i64
                    as int,
                forall|j: int| 0 <= j < idx ==> !self.child_beats(j, max_index as int),
            decreases n - idx,
        {
            proof {
                assert(self.children@[idx as int].wf());
            }
            let c_score: NodeScore = if self.children[idx].visits == 0 {
                NodeScore::Infinite
            } else {
                self.children[idx].get_score(self.visits)
            };
            let better = Self::score_gt(c_score, max_score);
            proof {
                assert(better == self.child_beats(idx as int, max_index as int));
            }
            if better {
                proof {
                    let m = max_index as int;
                    assert forall|j: int| 0 <= j < idx + 1 implies !self.child_beats(
                        j,
                        idx as int,
                    ) by {
                        if j < idx {
                            assert(!self.child_beats(j, m));
                            if self.children@[idx as int].visits > 0 {
                                if self.children@[j].visits == 0 {
                                    assert(self.child_beats(j, m));
                                }
                            }
                        }
                    }
                }
                max_index = idx;
                max_score = c_score;
            }
            idx = idx + 1;
        }
        // When the best score is unbounded, pick uniformly among the
        // children whose own subtree has never been expanded.
        if self.children[max_index].visits == 0 {
            let mut candidates: Vec<usize> = Vec::new();
            let mut k: usize = 0;
            while k < n
                invariant
                    self.wf(),
                    n == self.children@.len(),
                    k <= n,
                    max_index < n,
                    forall|t: int|
                        0 <= t < candidates@.len() ==> #[trigger] candidates@[t] < n
                            && !self.children@[candidates@[t] as int].expanded(),
                    self.children@[max_index as int].visits == 0,
                    max_index < k ==> candidates@.len() > 0,
                decreases n - k,
            {
                if !self.children[k].created_children {
                    candidates.push(k);
                }
                proof {
                    if k == max_index {
                        assert(!self.children@[max_index as int].expanded());
                    }
                }
                k = k + 1;
            }
            let pick = randsrc::random_below(rng, candidates.len());
            let chosen = candidates[pick];
            Some(chosen)
        } else {
            proof {
                assert forall|j: int| 0 <= j < n implies #[trigger] self.children@[j].visits
                    > 0 by {
                    if self.children@[j].visits == 0 {
                        assert(self.child_beats(j, max_index as int));
                    }
                }
            }
            Some(max_index)
        }
    }

    /// One search iteration, attributing `rollouts` simulations to this
    /// node: bumps the visit count; on a terminal position credits all
    /// simulations to the winner at once; on a first visit expands the
    /// node and plays the simulations out; otherwise descends into the
    /// selected child.  Returns the simulations won by each side, and
    /// folds them into this node's tallies from its own player's
    /// perspective.
    pub fn propagate(&mut self, rollouts: usize, rng: &mut rand::rngs::ThreadRng) -> (r: (
        usize,
        usize,
    ))
        requires
            old(self).wf(),
            rollouts >= 1,
            old(self).visits + rollouts <= usize::MAX,
        ensures
            final(self).wf(),
            r.0 + r.1 <= rollouts,
            final(self).visits == old(self).visits + rollouts,
            final(self).game == old(self).game,
            final(self).player == old(self).player,
            final(self).move_index == old(self).move_index,
            final(self).wins == old(self).wins + (if old(self).player == 1i8 {
                r.1
            } else {
                r.0
            }),
            final(self).losses == old(self).losses + (if old(self).player == 1i8 {
                r.0
            } else {
                r.1
            }),
            final(self).expanded() == (old(self).expanded() || old(self).game.score_spec() == 0),
            final(self).children@.len() >= old(self).children@.len(),
            forall|j: int|
                0 <= j < old(self).children@.len() ==> #[trigger] final(self).children@[j].visits
                    >= old(self).children@[j].visits,
            old(self).game.score_spec() != 0 ==> final(self).children == old(self).children && (if
            old(self).game.score_spec() == 1 {
                r == (rollouts, 0usize)
            } else {
                r == (0usize, rollouts)
            }),
            old(self).game.score_spec() == 0 && !old(self).expanded()
                ==> final(self).children@.len()
                == old(self).children@.len() + old(self).game.avail_spec().len(),
            old(self).game.score_spec() == 0 && old(self).expanded()
                ==> final(self).children@.len() == old(self).children@.len(),
            old(self).game.score_spec() == 0 && old(self).expanded() && old(self).children@.len()
                > 0 ==> Self::some_child_visited(final(self).children@, rollouts as nat),
            old(self).game.score_spec() == 0 && !old(self).expanded() ==> (forall|j: int|
                0 <= j < old(self).children@.len() ==> #[trigger] final(self).children@[j] == old(
                    self,
                ).children@[j]),
            old(self).game.score_spec() == 0 && !old(self).expanded() ==> (forall|j: int|
                #![trigger final(self).children@[j]]
                old(self).children@.len() <= j < final(self).children@.len() ==> {
                    let c = final(self).children@[j];
                    let k = j - old(self).children@.len();
                    &&& c.move_index == old(self).game.avail_spec()[k]
                    &&& c.player as int == -(old(self).player as int)
                    &&& c.visits == 0
                    &&& c.wins == 0
                    &&& c.losses == 0
                    &&& !c.expanded()
                    &&& c.children@.len() == 0
                    &&& c.game.model() == old(self).game.apply_spec(c.move_index, old(self).player)
                }),
            old(self).game.score_spec() == 0 && old(self).expanded() && old(self).children@.len()
                > 0 ==> Self::some_descent(
                old(self).children@,
                final(self).children@,
                rollouts as nat,
                r,
            ),
            old(self).game.score_spec() == 0 && old(self).expanded() && old(self).children@.len()
                == 0 ==> r == (0usize, 0usize) && final(self).children == old(self).children,
        decreases old(self).game.free_spec(),
    {
        self.visits = self.visits + rollouts;

        // A decided position: credit every simulation to the winner.
        let score = self.game.get_score();
        if score != 0 {
            if score == 1 {
                if self.player == -1 {
                    self.wins = self.wins + rollouts;
                } else {
                    self.losses = self.losses + rollouts;
                }
                return (rollouts, 0);
            } else {
                if self.player == 1 {
                    self.wins = self.wins + rollouts;
                } else {
                    self.losses = self.losses + rollouts;
                }
                return (0, rollouts);
            }
        }
        let mut wins_1: usize = 0;
        let mut wins_n1: usize = 0;
        if !self.created_children {
            // First visit: create the children, then evaluate the
            // position by independent random playouts.
            self.create_children();
            let ghost after_expand = self.children@;
            let mut it: usize = 0;
            while it < rollouts
                invariant
                    self.wf(),
                    self.children@ == after_expand,
                    it <= rollouts,
                    wins_1 + wins_n1 <= it,
                    self.game == old(self).game,
                    self.player == old(self).player,
                    self.visits == old(self).visits + rollouts,
                    self.wins == old(self).wins,
                    self.losses == old(self).losses,
                    self.move_index == old(self).move_index,
                    self.expanded(),
                    self.children@.len() == old(self).children@.len() + old(
                        self,
                    ).game.avail_spec().len(),
                    forall|j: int|
                        0 <= j < old(self).children@.len() ==> #[trigger] self.children@[j]
                            == old(self).children@[j],
                decreases rollouts - it,
            {
                let res = self.rollout(rng);
                if res == 1 {
                    wins_1 = wins_1 + 1;
                } else if res == -1 {
                    wins_n1 = wins_n1 + 1;
                }
                it = it + 1;
            }
        } else {
            // Already expanded: descend into the selected child and
            // pass its tallies up unchanged.
            let next = self.get_child_with_highest_score(rng);
            if let Some(next_index) = next {
                proof {
                    assert(self.children@[next_index as int].wf());
                    assert(self.children@[next_index as int].game.free_spec() < old(
                        self,
                    ).game.free_spec());
                }
                let (w1, wn1) = self.children[next_index].propagate(rollouts, rng);
                wins_1 = w1;
                wins_n1 = wn1;
                proof {
                    assert forall|i: int| 0 <= i < self.children@.len() implies {
                        let c = #[trigger] self.children@[i];
                        &&& c.wf()
                        &&& c.player as int == -(self.player as int)
                        &&& c.game.free_spec() < self.game.free_spec()
                        &&& c.visits <= self.visits
                        &&& (c.visits == 0 ==> !c.expanded())
                        &&& self.game.avail_spec().contains(c.move_index)
                    } by {
                        assert(old(self).children@[i].wf());
                        if i != next_index as int {
                            assert(self.children@[i] == old(self).children@[i]);
                        }
                    }
                    assert(self.children@[next_index as int].visits >= rollouts);
                    assert(Self::some_child_visited(self.children@, rollouts as nat));
                    assert(Self::descended_at(
                        old(self).children@,
                        self.children@,
                        next_index as int,
                        rollouts as nat,
                        (w1, wn1),
                    ));
                    assert(Self::some_descent(
                        old(self).children@,
                        self.children@,
                        rollouts as nat,
                        (w1, wn1),
                    ));
                }
            }
        }
        if self.player == -1 {
            self.wins = self.wins + wins_1;
            self.losses = self.losses + wins_n1;
        } else {
            self.wins = self.wins + wins_n1;
            self.losses = self.losses + wins_1;
        }
        (wins_1, wins_n1)
    }

    /// The first child with the greatest visit count — ties go to the
    /// earliest child — or nothing only for a childless node.
    pub fn get_most_visited_child(&self) -> (r: Option<&Node<T>>)
        ensures
            r is Some <==> self.children@.len() > 0,
            r matches Some(c) ==> {
                &&& exists|i: int|
                    0 <= i < self.children@.len() && *c == #[trigger] self.children@[i] && (
                    forall|j: int| 0 <= j < i ==> #[trigger] self.children@[j].visits < c.visits)
                &&& forall|j: int|
                    0 <= j < self.children@.len() ==> #[trigger] self.children@[j].visits
                        <= c.visits
            },
    {
        let n = self.children.len();
        if n == 0 {
            return None;
        }
        let mut most_visits: usize = self.children[0].visits;
        let mut best_index: usize = 0;
        let mut i: usize = 1;
        while i < n
            invariant
                n == self.children@.len(),
                0 < n,
                1 <= i <= n,
                best_index < i,
                most_visits == self.children@[best_index as int].visits,
                forall|j: int|
                    0 <= j < best_index ==> #[trigger] self.children@[j].visits < most_visits,
                forall|j: int| 0 <= j < i ==> #[trigger] self.children@[j].visits <= most_visits,
            decreases n - i,
        {
            if self.children[i].visits > most_visits {
                most_visits = self.children[i].visits;
                best_index = i;
            }
            i = i + 1;
        }
        Some(&self.children[best_index])
    }

    /// The driver: runs `iters` search iterations from this node, each
    /// attributing `rollouts` simulations.
    pub fn predict(&mut self, iters: usize, rollouts: usize)
        requires
            old(self).wf(),
            rollouts >= 1,
            old(self).visits + iters * rollouts <= usize::MAX,
        ensures
            final(self).wf(),
            final(self).game == old(self).game,
            final(self).player == old(self).player,
            final(self).move_index == old(self).move_index,
            final(self).visits == old(self).visits + iters * rollouts,
            final(self).expanded() == (old(self).expanded() || (iters >= 1 && old(
                self,
            ).game.score_spec() == 0)),
            iters == 0 ==> final(self).children@.len() == old(self).children@.len(),
            (old(self).game.score_spec() != 0 || old(self).game.avail_spec().len() == 0)
                && old(self).children@.len() == 0 ==> final(self).children@.len() == 0,
            old(self).game.score_spec() == 0 && !old(self).expanded() && old(
                self,
            ).children@.len() == 0 && iters >= 1 ==> final(self).children@.len() == old(
                self,
            ).game.avail_spec().len(),
            old(self).game.score_spec() == 0 && old(self).game.avail_spec().len() > 0
                && !old(self).expanded() && old(self).children@.len() == 0 && iters >= 2
                ==> Self::some_child_visited(final(self).children@, 1),
    {
        let mut rng = randsrc::new_rng();
        let mut it: usize = 0;
        while it < iters
            invariant
                self.wf(),
                it <= iters,
                rollouts >= 1,
                self.game == old(self).game,
                self.player == old(self).player,
                self.move_index == old(self).move_index,
                old(self).visits + iters * rollouts <= usize::MAX,
                self.visits == old(self).visits + it * rollouts,
                self.expanded() == (old(self).expanded() || (it >= 1 && old(
                    self,
                ).game.score_spec() == 0)),
                it == 0 ==> self.children@.len() == old(self).children@.len(),
                (old(self).game.score_spec() != 0 || old(self).game.avail_spec().len() == 0)
                    && old(self).children@.len() == 0 ==> self.children@.len() == 0,
                old(self).game.score_spec() == 0 && !old(self).expanded() && old(
                    self,
                ).children@.len() == 0 && it >= 1 ==> self.children@.len() == old(
                    self,
                ).game.avail_spec().len(),
                old(self).game.score_spec() == 0 && old(self).game.avail_spec().len() > 0
                    && !old(self).expanded() && old(self).children@.len() == 0 && it >= 2
                    ==> Self::some_child_visited(self.children@, 1),
            decreases iters - it,
        {
            proof {
                vstd::arithmetic::mul::lemma_mul_inequality(
                    it as int + 1,
                    iters as int,
                    rollouts as int,
                );
                assert((it as int + 1) * (rollouts as int) == it as int * rollouts as int
                    + rollouts as int) by (nonlinear_arith);
            }
            let _ = self.propagate(rollouts, &mut rng);
            it = it + 1;
        }
    }
}

} // verus!
