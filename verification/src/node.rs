//! The nodes of the search tree: their counters, their scores and the
//! choice among the children of a node.

use crate::board::{lemma_full, lemma_play, lemma_plays_on, BoardView, PlayerToken, TicTacToeBoard};
use vstd::prelude::*;

verus! {

/// A node of the search tree. Nodes live in one vector and name each other
/// by index: the parent by `parent_location`, the children by the half-open
/// range `children`.
#[derive(Clone, Copy, Debug)]
pub struct Node {
    pub state: TicTacToeBoard,
    pub parent_location: Option<usize>,
    pub parent_action: Option<(u8, u8)>,
    pub position: usize,
    pub children: Option<(usize, usize)>,
    pub wins: i32,
    pub visits: u32,
}

/// The most visits that a node can record.
pub const VISIT_LIMIT: u32 = 0x7fff_ffff;

/// A score can be computed for every node that has been visited, below a
/// parent that has been visited. The scorer of a search is meant to give
/// the upper confidence bound of the node,
/// `wins / visits + sqrt(2 * ln(parent_visits) / visits)`, as a whole
/// number that is ordered as the bounds are: fractions are computed by the
/// caller, and their order is all that the search reads.
pub open spec fn scorer_ready<F: Fn(i32, u32, u32) -> i64>(scorer: &F) -> bool {
    forall|wins: i32, visits: u32, parent_visits: u32|
        visits > 0 && parent_visits > 0 ==> call_requires(*scorer, (wins, visits, parent_visits))
}

/// `score` is a score of `node` below a parent with `parent_visits` visits.
/// At the final choice it is the node's accumulated reward. During the
/// descent it is what `scorer` gives for the node's counters, and a node
/// that was never visited, or whose parent was not, has none.
pub open spec fn score_matches<F: Fn(i32, u32, u32) -> i64>(
    scorer: &F,
    node: Node,
    parent_visits: u32,
    select_ending: bool,
    score: Option<i64>,
) -> bool {
    if select_ending {
        score == Some(node.wins as i64)
    } else if node.visits == 0 || parent_visits == 0 {
        score is None
    } else {
        score is Some && call_ensures(*scorer, (node.wins, node.visits, parent_visits), score->0)
    }
}

/// `pick` is the first index with the greatest score: no score is greater,
/// and every score before it is smaller.
pub open spec fn is_best(scores: Seq<Option<i64>>, pick: int) -> bool {
    &&& 0 <= pick < scores.len()
    &&& scores[pick] is Some
    &&& forall|other: int|
        0 <= other < scores.len() && scores[other] is Some ==> scores[other]->0 <= scores[pick]->0
    &&& forall|other: int|
        0 <= other < pick && scores[other] is Some ==> scores[other]->0 < scores[pick]->0
}

/// `scores` are scores of the nodes from `start` on, in their order.
pub open spec fn children_scored<F: Fn(i32, u32, u32) -> i64>(
    scorer: &F,
    tree: Seq<Node>,
    start: int,
    parent_visits: u32,
    select_ending: bool,
    scores: Seq<Option<i64>>,
) -> bool {
    forall|k: int|
        0 <= k < scores.len() ==> score_matches(
            scorer,
            tree[start + k],
            parent_visits,
            select_ending,
            #[trigger] scores[k],
        )
}

/// `selected` is the child, counted from `start`, with the first greatest
/// of `scores`, or `None` where there is no score.
pub open spec fn picked(scores: Seq<Option<i64>>, start: int, selected: Option<usize>) -> bool {
    match selected {
        Some(child) => is_best(scores, child - start),
        None => forall|k: int| 0 <= k < scores.len() ==> scores[k] is None,
    }
}

/// The reward of a playout from `start` that ended in `end`: the value of
/// `end` to X, with its sign turned where the same player is to move in
/// both positions.
pub open spec fn rollout_value(start: BoardView, end: BoardView) -> int {
    end.reward() * (if end.mover == start.mover {
        -1int
    } else {
        1int
    })
}

/// The reward of a playout from `start` that ended in `end`.
pub fn rollout_reward(start: &TicTacToeBoard, end: &TicTacToeBoard) -> (reward: i32)
    ensures
        reward == rollout_value(start@, end@),
        -1 <= reward <= 1,
{
    end.reward() * (if end.x_plays() == start.x_plays() {
        -1
    } else {
        1
    })
}

/// The index of the first greatest score, or `None` where there is no score.
pub fn best_scored(scores: &Vec<Option<i64>>) -> (selected: Option<usize>)
    ensures
        match selected {
            Some(pick) => is_best(scores@, pick as int),
            None => forall|k: int| 0 <= k < scores@.len() ==> scores@[k] is None,
        },
{
    let mut selected: Option<usize> = None;
    let mut max_score: i64 = 0;
    let mut at: usize = 0;
    while at < scores.len()
        invariant
            at <= scores.len(),
            match selected {
                Some(pick) => is_best(scores@.take(at as int), pick as int) && scores@[pick as int]
                    == Some(max_score),
                None => forall|k: int| 0 <= k < at ==> scores@[k] is None,
            },
        decreases scores.len() - at,
    {
        if let Some(score) = scores[at] {
            if selected.is_none() || score > max_score {
                max_score = score;
                selected = Some(at);
            }
        }
        at += 1;
    }
    proof {
        assert(scores@.take(at as int) == scores@);
    }
    selected
}

impl Node {
    /// Creates a new node
    pub fn new(state: TicTacToeBoard, position_to_push: usize) -> (node: Node)
        ensures
            node == (Node {
                state,
                parent_location: None,
                parent_action: None,
                position: position_to_push,
                children: None,
                wins: 0,
                visits: 0,
            }),
    {
        Node {
            state,
            parent_location: None,
            parent_action: None,
            children: None,
            position: position_to_push,
            wins: 0,
            visits: 0,
        }
    }

    /// Creates a child
    pub fn child_creation(
        state: TicTacToeBoard,
        parent_location: usize,
        parent_action: (u8, u8),
        position_to_push: usize,
    ) -> (node: Node)
        ensures
            node == (Node {
                state,
                parent_location: Some(parent_location),
                parent_action: Some(parent_action),
                position: position_to_push,
                children: None,
                wins: 0,
                visits: 0,
            }),
    {
        Node {
            state,
            parent_location: Some(parent_location),
            parent_action: Some(parent_action),
            children: None,
            position: position_to_push,
            wins: 0,
            visits: 0,
        }
    }

    /// Checks if the node is a terminal node
    pub fn terminal(&self) -> (ended: bool)
        ensures
            ended == self.state@.game_over(),
    {
        self.state.game_over()
    }

    /// The node has a range of children with one child for each legal move.
    pub open spec fn expanded(self) -> bool {
        match self.children {
            Some((start, end)) => end - start == self.state@.legal_moves().len(),
            None => false,
        }
    }

    /// Checks if the given node is fully expanded
    pub fn fully_expanded(&self) -> (full: bool)
        requires
            self.children matches Some((start, end)) ==> start <= end,
        ensures
            full == self.expanded(),
    {
        if let Some((a, b)) = self.children {
            return self.state.possible_moves().len() == b - a;
        }
        false
    }

    /// The node's score below a parent with `parent_visits` visits: the
    /// accumulated reward at the final choice, else what `scorer` makes of
    /// the counters, where both visit counts are positive.
    pub fn ucb1<F: Fn(i32, u32, u32) -> i64>(
        &self,
        parent_visits: u32,
        select_ending: bool,
        scorer: &F,
    ) -> (score: Option<i64>)
        requires
            scorer_ready(scorer),
        ensures
            score_matches(scorer, *self, parent_visits, select_ending, score),
    {
        if select_ending {
            return Some(self.wins as i64);
        }
        if self.visits == 0 || parent_visits == 0 {
            return None;
        }
        Some(scorer(self.wins, self.visits, parent_visits))
    }

    /// Selects the best child to pursue based on ucb values
    pub fn select_child<F: Fn(i32, u32, u32) -> i64>(
        &self,
        tree_graph: &Vec<Node>,
        select_ending: bool,
        scorer: &F,
    ) -> (selected: Option<usize>)
        requires
            scorer_ready(scorer),
            self.children matches Some((start, end)) ==> start <= end <= tree_graph@.len(),
        ensures
            match self.children {
                Some((start, end)) => exists|scores: Seq<Option<i64>>|
                    scores.len() == end - start && children_scored(
                        scorer,
                        tree_graph@,
                        start as int,
                        self.visits,
                        select_ending,
                        scores,
                    ) && picked(scores, start as int, selected),
                None => selected is None,
            },
    {
        let parent_visits = self.visits;
        if let Some((start, end)) = self.children {
            let mut scores: Vec<Option<i64>> = Vec::new();
            let mut child = start;
            while child < end
                invariant
                    start <= child <= end <= tree_graph@.len(),
                    scorer_ready(scorer),
                    scores@.len() == child - start,
                    children_scored(
                        scorer,
                        tree_graph@,
                        start as int,
                        parent_visits,
                        select_ending,
                        scores@,
                    ),
                decreases end - child,
            {
                let score = tree_graph[child].ucb1(parent_visits, select_ending, scorer);
                scores.push(score);
                child += 1;
            }
            let selected = match best_scored(&scores) {
                Some(pick) => Some(start + pick),
                None => None,
            };
            proof {
                assert(picked(scores@, start as int, selected));
            }
            selected
        } else {
            None
        }
    }

    /// Rolls out a given node and gives the reward for the node
    pub fn rollout(&self) -> (reward: i32)
        ensures
            -1 <= reward <= 1,
            exists|moves: Seq<(u8, u8)>, end: BoardView|
                self.state@.plays_to(moves, end) && end.game_over() && reward == rollout_value(
                    self.state@,
                    end,
                ),
    {
        let mut state = self.state;
        let starting_state = self.state;
        let ghost mut played: Seq<(u8, u8)> = Seq::empty();
        proof {
            state.lemma_view();
            lemma_full(state@);
        }
        while !state.game_over()
            invariant
                starting_state@.plays_to(played, state@),
                state@.wf(),
                state@.taken() <= 9,
            decreases 9 - state@.taken(),
        {
            let action = state.get_random_move();
            proof {
                lemma_plays_on(starting_state@, played, state@, action);
                lemma_play(state@, action);
                lemma_full(state@.play(action));
                played = played.push(action);
            }
            state = state.apply_move(action);
        }
        rollout_reward(&starting_state, &state)
    }

    /// updates the given node based on reward from previous nodes
    pub fn update(&mut self, reward: i32)
        requires
            old(self).visits < VISIT_LIMIT,
            -old(self).visits <= old(self).wins <= old(self).visits,
            -1 <= reward <= 1,
        ensures
            *final(self) == (Node {
                visits: (old(self).visits + 1) as u32,
                wins: (old(self).wins + reward) as i32,
                ..*old(self)
            }),
            -final(self).visits <= final(self).wins <= final(self).visits,
    {
        self.visits += 1;
        self.wins += reward;
    }

    /// Adds detail of children
    pub fn refactor_children(&mut self, initial: usize, ending: usize)
        ensures
            *final(self) == (Node { children: Some((initial, ending)), ..*old(self) }),
    {
        self.children = Some((initial, ending))
    }
}

/// The best score is found at one index only.
pub proof fn law_best_is_unique(scores: Seq<Option<i64>>, pick: int, other: int)
    requires
        is_best(scores, pick),
        is_best(scores, other),
    ensures
        pick == other,
{
}

/// Of two equal scores the later one is never the pick: ties go to the
/// lower index.
pub proof fn law_ties_go_to_the_lower_index(
    scores: Seq<Option<i64>>,
    pick: int,
    lower: int,
    higher: int,
)
    requires
        is_best(scores, pick),
        0 <= lower < higher < scores.len(),
        scores[lower] is Some,
        scores[lower] == scores[higher],
    ensures
        pick != higher,
{
}

/// In a line of play that began where nobody held a line, the player who
/// is to move at the end holds no line.
pub proof fn lemma_mover_holds_no_line(start: BoardView, moves: Seq<(u8, u8)>, end: BoardView)
    requires
        start.wf(),
        !start.has_line(start.mover),
        start.plays_to(moves, end),
    ensures
        !end.has_line(end.mover),
    decreases moves.len(),
{
    if moves.len() > 0 {
        let next = start.play(moves[0]);
        lemma_play(start, moves[0]);
        lemma_mover_holds_no_line(next, moves.drop_first(), end);
    }
}

/// What a playout is worth. Where the player to move at the start holds no
/// line, the two turns of the sign come to this: a playout that ends in a
/// win, whoever wins, is worth 1 where X is to move at its start and -1
/// where O is, and one that ends in a draw is worth 0.
pub proof fn law_rollout_value(start: BoardView, moves: Seq<(u8, u8)>, end: BoardView)
    requires
        start.wf(),
        !start.has_line(start.mover),
        start.plays_to(moves, end),
    ensures
        rollout_value(start, end) == (if end.winner() is None {
            0int
        } else if start.mover == PlayerToken::X {
            1int
        } else {
            -1int
        }),
{
    lemma_mover_holds_no_line(start, moves, end);
    let value = end.reward();
    assert(value == 1 || value == 0 || value == -1);
    if end.mover == start.mover {
        assert(rollout_value(start, end) == value * (-1int));
    } else {
        assert(rollout_value(start, end) == value * 1int);
    }
}

} // verus!
