//! Monte Carlo tree search: rounds of selection, expansion, random playout
//! and update, for as long as the budget lasts, and the final choice.

use crate::board::{
    lemma_blank_below_order, lemma_full, BoardView, PlayerToken, TicTacToeBoard,
};
use crate::chance::random_between;
use crate::clock::within_budget;
use crate::node::{
    children_scored, is_best, law_rollout_value, picked, rollout_value, score_matches,
    scorer_ready, Node, VISIT_LIMIT,
};
use crate::tree::{
    backpropagate, backpropagated, child_step, credited, expand, grown_at, is_child_of, is_path,
    lemma_path_rises,
    node_linked, node_settled, same_place, share, tree_settled, tree_wf,
};
use std::time::SystemTime;
use vstd::prelude::*;

verus! {

/// The search goes from node `from` down to its child `to`: the game has
/// not ended at `from`, and `to` has the first greatest score among its
/// children.
pub open spec fn descends<F: Fn(i32, u32, u32) -> i64>(
    scorer: &F,
    tree: Seq<Node>,
    from: usize,
    to: usize,
) -> bool {
    &&& !tree[from as int].state@.game_over()
    &&& tree[from as int].children matches Some((start, end)) && exists|scores: Seq<Option<i64>>|
        scores.len() == end - start && children_scored(
            scorer,
            tree,
            start as int,
            tree[from as int].visits,
            false,
            scores,
        ) && picked(scores, start as int, Some(to))
}

/// Selection: from the root, goes down to the best-scored child for as long
/// as the game has not ended at the node and the node has its children.
/// Gives the nodes that it went through, the root first.
pub fn select_leaf<F: Fn(i32, u32, u32) -> i64>(tree_graph: &Vec<Node>, scorer: &F) -> (history:
    Vec<usize>)
    requires
        tree_wf(tree_graph@),
        tree_settled(tree_graph@),
        scorer_ready(scorer),
    ensures
        is_path(tree_graph@, history@),
        tree_graph@[history@.last() as int].state@.game_over()
            || tree_graph@[history@.last() as int].children is None,
        forall|j: int|
            0 <= j < history@.len() - 1 ==> #[trigger] descends(
                scorer,
                tree_graph@,
                history@[j],
                history@[j + 1],
            ),
{
    let mut index: usize = 0;
    let mut history: Vec<usize> = Vec::new();
    history.push(index);
    proof {
        assert(node_linked(tree_graph@, 0));
    }
    while !tree_graph[index].terminal() && tree_graph[index].fully_expanded()
        invariant
            tree_wf(tree_graph@),
            tree_settled(tree_graph@),
            scorer_ready(scorer),
            index < tree_graph@.len(),
            history@.last() == index,
            is_path(tree_graph@, history@),
            node_linked(tree_graph@, index as int),
            forall|j: int|
                0 <= j < history@.len() - 1 ==> #[trigger] descends(
                    scorer,
                    tree_graph@,
                    history@[j],
                    history@[j + 1],
                ),
        decreases tree_graph@.len() - index,
    {
        let ghost before = history@;
        let ghost from = index;
        match tree_graph[index].select_child(tree_graph, false, scorer) {
            Some(child) => {
                proof {
                    assert(descends(scorer, tree_graph@, from, child));
                    assert(child_step(tree_graph@, from as int, child as int));
                }
                index = child;
                history.push(index);
                proof {
                    assert(node_linked(tree_graph@, index as int));
                    assert forall|j: int| 0 <= j < history@.len() - 1 implies #[trigger] child_step(
                        tree_graph@,
                        history@[j] as int,
                        history@[j + 1] as int,
                    ) by {
                        if j < before.len() - 1 {
                            assert(child_step(tree_graph@, before[j] as int, before[j + 1] as int));
                        }
                    }
                    assert forall|j: int| 0 <= j < history@.len() - 1 implies #[trigger] descends(
                        scorer,
                        tree_graph@,
                        history@[j],
                        history@[j + 1],
                    ) by {
                        if j < before.len() - 1 {
                            assert(descends(scorer, tree_graph@, before[j], before[j + 1]));
                        }
                    }
                }
            },
            None => {
                proof {
                    lemma_settled_scores(scorer, tree_graph@, from as int);
                    assert(false);
                }
                return history;
            },
        }
    }
    history
}

/// Below a node that has been visited together with one of its children,
/// the scores of the descent are not all missing.
pub proof fn lemma_settled_scores<F: Fn(i32, u32, u32) -> i64>(
    scorer: &F,
    tree: Seq<Node>,
    from: int,
)
    requires
        node_settled(tree, from),
    ensures
        match tree[from].children {
            Some((start, end)) => forall|scores: Seq<Option<i64>>|
                scores.len() == end - start && children_scored(
                    scorer,
                    tree,
                    start as int,
                    tree[from].visits,
                    false,
                    scores,
                ) ==> !picked(scores, start as int, None),
            None => true,
        },
{
    match tree[from].children {
        Some((start, end)) => {
            let k = choose|k: int| start <= k < end && (#[trigger] tree[k]).visits > 0;
            assert forall|scores: Seq<Option<i64>>|
                scores.len() == end - start && children_scored(
                    scorer,
                    tree,
                    start as int,
                    tree[from].visits,
                    false,
                    scores,
                ) implies !picked(scores, start as int, None) by {
                assert(score_matches(
                    scorer,
                    tree[start + (k - start)],
                    tree[from].visits,
                    false,
                    scores[k - start],
                ));
            }
        },
        None => {},
    }
}

/// The sign of the rewards of a search: 1 where X is to move at the root,
/// -1 where O is.
pub open spec fn root_sign(tree: Seq<Node>) -> int {
    if tree[0].state@.mover == PlayerToken::X {
        1
    } else {
        -1
    }
}

/// Node `i` has lost nothing where the player of the root is to move, and
/// won nothing where the other player is.
pub open spec fn node_signed(tree: Seq<Node>, i: int) -> bool {
    if tree[i].state@.mover == tree[0].state@.mover {
        tree[i].wins >= 0
    } else {
        tree[i].wins <= 0
    }
}

/// At most one child of node `i` has been visited.
pub open spec fn node_single(tree: Seq<Node>, i: int) -> bool {
    tree[i].children matches Some((start, end)) ==> forall|a: int, b: int|
        start <= a < end && start <= b < end && (#[trigger] tree[a]).visits > 0 && (
        #[trigger] tree[b]).visits > 0 ==> a == b
}

/// What the rounds of one search keep of its tree, beyond its links: the
/// player to move at the root holds no line, every node's accumulated
/// reward has the sign of its side, and no node has two visited children.
pub open spec fn tree_searched(tree: Seq<Node>) -> bool {
    &&& !tree[0].state@.has_line(tree[0].state@.mover)
    &&& forall|i: int| 0 <= i < tree.len() ==> #[trigger] node_signed(tree, i)
    &&& forall|i: int| 0 <= i < tree.len() ==> #[trigger] node_single(tree, i)
}

/// In a tree below a root whose player to move holds no line, the player
/// to move at any node holds no line.
pub proof fn lemma_node_mover_holds_no_line(tree: Seq<Node>, i: int)
    requires
        tree_wf(tree),
        !tree[0].state@.has_line(tree[0].state@.mover),
        0 <= i < tree.len(),
    ensures
        !tree[i].state@.has_line(tree[i].state@.mover),
{
    assert(node_linked(tree, i));
    if i > 0 {
        let parent = tree[i].parent_location->0 as int;
        assert(node_linked(tree, parent));
        let (start, end) = tree[parent].children->0;
        assert(is_child_of(tree, parent, start as int, i));
        lemma_blank_below_order(tree[parent].state@, 9);
        let action = tree[parent].state@.legal_moves()[i - start];
        assert(tree[parent].state@.legal(action));
    }
}

/// Along a path the players take turns: at the even places the player of
/// the root is to move, at the odd places the other.
pub proof fn lemma_path_movers(tree: Seq<Node>, history: Seq<usize>, j: int)
    requires
        tree_wf(tree),
        is_path(tree, history),
        0 <= j < history.len(),
    ensures
        tree[history[j] as int].state@.mover == (if j % 2 == 0 {
            tree[0].state@.mover
        } else {
            tree[0].state@.mover.other()
        }),
    decreases j,
{
    if j > 0 {
        lemma_path_movers(tree, history, j - 1);
        let from = history[j - 1] as int;
        assert(child_step(tree, from, history[j - 1 + 1] as int));
        assert(node_linked(tree, from));
        let (start, end) = tree[from].children->0;
        assert(is_child_of(tree, from, start as int, history[j] as int));
    }
}

/// The child that a descent goes to has been visited.
pub proof fn lemma_descent_visited<F: Fn(i32, u32, u32) -> i64>(
    scorer: &F,
    tree: Seq<Node>,
    from: usize,
    to: usize,
)
    requires
        descends(scorer, tree, from, to),
    ensures
        tree[to as int].visits > 0,
        child_step(tree, from as int, to as int),
{
    let (start, end) = tree[from as int].children->0;
    let scores = choose|scores: Seq<Option<i64>>|
        scores.len() == end - start && children_scored(
            scorer,
            tree,
            start as int,
            tree[from as int].visits,
            false,
            scores,
        ) && picked(scores, start as int, Some(to));
    assert(score_matches(
        scorer,
        tree[start + (to - start)],
        tree[from as int].visits,
        false,
        scores[to - start],
    ));
}

/// A leaf that gets its children, none of them visited, leaves the tree
/// as a search keeps it.
pub proof fn lemma_expansion_keeps_searched(
    before: Seq<Node>,
    grown: Seq<Node>,
    index: int,
    range: (usize, usize),
)
    requires
        tree_wf(before),
        tree_searched(before),
        tree_wf(grown),
        0 <= index < before.len(),
        grown_at(before, grown, index, range),
    ensures
        tree_searched(grown),
{
    assert forall|i: int| 0 <= i < grown.len() implies #[trigger] node_signed(grown, i) by {
        if i < range.0 {
            assert(node_signed(before, i));
        }
    }
    assert forall|i: int| 0 <= i < grown.len() implies #[trigger] node_single(grown, i) by {
        assert(node_linked(grown, i));
        if i < range.0 && i != index {
            assert(node_single(before, i));
            assert(node_linked(before, i));
            match before[i].children {
                Some((s, e)) => {
                    assert forall|a: int, b: int|
                        s <= a < e && s <= b < e && (#[trigger] grown[a]).visits > 0 && (
                        #[trigger] grown[b]).visits > 0 implies a == b by {
                        assert(before[a].visits > 0 && before[b].visits > 0);
                    }
                },
                None => {},
            }
        }
    }
}

/// A pass back up a path leaves the tree as a search keeps it, where the
/// reward is a gain for the side of the last node of the path, where every
/// node of the path between the root and the last has been visited, and
/// where the last has been visited or none of its siblings has.
pub proof fn lemma_pass_keeps_searched(
    grown: Seq<Node>,
    after: Seq<Node>,
    history: Seq<usize>,
    reward: int,
    gain: int,
)
    requires
        tree_wf(grown),
        tree_searched(grown),
        is_path(grown, history),
        backpropagated(grown, after, history, reward),
        grown[0].visits < VISIT_LIMIT,
        0 <= gain <= 1,
        reward == (if grown[history.last() as int].state@.mover == grown[0].state@.mover {
            gain
        } else {
            -gain
        }),
        forall|j: int| 1 <= j < history.len() - 1 ==> grown[(#[trigger] history[j]) as int].visits > 0,
        history.len() >= 2 ==> grown[history.last() as int].visits > 0 || (grown[history[
            history.len() - 2] as int].children matches Some((start, end)) && forall|k: int|
            start <= k < end ==> (#[trigger] grown[k]).visits == 0),
    ensures
        tree_searched(after),
{
    let length = history.len() as int;
    assert(after[history[0] as int] == credited(grown[history[0] as int], share(length, 0, reward)));
    assert forall|i: int| 0 <= i < grown.len() implies (#[trigger] after[i]).state == grown[i].state
        && after[i].children == grown[i].children && after[i].visits >= grown[i].visits
        && node_signed(after, i) by {
        assert(node_linked(grown, i));
        assert(node_linked(grown, 0));
        assert(node_signed(grown, i));
        if history.contains(i as usize) {
            let j = choose|j: int| 0 <= j < history.len() && history[j] == i;
            assert(after[history[j] as int] == credited(
                grown[history[j] as int],
                share(length, j, reward),
            ));
            lemma_path_movers(grown, history, j);
            lemma_path_movers(grown, history, length - 1);
        }
    }
    assert forall|i: int| 0 <= i < after.len() implies #[trigger] node_single(after, i) by {
        assert(node_linked(grown, i));
        assert(node_single(grown, i));
        match grown[i].children {
            Some((start, end)) => {
                assert forall|a: int, b: int|
                    start <= a < end && start <= b < end && (#[trigger] after[a]).visits > 0 && (
                    #[trigger] after[b]).visits > 0 implies a == b by {
                    lemma_visited_child(grown, after, history, reward, i, a);
                    lemma_visited_child(grown, after, history, reward, i, b);
                    if grown[a].visits > 0 && grown[b].visits > 0 {
                    } else {
                        assert(grown[history.last() as int].visits == 0);
                        assert(history.last() == a || history.last() == b);
                        assert(history[length - 2] == i);
                        if grown[a].visits > 0 {
                            assert(false);
                        }
                        if grown[b].visits > 0 {
                            assert(false);
                        }
                    }
                }
            },
            None => {},
        }
    }
}

/// A child of node `i` that has been visited after a pass was visited
/// before it, or is the last node of the path, with its parent before it.
pub proof fn lemma_visited_child(
    grown: Seq<Node>,
    after: Seq<Node>,
    history: Seq<usize>,
    reward: int,
    i: int,
    a: int,
)
    requires
        tree_wf(grown),
        is_path(grown, history),
        backpropagated(grown, after, history, reward),
        0 <= i < grown.len(),
        child_step(grown, i, a),
        after[a].visits > 0,
        forall|j: int| 1 <= j < history.len() - 1 ==> grown[(#[trigger] history[j]) as int].visits > 0,
    ensures
        grown[a].visits > 0 || (history.len() >= 2 && history.last() == a && history[history.len()
            - 2] == i),
{
    assert(node_linked(grown, i));
    let (start, end) = grown[i].children->0;
    assert(is_child_of(grown, i, start as int, a));
    assert(node_linked(grown, 0));
    if history.contains(a as usize) {
        let j = choose|j: int| 0 <= j < history.len() && history[j] == a;
        assert(j >= 1);
        let from = history[j - 1] as int;
        assert(child_step(grown, from, history[j - 1 + 1] as int));
        assert(node_linked(grown, from));
        let (s, e) = grown[from].children->0;
        assert(is_child_of(grown, from, s as int, a));
        assert(from == i);
    } else {
        assert(after[a] == grown[a]);
    }
}

/// The scores of the final choice among the nodes `start..end`: each
/// node's accumulated reward.
pub open spec fn ending_scores(tree: Seq<Node>, start: int, end: int) -> Seq<Option<i64>> {
    Seq::new((end - start) as nat, |k: int| Some(tree[start + k].wins as i64))
}

/// `action` is the final choice at the root: the move into the child that
/// has the first greatest accumulated reward.
pub open spec fn is_best_move(tree: Seq<Node>, action: (u8, u8)) -> bool {
    match tree[0].children {
        Some((start, end)) => exists|child: int|
            start <= child < end && is_best(
                ending_scores(tree, start as int, end as int),
                child - start,
            ) && tree[child].parent_action == Some(action),
        None => false,
    }
}

/// `action` is the first of `moves`, or the second.
pub open spec fn first_or_second(moves: Seq<(u8, u8)>, action: (u8, u8)) -> bool {
    moves.len() > 0 && (action == moves[0] || (moves.len() > 1 && action == moves[1]))
}

/// The final choice: the move into the child of the root that has the
/// first greatest accumulated reward. In the tree of a search that is the
/// first legal move, or the second where the child of the first has lost.
pub fn best_move<F: Fn(i32, u32, u32) -> i64>(tree_graph: &Vec<Node>, scorer: &F) -> (action: (
    u8,
    u8,
))
    requires
        tree_wf(tree_graph@),
        tree_graph@[0].children is Some,
        !tree_graph@[0].state@.game_over(),
        scorer_ready(scorer),
    ensures
        is_best_move(tree_graph@, action),
        tree_graph@[0].state@.legal(action),
        tree_searched(tree_graph@) ==> first_or_second(tree_graph@[0].state@.legal_moves(), action),
{
    proof {
        assert(node_linked(tree_graph@, 0));
        lemma_full(tree_graph@[0].state@);
        lemma_blank_below_order(tree_graph@[0].state@, 9);
    }
    let ghost (start, end) = tree_graph@[0].children->0;
    let selected = tree_graph[0].select_child(tree_graph, true, scorer);
    proof {
        let scores = choose|scores: Seq<Option<i64>>|
            scores.len() == end - start && children_scored(
                scorer,
                tree_graph@,
                start as int,
                tree_graph@[0].visits,
                true,
                scores,
            ) && picked(scores, start as int, selected);
        assert forall|k: int| 0 <= k < scores.len() implies scores[k] == ending_scores(
            tree_graph@,
            start as int,
            end as int,
        )[k] by {
            assert(score_matches(
                scorer,
                tree_graph@[start + k],
                tree_graph@[0].visits,
                true,
                scores[k],
            ));
        }
        assert(scores =~= ending_scores(tree_graph@, start as int, end as int));
        assert(scores[0] is Some);
    }
    match selected {
        Some(child_selected) => {
            proof {
                assert(is_child_of(tree_graph@, 0, start as int, child_selected as int));
                if tree_searched(tree_graph@) && child_selected - start >= 2 {
                    let first = start as int;
                    let second = start + 1;
                    assert(is_child_of(tree_graph@, 0, start as int, first));
                    assert(is_child_of(tree_graph@, 0, start as int, second));
                    assert(is_child_of(tree_graph@, 0, start as int, child_selected as int));
                    assert(node_signed(tree_graph@, first));
                    assert(node_signed(tree_graph@, second));
                    assert(node_signed(tree_graph@, child_selected as int));
                    assert(node_linked(tree_graph@, first));
                    assert(node_linked(tree_graph@, second));
                    assert(node_single(tree_graph@, 0));
                    let scores = ending_scores(tree_graph@, start as int, end as int);
                    assert(scores[0] is Some && scores[1] is Some);
                    assert(tree_graph@[first].visits > 0);
                    assert(tree_graph@[second].visits > 0);
                    assert(false);
                }
            }
            match tree_graph[child_selected].parent_action {
                Some(action) => action,
                None => {
                    assert(false);
                    (0, 0)
                },
            }
        },
        None => {
            assert(false);
            (0, 0)
        },
    }
}

/// How a round comes to its path. Selection gave `selected` in the tree
/// `before`. Where the game has not ended at its last node, that node was
/// expanded, which gave the tree `grown` and the children `range`, and the
/// path `history` is `selected` with one of those children behind it.
/// Where the game has ended there, the tree and the path are as they were.
pub open spec fn round_path(
    before: Seq<Node>,
    grown: Seq<Node>,
    selected: Seq<usize>,
    history: Seq<usize>,
    range: (usize, usize),
) -> bool {
    if before[selected.last() as int].state@.game_over() {
        grown == before && history == selected
    } else {
        &&& grown_at(before, grown, selected.last() as int, range)
        &&& history.len() == selected.len() + 1
        &&& history.drop_last() == selected
        &&& range.0 <= history.last() < range.1
    }
}

/// The path of a round is a path of the tree that the round has grown.
pub proof fn lemma_round_path(
    before: Seq<Node>,
    grown: Seq<Node>,
    selected: Seq<usize>,
    history: Seq<usize>,
    range: (usize, usize),
)
    requires
        tree_wf(before),
        is_path(before, selected),
        round_path(before, grown, selected, history, range),
    ensures
        is_path(grown, history),
{
    if !before[selected.last() as int].state@.game_over() {
        let leaf = selected.last() as int;
        assert(history.drop_last() == selected);
        assert forall|j: int| 0 <= j < history.len() implies (#[trigger] history[j])
            < grown.len() by {
            if j < selected.len() {
                assert(history[j] == history.drop_last()[j]);
                assert(selected[j] < before.len());
            }
        }
        assert(history[0] == history.drop_last()[0]);
        assert forall|j: int| 0 <= j < history.len() - 1 implies #[trigger] child_step(
            grown,
            history[j] as int,
            history[j + 1] as int,
        ) by {
            assert(history[j] == history.drop_last()[j]);
            if j < selected.len() - 1 {
                assert(history[j + 1] == history.drop_last()[j + 1]);
                assert(child_step(before, selected[j] as int, selected[j + 1] as int));
                lemma_path_rises(before, selected, j, selected.len() - 1);
            }
        }
    }
}

/// After a round every node that has children has been visited together
/// with one of them, the root has one more visit and its position, and
/// where the game has not ended at the root, the root has its children.
pub proof fn lemma_round_settles(
    before: Seq<Node>,
    grown: Seq<Node>,
    after: Seq<Node>,
    selected: Seq<usize>,
    history: Seq<usize>,
    range: (usize, usize),
    reward: int,
)
    requires
        tree_wf(before),
        tree_settled(before),
        before[0].visits < VISIT_LIMIT,
        is_path(before, selected),
        before[selected.last() as int].state@.game_over()
            || before[selected.last() as int].children is None,
        round_path(before, grown, selected, history, range),
        tree_wf(grown),
        backpropagated(grown, after, history, reward),
        forall|i: int| 0 <= i < grown.len() ==> same_place(grown[i], #[trigger] after[i]),
    ensures
        tree_settled(after),
        after[0].visits == before[0].visits + 1,
        after.len() >= before.len(),
        after[0].state == before[0].state,
        !before[0].state@.game_over() ==> after[0].children is Some,
{
    lemma_round_path(before, grown, selected, history, range);
    let expanded = !before[selected.last() as int].state@.game_over();
    let leaf = selected.last() as int;
    assert(history[0] == 0);
    assert(after[history[0] as int] == credited(
        grown[history[0] as int],
        share(history.len() as int, 0, reward),
    ));
    assert(same_place(grown[0], after[0]));
    assert(node_linked(before, 0));
    if !before[0].state@.game_over() {
        if selected.len() > 1 {
            assert(child_step(before, selected[0int] as int, selected[0int + 1] as int));
            lemma_path_rises(before, selected, 0, selected.len() - 1);
        }
    }
    assert forall|i: int| 0 <= i < after.len() implies #[trigger] node_settled(after, i) by {
        assert(same_place(grown[i], after[i]));
        match after[i].children {
            Some((start, end)) => {
                if expanded && i == leaf {
                    let last = history.len() - 1;
                    assert(after[history[last] as int] == credited(
                        grown[history[last] as int],
                        share(history.len() as int, last, reward),
                    ));
                    assert(history[last - 1] == history.drop_last()[last - 1]);
                    assert(after[history[last - 1] as int] == credited(
                        grown[history[last - 1] as int],
                        share(history.len() as int, last - 1, reward),
                    ));
                    assert(after[history[last] as int].visits > 0);
                } else {
                    assert(i < before.len());
                    assert(grown[i] == before[i]);
                    assert(node_settled(before, i));
                    let k = choose|k: int| start <= k < end && (#[trigger] before[k]).visits > 0;
                    assert(node_linked(before, i));
                    assert(grown[k].visits == before[k].visits);
                    assert(same_place(grown[k], after[k]));
                    assert(after[k].visits > 0);
                }
            },
            None => {},
        }
    }
}

/// A round whose reward is that of a playout from the end of its path,
/// times the sign of the root, leaves the tree as a search keeps it.
pub proof fn lemma_round_keeps_searched<F: Fn(i32, u32, u32) -> i64>(
    scorer: &F,
    before: Seq<Node>,
    grown: Seq<Node>,
    after: Seq<Node>,
    selected: Seq<usize>,
    history: Seq<usize>,
    range: (usize, usize),
    moves: Seq<(u8, u8)>,
    end: BoardView,
)
    requires
        tree_wf(before),
        tree_searched(before),
        before[0].visits < VISIT_LIMIT,
        is_path(before, selected),
        forall|j: int|
            0 <= j < selected.len() - 1 ==> #[trigger] descends(
                scorer,
                before,
                selected[j],
                selected[j + 1],
            ),
        round_path(before, grown, selected, history, range),
        tree_wf(grown),
        grown[history.last() as int].state@.plays_to(moves, end),
        backpropagated(
            grown,
            after,
            history,
            rollout_value(grown[history.last() as int].state@, end) * root_sign(before),
        ),
    ensures
        tree_searched(after),
{
    lemma_round_path(before, grown, selected, history, range);
    let expanded = !before[selected.last() as int].state@.game_over();
    let leaf = selected.last() as int;
    let last = history.len() - 1;
    if expanded {
        lemma_expansion_keeps_searched(before, grown, leaf, range);
        assert(history[last - 1] == history.drop_last()[last - 1]);
    }
    assert(node_linked(before, 0));
    assert(grown[0].state == before[0].state);
    assert(grown[0].visits == before[0].visits);
    lemma_node_mover_holds_no_line(grown, history.last() as int);
    let origin = grown[history.last() as int].state@;
    assert(node_linked(grown, history.last() as int));
    law_rollout_value(origin, moves, end);
    let gain: int = if end.winner() is None {
        0
    } else {
        1
    };
    let value = rollout_value(origin, end);
    let reward = value * root_sign(before);
    assert(reward == (if origin.mover == grown[0].state@.mover {
        gain
    } else {
        -gain
    })) by {
        if value == 0 {
            assert(reward == 0 * root_sign(before));
        } else if value == 1 {
            assert(reward == 1 * root_sign(before));
        } else {
            assert(reward == (-1) * root_sign(before));
        }
    }
    assert forall|j: int| 1 <= j < history.len() - 1 implies grown[(#[trigger] history[j]) as int].visits
        > 0 by {
        if expanded {
            assert(history[j] == history.drop_last()[j]);
        }
        assert(descends(scorer, before, selected[j - 1], selected[j - 1 + 1]));
        lemma_descent_visited(scorer, before, selected[j - 1], selected[j]);
        lemma_path_rises(before, selected, j - 1, j);
    }
    if history.len() >= 2 && !expanded {
        assert(descends(scorer, before, selected[last - 1], selected[last - 1 + 1]));
        lemma_descent_visited(scorer, before, selected[last - 1], selected[last]);
    }
    lemma_pass_keeps_searched(grown, after, history, reward, gain);
}

/// `after` is `before` with one round made: selection went down the path
/// `selected` to a node at which the game has ended or which has no
/// children yet; the path `history` came of it in the tree `grown`, as
/// `round_path` says; a line of play from the end of the path to the end of
/// the game gave its value, times `multiplier`, as the reward; and the
/// reward went back up the path.
pub open spec fn round_made<F: Fn(i32, u32, u32) -> i64>(
    scorer: &F,
    before: Seq<Node>,
    after: Seq<Node>,
    multiplier: int,
    selected: Seq<usize>,
    grown: Seq<Node>,
    history: Seq<usize>,
    range: (usize, usize),
    moves: Seq<(u8, u8)>,
    end: BoardView,
) -> bool {
    &&& is_path(before, selected)
    &&& forall|j: int|
        0 <= j < selected.len() - 1 ==> #[trigger] descends(
            scorer,
            before,
            selected[j],
            selected[j + 1],
        )
    &&& before[selected.last() as int].state@.game_over()
        || before[selected.last() as int].children is None
    &&& round_path(before, grown, selected, history, range)
    &&& grown[history.last() as int].state@.plays_to(moves, end)
    &&& end.game_over()
    &&& backpropagated(
        grown,
        after,
        history,
        rollout_value(grown[history.last() as int].state@, end) * multiplier,
    )
}

/// One round of the search. Selection goes down to a leaf; a leaf at which
/// the game has not ended gets its children, and one of them, drawn at
/// random, is added to the path; a random playout from the end of the path
/// gives the reward, times `multiplier`; and every node on the path gets
/// one visit and its share of the reward.
pub fn search_round<F: Fn(i32, u32, u32) -> i64>(
    tree_graph: &mut Vec<Node>,
    multiplier: i32,
    scorer: &F,
)
    requires
        tree_wf(old(tree_graph)@),
        tree_settled(old(tree_graph)@),
        old(tree_graph)@[0].visits < VISIT_LIMIT,
        multiplier == 1 || multiplier == -1,
        scorer_ready(scorer),
    ensures
        tree_wf(final(tree_graph)@),
        tree_settled(final(tree_graph)@),
        final(tree_graph)@[0].visits == old(tree_graph)@[0].visits + 1,
        final(tree_graph)@.len() >= old(tree_graph)@.len(),
        final(tree_graph)@[0].state == old(tree_graph)@[0].state,
        !old(tree_graph)@[0].state@.game_over() ==> final(tree_graph)@[0].children is Some,
        tree_searched(old(tree_graph)@) && multiplier == root_sign(old(tree_graph)@)
            ==> tree_searched(final(tree_graph)@),
        exists|
            selected: Seq<usize>,
            grown: Seq<Node>,
            history: Seq<usize>,
            range: (usize, usize),
            moves: Seq<(u8, u8)>,
            end: BoardView,
        |
            round_made(
                scorer,
                old(tree_graph)@,
                final(tree_graph)@,
                multiplier as int,
                selected,
                grown,
                history,
                range,
                moves,
                end,
            ),
{
    let mut history = select_leaf(tree_graph, scorer);
    let mut index = history[history.len() - 1];
    let ghost selected = history@;
    let ghost mut range = (0usize, 0usize);
    if !tree_graph[index].terminal() {
        let (initial_position, final_position) = expand(tree_graph, index);
        index = random_between(initial_position, final_position);
        history.push(index);
        proof {
            range = (initial_position, final_position);
            assert(history@.drop_last() == selected);
        }
    }
    let ghost grown = tree_graph@;
    proof {
        lemma_round_path(old(tree_graph)@, grown, selected, history@, range);
    }
    let playout = tree_graph[index].rollout();
    let reward = playout * multiplier;
    backpropagate(tree_graph, &history, reward);
    proof {
        let before = old(tree_graph)@;
        let after = tree_graph@;
        lemma_round_settles(before, grown, after, selected, history@, range, reward as int);
        let origin = grown[index as int].state@;
        let (moves, end) = choose|moves: Seq<(u8, u8)>, end: BoardView|
            origin.plays_to(moves, end) && end.game_over() && playout == rollout_value(origin, end);
        assert(round_made(
            scorer,
            before,
            after,
            multiplier as int,
            selected,
            grown,
            history@,
            range,
            moves,
            end,
        ));
        if tree_searched(before) && multiplier == root_sign(before) {
            lemma_round_keeps_searched(
                scorer,
                before,
                grown,
                after,
                selected,
                history@,
                range,
                moves,
                end,
            );
        }
    }
}

/// The tree of a search from `beginning_state` between two rounds, after
/// the first.
pub open spec fn search_state(tree: Seq<Node>, beginning_state: TicTacToeBoard) -> bool {
    &&& tree_wf(tree)
    &&& tree_settled(tree)
    &&& tree_searched(tree)
    &&& tree[0].state == beginning_state
    &&& tree[0].children is Some
}

/// The tree of a search from `beginning_state` after its first round.
fn first_round<F: Fn(i32, u32, u32) -> i64>(
    beginning_state: TicTacToeBoard,
    multiplier: i32,
    scorer: &F,
) -> (tree_graph: Vec<Node>)
    requires
        !beginning_state@.game_over(),
        scorer_ready(scorer),
        multiplier == (if beginning_state@.mover == PlayerToken::X {
            1int
        } else {
            -1int
        }),
    ensures
        search_state(tree_graph@, beginning_state),
        tree_graph@[0].visits == 1,
{
    let mut tree_graph: Vec<Node> = Vec::new();
    let starter = Node::new(beginning_state, tree_graph.len());
    tree_graph.push(starter);
    proof {
        beginning_state.lemma_view();
        assert(node_linked(tree_graph@, 0));
        assert(node_settled(tree_graph@, 0));
        assert(node_signed(tree_graph@, 0));
        assert(node_single(tree_graph@, 0));
    }
    search_round(&mut tree_graph, multiplier, scorer);
    tree_graph
}

/// Searches the game tree  to get the most optimal action
///
/// Makes one round of the search, and then rounds for as long as fewer
/// than `time_limit_in_milli` milliseconds have passed since the start and
/// the root can count another visit, and gives the final choice at the
/// root. `scorer` gives the score of a visited node from its accumulated
/// reward, its visits and the visits of its parent, as a number that is
/// ordered as the scores are. Whatever the playouts bring, the choice is
/// the first legal move, or the second.
pub fn tree_searcher<F: Fn(i32, u32, u32) -> i64>(
    beginning_state: TicTacToeBoard,
    time_limit_in_milli: u128,
    scorer: F,
) -> (action: (u8, u8))
    requires
        !beginning_state@.game_over(),
        scorer_ready(&scorer),
    ensures
        beginning_state@.legal(action),
        first_or_second(beginning_state@.legal_moves(), action),
{
    let start_time = SystemTime::now();
    let multiplier: i32 = if beginning_state.x_plays() {
        1
    } else {
        -1
    };
    let mut tree_graph = first_round(beginning_state, multiplier, &scorer);
    while tree_graph[0].visits < VISIT_LIMIT && within_budget(&start_time, time_limit_in_milli)
        invariant
            search_state(tree_graph@, beginning_state),
            scorer_ready(&scorer),
            multiplier == root_sign(tree_graph@),
            !beginning_state@.game_over(),
        decreases VISIT_LIMIT - tree_graph@[0].visits,
    {
        search_round(&mut tree_graph, multiplier, &scorer);
    }
    best_move(&tree_graph, &scorer)
}

/// Searches the game tree for `rounds` rounds, and for one round where
/// none is asked for, and gives the final choice at the root.
pub fn search_rounds<F: Fn(i32, u32, u32) -> i64>(
    beginning_state: TicTacToeBoard,
    rounds: u32,
    scorer: F,
) -> (action: (u8, u8))
    requires
        !beginning_state@.game_over(),
        scorer_ready(&scorer),
    ensures
        beginning_state@.legal(action),
        first_or_second(beginning_state@.legal_moves(), action),
{
    let multiplier: i32 = if beginning_state.x_plays() {
        1
    } else {
        -1
    };
    let mut tree_graph = first_round(beginning_state, multiplier, &scorer);
    while tree_graph[0].visits < VISIT_LIMIT && tree_graph[0].visits < rounds
        invariant
            search_state(tree_graph@, beginning_state),
            scorer_ready(&scorer),
            multiplier == root_sign(tree_graph@),
            !beginning_state@.game_over(),
        decreases VISIT_LIMIT - tree_graph@[0].visits,
    {
        search_round(&mut tree_graph, multiplier, &scorer);
    }
    best_move(&tree_graph, &scorer)
}

} // verus!
