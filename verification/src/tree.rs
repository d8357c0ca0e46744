//! The search tree in its arena: what holds of its links, how a leaf gets
//! its children, and how a reward goes back up a path.

use crate::board::{lemma_blank_below_order, lemma_full, lemma_play};
use crate::node::{Node, VISIT_LIMIT};
use vstd::prelude::*;

verus! {

/// Node `k` is the child of node `parent` for the legal move with index
/// `k - start`: it names the parent and the move, and holds the position
/// that the move leads to.
pub open spec fn is_child_of(tree: Seq<Node>, parent: int, start: int, k: int) -> bool {
    let action = tree[parent].state@.legal_moves()[k - start];
    &&& tree[k].parent_location == Some(parent as usize)
    &&& tree[k].parent_action == Some(action)
    &&& tree[k].state@ == tree[parent].state@.play(action)
    &&& tree[k].position == k - start
}

/// What holds of node `i` in a search tree: its accumulated reward is
/// bounded by its visits, it has no more visits than the root, it has
/// children only where the game has not ended, its children are one node
/// for each legal move of its position, in their order and behind it in the
/// arena, and every node but the root lies in the range of children of its
/// parent.
pub open spec fn node_linked(tree: Seq<Node>, i: int) -> bool {
    let node = tree[i];
    &&& -node.visits <= node.wins <= node.visits
    &&& node.visits <= tree[0].visits
    &&& node.state@.wf()
    &&& match node.children {
        Some((start, end)) => {
            &&& !node.state@.game_over()
            &&& i < start <= end <= tree.len()
            &&& end - start == node.state@.legal_moves().len()
            &&& forall|k: int| start <= k < end ==> #[trigger] is_child_of(tree, i, start as int, k)
        },
        None => true,
    }
    &&& match node.parent_location {
        Some(parent) => parent < i && (tree[parent as int].children matches Some((start, end))
            && start <= i < end),
        None => i == 0 && node.parent_action is None,
    }
}

/// The arena holds a search tree with its root at index 0.
pub open spec fn tree_wf(tree: Seq<Node>) -> bool {
    &&& tree.len() >= 1
    &&& forall|i: int| 0 <= i < tree.len() ==> #[trigger] node_linked(tree, i)
}

/// Node `i`, where it has children, has been visited, and so has one of
/// its children.
pub open spec fn node_settled(tree: Seq<Node>, i: int) -> bool {
    tree[i].children matches Some((start, end)) ==> tree[i].visits > 0 && exists|k: int|
        start <= k < end && (#[trigger] tree[k]).visits > 0
}

/// Every node that has children has been visited together with one of them:
/// the state between two rounds of the search.
pub open spec fn tree_settled(tree: Seq<Node>) -> bool {
    forall|i: int| 0 <= i < tree.len() ==> #[trigger] node_settled(tree, i)
}

/// `after` is `before` with the leaf `index` expanded: behind the nodes of
/// `before`, which are as they were but for the range of children that the
/// leaf got, stand the children, the nodes of `range`, one for each legal
/// move of the leaf in their order, each without children and visits.
pub open spec fn grown_at(
    before: Seq<Node>,
    after: Seq<Node>,
    index: int,
    range: (usize, usize),
) -> bool {
    &&& range.0 == before.len()
    &&& range.1 == after.len()
    &&& range.0 < range.1
    &&& range.1 - range.0 == before[index].state@.legal_moves().len()
    &&& after[index] == (Node { children: Some(range), ..before[index] })
    &&& forall|i: int| 0 <= i < range.0 && i != index ==> #[trigger] after[i] == before[i]
    &&& forall|k: int|
        range.0 <= k < range.1 ==> {
            &&& is_child_of(after, index, range.0 as int, k)
            &&& (#[trigger] after[k]).children is None
            &&& after[k].wins == 0
            &&& after[k].visits == 0
        }
}

/// Materializes all legal children of the leaf at `index` as one block at
/// the end of the arena, and records the block's range on the leaf.
pub fn expand(tree_graph: &mut Vec<Node>, index: usize) -> (range: (usize, usize))
    requires
        tree_wf(old(tree_graph)@),
        index < old(tree_graph)@.len(),
        old(tree_graph)@[index as int].children is None,
        !old(tree_graph)@[index as int].state@.game_over(),
    ensures
        tree_wf(final(tree_graph)@),
        grown_at(old(tree_graph)@, final(tree_graph)@, index as int, range),
        final(tree_graph)@[index as int].expanded(),
{
    let initial_position = tree_graph.len();
    let current_state = tree_graph[index].state;
    let moves = current_state.possible_moves();
    proof {
        assert(node_linked(tree_graph@, index as int));
        lemma_blank_below_order(current_state@, 9);
        lemma_full(current_state@);
    }
    let mut location: usize = 0;
    while location < moves.len()
        invariant
            location <= moves.len(),
            moves@ == current_state@.legal_moves(),
            current_state@.wf(),
            index < initial_position,
            initial_position == old(tree_graph)@.len(),
            tree_graph@.len() == initial_position + location,
            forall|i: int| 0 <= i < initial_position ==> tree_graph@[i] == old(tree_graph)@[i],
            forall|k: int|
                initial_position <= k < initial_position + location ==> {
                    &&& (#[trigger] tree_graph@[k]).parent_location == Some(index)
                    &&& tree_graph@[k].parent_action == Some(moves@[k - initial_position])
                    &&& tree_graph@[k].state@ == current_state@.play(moves@[k - initial_position])
                    &&& tree_graph@[k].position == k - initial_position
                    &&& tree_graph@[k].children is None
                    &&& tree_graph@[k].wins == 0
                    &&& tree_graph@[k].visits == 0
                },
        decreases moves.len() - location,
    {
        let action = moves[location];
        proof {
            lemma_blank_below_order(current_state@, 9);
        }
        let child = Node::child_creation(current_state.apply_move(action), index, action, location);
        tree_graph.push(child);
        location += 1;
    }
    let final_position = tree_graph.len();
    let mut parent = tree_graph[index];
    parent.refactor_children(initial_position, final_position);
    tree_graph.set(index, parent);
    proof {
        let before = old(tree_graph)@;
        let after = tree_graph@;
        assert forall|k: int| initial_position <= k < final_position implies #[trigger] is_child_of(
            after,
            index as int,
            initial_position as int,
            k,
        ) by {
            assert(after[k].parent_location == Some(index));
        }
        assert forall|i: int| 0 <= i < after.len() implies #[trigger] node_linked(after, i) by {
            if i < initial_position {
                assert(node_linked(before, i));
                if i != index {
                    match before[i].children {
                        Some((start, end)) => {
                            assert forall|k: int| start <= k < end implies #[trigger] is_child_of(
                                after,
                                i,
                                start as int,
                                k,
                            ) by {
                                assert(is_child_of(before, i, start as int, k));
                            }
                        },
                        None => {},
                    }
                }
            } else {
                lemma_play(current_state@, moves@[i - initial_position]);
            }
        }
    }
    (initial_position, final_position)
}

/// Node `to` lies in the range of children of node `from`.
pub open spec fn child_step(tree: Seq<Node>, from: int, to: int) -> bool {
    tree[from].children matches Some((start, end)) && start <= to < end
}

/// `history` leads from the root down the tree, each node a child of the
/// one before it.
pub open spec fn is_path(tree: Seq<Node>, history: Seq<usize>) -> bool {
    &&& history.len() >= 1
    &&& history[0] == 0
    &&& forall|j: int| 0 <= j < history.len() ==> (#[trigger] history[j]) < tree.len()
    &&& forall|j: int|
        0 <= j < history.len() - 1 ==> #[trigger] child_step(
            tree,
            history[j] as int,
            history[j + 1] as int,
        )
}

/// The reward that the node at place `j` of a path of `length` nodes gets:
/// the last node gets `reward` itself, and the sign turns with every step
/// towards the root.
pub open spec fn share(length: int, j: int, reward: int) -> int {
    if (length - 1 - j) % 2 == 0 {
        reward
    } else {
        -reward
    }
}

/// `node` after one more visit that brought `reward`.
pub open spec fn credited(node: Node, reward: int) -> Node {
    Node { visits: (node.visits + 1) as u32, wins: (node.wins + reward) as i32, ..node }
}

/// `after` is `before` with no change but to its counters, and with no
/// fewer visits.
pub open spec fn same_place(before: Node, after: Node) -> bool {
    &&& after.state == before.state
    &&& after.children == before.children
    &&& after.parent_location == before.parent_location
    &&& after.parent_action == before.parent_action
    &&& after.position == before.position
    &&& after.visits >= before.visits
}

/// `after` is `before` with every node on the path `history` given one
/// visit and its share of `reward`, and with every other node as it was.
pub open spec fn backpropagated(
    before: Seq<Node>,
    after: Seq<Node>,
    history: Seq<usize>,
    reward: int,
) -> bool {
    &&& after.len() == before.len()
    &&& forall|j: int|
        0 <= j < history.len() ==> after[(#[trigger] history[j]) as int] == credited(
            before[history[j] as int],
            share(history.len() as int, j, reward),
        )
    &&& forall|i: int|
        0 <= i < before.len() && !history.contains(i as usize) ==> #[trigger] after[i] == before[i]
}

/// The indices along a path rise strictly.
pub proof fn lemma_path_rises(tree: Seq<Node>, history: Seq<usize>, j: int, k: int)
    requires
        tree_wf(tree),
        is_path(tree, history),
        0 <= j < k < history.len(),
    ensures
        history[j] < history[k],
    decreases k - j,
{
    assert(child_step(tree, history[k - 1] as int, history[k - 1 + 1] as int));
    assert(node_linked(tree, history[k - 1] as int));
    if j < k - 1 {
        lemma_path_rises(tree, history, j, k - 1);
    }
}

/// Walks the path from its end back to the root and gives every node on it
/// one visit and its share of the reward.
pub fn backpropagate(tree_graph: &mut Vec<Node>, history: &Vec<usize>, reward: i32)
    requires
        tree_wf(old(tree_graph)@),
        is_path(old(tree_graph)@, history@),
        -1 <= reward <= 1,
        old(tree_graph)@[0].visits < VISIT_LIMIT,
    ensures
        tree_wf(final(tree_graph)@),
        backpropagated(old(tree_graph)@, final(tree_graph)@, history@, reward as int),
        forall|i: int|
            0 <= i < old(tree_graph)@.len() ==> same_place(
                old(tree_graph)@[i],
                #[trigger] final(tree_graph)@[i],
            ),
{
    let length = history.len();
    let mut step: usize = 0;
    while step < length
        invariant
            step <= length,
            length == history@.len(),
            tree_wf(old(tree_graph)@),
            is_path(old(tree_graph)@, history@),
            -1 <= reward <= 1,
            old(tree_graph)@[0].visits < VISIT_LIMIT,
            tree_graph@.len() == old(tree_graph)@.len(),
            forall|j: int|
                length - step <= j < length ==> tree_graph@[(#[trigger] history@[j]) as int]
                    == credited(
                    old(tree_graph)@[history@[j] as int],
                    share(length as int, j, reward as int),
                ),
            forall|i: int|
                0 <= i < tree_graph@.len() && (forall|j: int|
                    length - step <= j < length ==> history@[j] != i) ==> #[trigger] tree_graph@[i]
                    == old(tree_graph)@[i],
        decreases length - step,
    {
        let place = length - 1 - step;
        let node_index = history[place];
        let portion = if step % 2 == 0 {
            reward
        } else {
            -reward
        };
        let ghost before = tree_graph@;
        proof {
            assert forall|j: int| length - step <= j < length implies history@[j]
                != node_index by {
                lemma_path_rises(old(tree_graph)@, history@, place as int, j);
            }
            assert(before[node_index as int] == old(tree_graph)@[node_index as int]);
            assert(node_linked(old(tree_graph)@, node_index as int));
        }
        let mut node = tree_graph[node_index];
        node.update(portion);
        tree_graph.set(node_index, node);
        proof {
            assert forall|j: int| length - (step + 1) <= j < length implies tree_graph@[(
            #[trigger] history@[j]) as int] == credited(
                old(tree_graph)@[history@[j] as int],
                share(length as int, j, reward as int),
            ) by {
                if j > place {
                    lemma_path_rises(old(tree_graph)@, history@, place as int, j);
                    assert(tree_graph@[history@[j] as int] == before[history@[j] as int]);
                }
            }
        }
        step += 1;
    }
    proof {
        lemma_credited_tree(old(tree_graph)@, tree_graph@, history@, reward as int);
    }
}

/// A tree stays a search tree when every node on a path from the root gets
/// one visit and its share of a reward, and no other node changes.
pub proof fn lemma_credited_tree(
    before: Seq<Node>,
    after: Seq<Node>,
    history: Seq<usize>,
    reward: int,
)
    requires
        tree_wf(before),
        is_path(before, history),
        -1 <= reward <= 1,
        before[0].visits < VISIT_LIMIT,
        after.len() == before.len(),
        forall|j: int|
            0 <= j < history.len() ==> after[(#[trigger] history[j]) as int] == credited(
                before[history[j] as int],
                share(history.len() as int, j, reward),
            ),
        forall|i: int|
            0 <= i < after.len() && (forall|j: int| 0 <= j < history.len() ==> history[j] != i)
                ==> #[trigger] after[i] == before[i],
    ensures
        tree_wf(after),
        forall|i: int|
            0 <= i < before.len() && !history.contains(i as usize) ==> #[trigger] after[i]
                == before[i],
        forall|i: int| 0 <= i < before.len() ==> same_place(before[i], #[trigger] after[i]),
{
    assert forall|i: int| 0 <= i < before.len() implies {
        &&& (#[trigger] after[i]).state == before[i].state
        &&& after[i].children == before[i].children
        &&& after[i].parent_location == before[i].parent_location
        &&& after[i].parent_action == before[i].parent_action
        &&& after[i].position == before[i].position
        &&& after[i].visits >= before[i].visits
        &&& after[i].visits <= before[i].visits + 1
        &&& -after[i].visits <= after[i].wins <= after[i].visits
    } by {
        assert(node_linked(before, i));
        assert(node_linked(before, 0));
        if exists|j: int| 0 <= j < history.len() && history[j] == i {
            let j = choose|j: int| 0 <= j < history.len() && history[j] == i;
            assert(after[history[j] as int] == credited(
                before[history[j] as int],
                share(history.len() as int, j, reward),
            ));
        }
    }
    assert(after[history[0] as int] == credited(
        before[history[0] as int],
        share(history.len() as int, 0, reward),
    ));
    assert(node_linked(before, 0));
    assert forall|i: int| 0 <= i < after.len() implies #[trigger] node_linked(after, i) by {
        assert(node_linked(before, i));
        match before[i].children {
            Some((start, end)) => {
                assert forall|k: int| start <= k < end implies #[trigger] is_child_of(
                    after,
                    i,
                    start as int,
                    k,
                ) by {
                    assert(is_child_of(before, i, start as int, k));
                }
            },
            None => {},
        }
    }
    assert forall|i: int|
        0 <= i < before.len() && !history.contains(i as usize) implies #[trigger] after[i]
        == before[i] by {
        assert forall|j: int| 0 <= j < history.len() implies history[j] != i by {
            if history[j] == i {
                assert(history.contains(i as usize));
            }
        }
    }
}

/// In a search tree the accumulated reward of a node never exceeds its
/// visits, in either direction.
pub proof fn law_reward_within_visits(tree: Seq<Node>, i: int)
    requires
        tree_wf(tree),
        0 <= i < tree.len(),
    ensures
        -tree[i].visits <= tree[i].wins <= tree[i].visits,
{
    assert(node_linked(tree, i));
}

/// How many of the first `n` paths go through node `i`.
pub open spec fn passes_through(paths: Seq<Seq<usize>>, i: usize, n: nat) -> nat
    decreases n,
{
    if n == 0 {
        0
    } else if paths[n - 1].contains(i) {
        passes_through(paths, i, (n - 1) as nat) + 1
    } else {
        passes_through(paths, i, (n - 1) as nat)
    }
}

/// After a run of passes back up the tree, a node has one more visit for
/// each pass whose path went through it, and no other: a node that began
/// with no visit and was touched by N passes has N visits.
pub proof fn law_visits_count_passes(
    trees: Seq<Seq<Node>>,
    paths: Seq<Seq<usize>>,
    rewards: Seq<int>,
    i: usize,
    n: nat,
)
    requires
        trees.len() == paths.len() + 1,
        rewards.len() == paths.len(),
        n <= paths.len(),
        i < trees[0].len(),
        forall|k: int|
            0 <= k < paths.len() ==> {
                &&& tree_wf(#[trigger] trees[k])
                &&& trees[k][0].visits < VISIT_LIMIT
                &&& is_path(trees[k], paths[k])
                &&& backpropagated(trees[k], trees[k + 1], paths[k], rewards[k])
            },
    ensures
        trees[n as int].len() == trees[0].len(),
        trees[n as int][i as int].visits == trees[0][i as int].visits + passes_through(paths, i, n),
    decreases n,
{
    if n > 0 {
        law_visits_count_passes(trees, paths, rewards, i, (n - 1) as nat);
        let k = n - 1;
        assert(tree_wf(trees[k]));
        assert(node_linked(trees[k], i as int));
        assert(node_linked(trees[k], 0));
        if paths[k].contains(i) {
            let j = choose|j: int| 0 <= j < paths[k].len() && paths[k][j] == i;
            assert(trees[k + 1][paths[k][j] as int] == credited(
                trees[k][paths[k][j] as int],
                share(paths[k].len() as int, j, rewards[k]),
            ));
        }
    }
}

} // verus!
