use tictactoe_mcts::board::{obtain_board, TicTacToeBoard};
use tictactoe_mcts::node::{best_scored, rollout_reward, Node};
use tictactoe_mcts::search::{
    best_move, search_round, search_rounds, select_leaf, tree_searcher,
};
use tictactoe_mcts::tree::{backpropagate, expand};

/// A whole number that is ordered as the float is.
fn order_key(value: f64) -> i64 {
    let bits = (value + 0.0).to_bits() as i64;
    bits ^ ((((bits >> 63) as u64) >> 1) as i64)
}

/// The upper confidence bound of a node, as a whole number that is ordered
/// as the bound is.
fn ucb1(wins: i32, visits: u32, parent_visits: u32) -> i64 {
    let q = wins as f64 / visits as f64;
    let p = 2.0 * (parent_visits as f64).ln() / (visits as f64);
    order_key(q + p.sqrt())
}

fn plain_node(wins: i32, visits: u32) -> Node {
    let mut node = Node::new(TicTacToeBoard::new(), 0);
    node.wins = wins;
    node.visits = visits;
    node
}

fn fresh_tree(board: TicTacToeBoard) -> Vec<Node> {
    vec![Node::new(board, 0)]
}

#[test]
fn order_key_keeps_the_order_of_floats() {
    let values = [-2.5, -1.0, -0.0, 0.0, 0.25, 1.0, 1.1597, 2.017, f64::INFINITY];
    for a in values.iter() {
        for b in values.iter() {
            assert_eq!(a < b, order_key(*a) < order_key(*b));
            assert_eq!(a == b, order_key(*a) == order_key(*b));
        }
    }
}

#[test]
fn new_node_has_no_links_and_no_counts() {
    let board = obtain_board(["X  ", "   ", "   "], false);
    let node = Node::new(board, 7);
    assert_eq!(node.parent_location, None);
    assert_eq!(node.parent_action, None);
    assert_eq!(node.children, None);
    assert_eq!(node.position, 7);
    assert_eq!(node.wins, 0);
    assert_eq!(node.visits, 0);
    assert_eq!(node.state.x_value(), 1);
}

#[test]
fn child_node_names_its_parent_and_its_move() {
    let board = obtain_board(["X  ", "   ", "   "], false);
    let node = Node::child_creation(board, 4, (0, 0), 2);
    assert_eq!(node.parent_location, Some(4));
    assert_eq!(node.parent_action, Some((0, 0)));
    assert_eq!(node.children, None);
    assert_eq!(node.position, 2);
    assert_eq!(node.wins, 0);
    assert_eq!(node.visits, 0);
}

#[test]
fn terminal_follows_the_board() {
    assert!(!Node::new(TicTacToeBoard::new(), 0).terminal());
    assert!(Node::new(obtain_board(["XXX", "OO ", "   "], false), 0).terminal());
    assert!(Node::new(obtain_board(["XOX", "XOO", "OXX"], false), 0).terminal());
}

#[test]
fn update_counts_a_visit_and_adds_the_reward() {
    let mut node = plain_node(0, 0);
    node.update(1);
    assert_eq!((node.wins, node.visits), (1, 1));
    node.update(-1);
    assert_eq!((node.wins, node.visits), (0, 2));
    node.update(0);
    assert_eq!((node.wins, node.visits), (0, 3));
    node.update(-1);
    node.update(-1);
    assert_eq!((node.wins, node.visits), (-2, 5));
    assert!(node.wins.unsigned_abs() <= node.visits);
}

#[test]
fn refactor_children_records_the_range() {
    let mut node = plain_node(3, 4);
    node.refactor_children(5, 9);
    assert_eq!(node.children, Some((5, 9)));
    assert_eq!((node.wins, node.visits), (3, 4));
}

#[test]
fn fully_expanded_compares_the_range_with_the_moves() {
    let board = obtain_board(["XXO", "XOO", "   "], true);
    let mut node = Node::new(board, 0);
    assert!(!node.fully_expanded());
    node.refactor_children(1, 4);
    assert!(node.fully_expanded());
    node.refactor_children(1, 3);
    assert!(!node.fully_expanded());
}

#[test]
fn score_at_the_end_is_the_accumulated_reward() {
    assert_eq!(plain_node(-3, 7).ucb1(0, true, &ucb1), Some(-3));
    assert_eq!(plain_node(0, 0).ucb1(5, true, &ucb1), Some(0));
    assert_eq!(plain_node(4, 4).ucb1(9, true, &ucb1), Some(4));
}

#[test]
fn score_of_the_descent_is_the_upper_confidence_bound() {
    let expected = 1.0 / 5.0 + (2.0 * (10.0f64).ln() / 5.0).sqrt();
    assert_eq!(plain_node(1, 5).ucb1(10, false, &ucb1), Some(order_key(expected)));
    assert!((expected - 1.1597).abs() < 0.0001);
    assert_eq!(plain_node(-1, 1).ucb1(1, false, &ucb1), Some(order_key(-1.0)));
}

#[test]
fn node_without_visits_has_no_score_in_the_descent() {
    assert_eq!(plain_node(0, 0).ucb1(10, false, &ucb1), None);
    assert_eq!(plain_node(1, 1).ucb1(0, false, &ucb1), None);
}

#[test]
fn best_scored_is_the_first_of_the_greatest() {
    assert_eq!(best_scored(&vec![Some(1), Some(5), Some(3)]), Some(1));
    assert_eq!(best_scored(&vec![Some(-4), Some(-9)]), Some(0));
    assert_eq!(best_scored(&vec![None, Some(i64::MIN), None]), Some(1));
    assert_eq!(best_scored(&vec![Some(i64::MAX), Some(i64::MAX)]), Some(0));
}

#[test]
fn best_scored_breaks_ties_by_the_lower_index() {
    assert_eq!(best_scored(&vec![Some(2), Some(7), Some(7), Some(7)]), Some(1));
    assert_eq!(best_scored(&vec![Some(0), Some(0)]), Some(0));
    assert_eq!(best_scored(&vec![None, Some(3), None, Some(3)]), Some(1));
}

#[test]
fn best_scored_of_no_score_is_none() {
    assert_eq!(best_scored(&vec![]), None);
    assert_eq!(best_scored(&vec![None, None]), None);
}

#[test]
fn select_child_takes_the_greater_bound_in_the_descent() {
    let mut root = plain_node(0, 10);
    root.refactor_children(1, 3);
    let tree = vec![root, plain_node(1, 5), plain_node(1, 2)];
    assert_eq!(tree[0].select_child(&tree, false, &ucb1), Some(2));
    let tree = vec![root, plain_node(4, 5), plain_node(-2, 2)];
    assert_eq!(tree[0].select_child(&tree, false, &ucb1), Some(1));
}

#[test]
fn select_child_takes_the_greater_reward_at_the_end() {
    let mut root = plain_node(0, 10);
    root.refactor_children(1, 4);
    let tree = vec![root, plain_node(1, 5), plain_node(3, 9), plain_node(2, 2)];
    assert_eq!(tree[0].select_child(&tree, true, &ucb1), Some(2));
}

#[test]
fn select_child_breaks_ties_by_the_lower_index() {
    let mut root = plain_node(0, 10);
    root.refactor_children(1, 4);
    let tree = vec![root, plain_node(1, 5), plain_node(2, 2), plain_node(2, 2)];
    assert_eq!(tree[0].select_child(&tree, true, &ucb1), Some(2));
    assert_eq!(tree[0].select_child(&tree, false, &ucb1), Some(2));
    let tree = vec![root, plain_node(0, 0), plain_node(0, 0), plain_node(0, 0)];
    assert_eq!(tree[0].select_child(&tree, true, &ucb1), Some(1));
}

#[test]
fn select_child_passes_over_children_without_visits() {
    let mut root = plain_node(0, 3);
    root.refactor_children(1, 4);
    let tree = vec![root, plain_node(0, 0), plain_node(-1, 1), plain_node(0, 0)];
    assert_eq!(tree[0].select_child(&tree, false, &ucb1), Some(2));
    let tree = vec![root, plain_node(0, 0), plain_node(0, 0), plain_node(0, 0)];
    assert_eq!(tree[0].select_child(&tree, false, &ucb1), None);
}

#[test]
fn select_child_of_a_leaf_is_none() {
    let tree = vec![plain_node(0, 3)];
    assert_eq!(tree[0].select_child(&tree, false, &ucb1), None);
    assert_eq!(tree[0].select_child(&tree, true, &ucb1), None);
    let mut root = plain_node(0, 3);
    root.refactor_children(1, 1);
    let tree = vec![root];
    assert_eq!(tree[0].select_child(&tree, true, &ucb1), None);
}

#[test]
fn expansion_makes_one_child_for_each_legal_move() {
    let board = obtain_board(["XXO", "XOO", "   "], true);
    let mut tree = fresh_tree(board);
    let range = expand(&mut tree, 0);
    assert_eq!(range, (1, 4));
    assert_eq!(tree.len(), 4);
    assert_eq!(tree[0].children, Some((1, 4)));
    assert!(tree[0].fully_expanded());
    let moves = board.possible_moves();
    assert_eq!(moves.len(), 3);
    for (place, action) in moves.iter().enumerate() {
        let child = &tree[1 + place];
        assert_eq!(child.parent_location, Some(0));
        assert_eq!(child.parent_action, Some(*action));
        assert_eq!(child.position, place);
        assert_eq!(child.children, None);
        assert_eq!((child.wins, child.visits), (0, 0));
        let after = board.get_move(*action).unwrap();
        assert_eq!(child.state.x_value(), after.x_value());
        assert_eq!(child.state.o_value(), after.o_value());
        assert_eq!(child.state.x_plays(), after.x_plays());
    }
}

#[test]
fn expansion_appends_behind_earlier_blocks() {
    let mut tree = fresh_tree(TicTacToeBoard::new());
    assert_eq!(expand(&mut tree, 0), (1, 10));
    assert_eq!(expand(&mut tree, 3), (10, 18));
    assert_eq!(expand(&mut tree, 12), (18, 25));
    assert_eq!(tree.len(), 25);
    assert_eq!(tree[3].children, Some((10, 18)));
    assert_eq!(tree[12].children, Some((18, 25)));
    assert_eq!(tree[12].parent_location, Some(3));
    assert_eq!(tree[3].parent_action, Some((0, 2)));
    assert_eq!(tree[12].parent_action, Some((1, 0)));
    assert_eq!(tree[18].parent_action, Some((0, 0)));
    assert_eq!(tree[12].state.x_value(), 0b100);
    assert_eq!(tree[12].state.o_value(), 0b1000);
    assert!(tree[3].fully_expanded());
    assert!(tree[12].fully_expanded());
    assert!(!tree[13].fully_expanded());
}

#[test]
fn backpropagation_turns_the_sign_at_every_step() {
    let mut tree = fresh_tree(TicTacToeBoard::new());
    expand(&mut tree, 0);
    backpropagate(&mut tree, &vec![0, 3], 1);
    assert_eq!((tree[3].wins, tree[3].visits), (1, 1));
    assert_eq!((tree[0].wins, tree[0].visits), (-1, 1));
    expand(&mut tree, 3);
    backpropagate(&mut tree, &vec![0, 3, 12], -1);
    assert_eq!((tree[12].wins, tree[12].visits), (-1, 1));
    assert_eq!((tree[3].wins, tree[3].visits), (2, 2));
    assert_eq!((tree[0].wins, tree[0].visits), (-2, 2));
    expand(&mut tree, 12);
    backpropagate(&mut tree, &vec![0, 3, 12, 20], 1);
    assert_eq!((tree[20].wins, tree[20].visits), (1, 1));
    assert_eq!((tree[12].wins, tree[12].visits), (-2, 2));
    assert_eq!((tree[3].wins, tree[3].visits), (3, 3));
    assert_eq!((tree[0].wins, tree[0].visits), (-3, 3));
}

#[test]
fn backpropagation_of_the_root_alone_gives_it_the_reward() {
    let mut tree = fresh_tree(obtain_board(["XXX", "OO ", "   "], false));
    backpropagate(&mut tree, &vec![0], -1);
    assert_eq!((tree[0].wins, tree[0].visits), (-1, 1));
    backpropagate(&mut tree, &vec![0], 0);
    assert_eq!((tree[0].wins, tree[0].visits), (-1, 2));
}

#[test]
fn backpropagation_leaves_other_nodes_alone() {
    let mut tree = fresh_tree(TicTacToeBoard::new());
    expand(&mut tree, 0);
    backpropagate(&mut tree, &vec![0, 5], 1);
    for index in 1..10 {
        if index != 5 {
            assert_eq!((tree[index].wins, tree[index].visits), (0, 0));
        }
        assert_eq!(tree[index].parent_location, Some(0));
        assert_eq!(tree[index].children, None);
    }
    assert_eq!(tree[0].children, Some((1, 10)));
}

#[test]
fn visits_count_the_passes_through_a_node() {
    let mut tree = fresh_tree(TicTacToeBoard::new());
    expand(&mut tree, 0);
    expand(&mut tree, 2);
    let rewards = [1, -1, 0, 1, 1, -1, 0];
    for (pass, reward) in rewards.iter().enumerate() {
        let history = if pass % 2 == 0 { vec![0, 2, 11] } else { vec![0, 2] };
        backpropagate(&mut tree, &history, *reward);
    }
    assert_eq!(tree[0].visits, 7);
    assert_eq!(tree[2].visits, 7);
    assert_eq!(tree[11].visits, 4);
    assert_eq!(tree[1].visits, 0);
    for node in tree.iter() {
        assert!(node.wins.unsigned_abs() <= node.visits);
    }
}

#[test]
fn rollout_reward_turns_the_sign_where_the_same_player_is_to_move() {
    let x_won = obtain_board(["XXX", "OO ", "   "], false);
    let o_won = obtain_board(["OXX", "OX ", "O  "], true);
    let draw = obtain_board(["XOX", "XOO", "OXX"], false);
    let x_to_move = obtain_board(["   ", "   ", "   "], true);
    let o_to_move = obtain_board(["X  ", "   ", "   "], false);
    assert_eq!(rollout_reward(&x_to_move, &x_won), 1);
    assert_eq!(rollout_reward(&o_to_move, &x_won), -1);
    assert_eq!(rollout_reward(&x_to_move, &o_won), 1);
    assert_eq!(rollout_reward(&o_to_move, &o_won), -1);
    assert_eq!(rollout_reward(&x_to_move, &draw), 0);
    assert_eq!(rollout_reward(&o_to_move, &draw), 0);
}

#[test]
fn rollout_from_a_won_position_is_its_reward_with_the_sign_turned() {
    let x_won = obtain_board(["XXX", "OO ", "   "], false);
    assert_eq!(x_won.reward(), 1);
    assert_eq!(Node::new(x_won, 0).rollout(), -1);
    let o_won = obtain_board(["OXX", "OX ", "O  "], true);
    assert_eq!(o_won.reward(), -1);
    assert_eq!(Node::new(o_won, 0).rollout(), 1);
    let draw = obtain_board(["XOX", "XOO", "OXX"], false);
    assert_eq!(Node::new(draw, 0).rollout(), 0);
}

#[test]
fn rollout_from_an_open_position_goes_by_who_moves_first() {
    let x_to_move = Node::new(TicTacToeBoard::new(), 0);
    let o_to_move = Node::new(obtain_board(["X  ", "   ", "   "], false), 0);
    for _ in 0..100 {
        let reward = x_to_move.rollout();
        assert!(reward == 0 || reward == 1);
        let reward = o_to_move.rollout();
        assert!(reward == 0 || reward == -1);
    }
}

#[test]
fn rollout_with_one_move_left_plays_it() {
    let last = Node::new(obtain_board(["XX ", "OOX", "XOO"], true), 0);
    assert_eq!(last.rollout(), 1);
    let last = Node::new(obtain_board(["XOX", "XOO", "OX "], true), 0);
    assert_eq!(last.rollout(), 0);
}

#[test]
fn selection_in_a_fresh_tree_stays_at_the_root() {
    let tree = fresh_tree(TicTacToeBoard::new());
    assert_eq!(select_leaf(&tree, &ucb1), vec![0]);
}

#[test]
fn selection_follows_the_visited_children_to_a_leaf() {
    let mut tree = fresh_tree(TicTacToeBoard::new());
    expand(&mut tree, 0);
    backpropagate(&mut tree, &vec![0, 4], 1);
    assert_eq!(select_leaf(&tree, &ucb1), vec![0, 4]);
    expand(&mut tree, 4);
    backpropagate(&mut tree, &vec![0, 4, 15], -1);
    assert_eq!(select_leaf(&tree, &ucb1), vec![0, 4, 15]);
}

#[test]
fn selection_stops_where_the_game_has_ended() {
    let mut tree = fresh_tree(obtain_board(["XX ", "OO ", "   "], true));
    expand(&mut tree, 0);
    backpropagate(&mut tree, &vec![0, 1], -1);
    assert!(tree[1].terminal());
    assert_eq!(select_leaf(&tree, &ucb1), vec![0, 1]);
    backpropagate(&mut tree, &vec![0, 1], -1);
    assert_eq!(select_leaf(&tree, &ucb1), vec![0, 1]);
    assert_eq!(tree[1].children, None);
}

#[test]
fn one_round_visits_the_root_and_one_of_its_new_children() {
    let mut tree = fresh_tree(TicTacToeBoard::new());
    search_round(&mut tree, 1, &ucb1);
    assert_eq!(tree.len(), 10);
    assert_eq!(tree[0].children, Some((1, 10)));
    assert_eq!(tree[0].visits, 1);
    let visited: Vec<usize> = (1..10).filter(|index| tree[*index].visits > 0).collect();
    assert_eq!(visited.len(), 1);
    assert_eq!(tree[visited[0]].visits, 1);
    assert_eq!(tree[visited[0]].wins, -tree[0].wins);
}

#[test]
fn rounds_keep_the_reward_within_the_visits() {
    let mut tree = fresh_tree(obtain_board(["X  ", " O ", "   "], true));
    for round in 1..=200u32 {
        search_round(&mut tree, 1, &ucb1);
        assert_eq!(tree[0].visits, round);
    }
    for (index, node) in tree.iter().enumerate() {
        assert!(node.wins.unsigned_abs() <= node.visits);
        assert!(node.visits <= tree[0].visits);
        if let Some((start, end)) = node.children {
            assert!(index < start && start <= end && end <= tree.len());
            assert_eq!(end - start, node.state.possible_moves().len());
            assert!((start..end).any(|child| tree[child].visits > 0));
        }
        if let Some(parent) = node.parent_location {
            assert!(parent < index);
        }
    }
}

#[test]
fn drawn_children_vary_between_searches() {
    let mut seen = Vec::new();
    for _ in 0..200 {
        let mut tree = fresh_tree(TicTacToeBoard::new());
        search_round(&mut tree, 1, &ucb1);
        let visited = (1..10).find(|index| tree[*index].visits > 0).unwrap();
        if !seen.contains(&visited) {
            seen.push(visited);
        }
    }
    assert!(seen.len() > 1);
}

#[test]
fn best_move_is_the_move_into_the_child_with_the_greatest_reward() {
    let mut tree = fresh_tree(obtain_board(["XX ", "   ", "   "], true));
    expand(&mut tree, 0);
    assert_eq!(best_move(&tree, &ucb1), (0, 2));
    backpropagate(&mut tree, &vec![0, 1], -1);
    assert_eq!(best_move(&tree, &ucb1), (1, 0));
    backpropagate(&mut tree, &vec![0, 4], 1);
    assert_eq!(best_move(&tree, &ucb1), (1, 2));
}

#[test]
fn immediate_win_is_found_when_the_search_goes_down_another_child() {
    let board = obtain_board(["XX ", "   ", "   "], true);
    let mut tree = fresh_tree(board);
    let multiplier = 1;
    for round in 0..60 {
        let mut history = select_leaf(&tree, &ucb1);
        let mut index = *history.last().unwrap();
        if !tree[index].terminal() {
            let (start, end) = expand(&mut tree, index);
            index = if round == 0 { start + 2 } else { start + (round % (end - start)) };
            history.push(index);
        }
        let reward = tree[index].rollout() * multiplier;
        backpropagate(&mut tree, &history, reward);
    }
    assert_eq!(tree[0].visits, 60);
    assert_eq!(best_move(&tree, &ucb1), (0, 2));
}

#[test]
fn forced_block_is_found_when_the_search_goes_down_another_child() {
    let board = obtain_board(["XX ", "   ", "O  "], false);
    let mut tree = fresh_tree(board);
    let multiplier = -1;
    for round in 0..60 {
        let mut history = select_leaf(&tree, &ucb1);
        let mut index = *history.last().unwrap();
        if !tree[index].terminal() {
            let (start, end) = expand(&mut tree, index);
            index = if round == 0 { start + 3 } else { start + (round % (end - start)) };
            history.push(index);
        }
        let reward = tree[index].rollout() * multiplier;
        backpropagate(&mut tree, &history, reward);
    }
    assert_eq!(best_move(&tree, &ucb1), (0, 2));
}

#[test]
fn search_returns_the_one_cell_that_is_left() {
    let board = obtain_board(["XOX", "XOO", "OX "], true);
    assert_eq!(tree_searcher(board, 50, ucb1), (2, 2));
    assert_eq!(search_rounds(board, 25, ucb1), (2, 2));
    let board = obtain_board(["XOX", " OO", "OXX"], true);
    assert_eq!(tree_searcher(board, 50, ucb1), (1, 0));
}

#[test]
fn search_returns_a_legal_move() {
    let boards = [
        obtain_board(["   ", "   ", "   "], true),
        obtain_board(["XX ", "   ", "   "], true),
        obtain_board(["XX ", "   ", "O  "], false),
        obtain_board(["XO ", " X ", "O  "], false),
    ];
    for board in boards.iter() {
        let action = tree_searcher(*board, 5, ucb1);
        assert!(board.possible_moves().contains(&action));
        let action = search_rounds(*board, 40, ucb1);
        assert!(board.possible_moves().contains(&action));
    }
}

#[test]
fn search_without_budget_still_makes_one_round() {
    let board = obtain_board(["XX ", "   ", "O  "], false);
    let action = tree_searcher(board, 0, ucb1);
    assert!(board.possible_moves().contains(&action));
    let action = search_rounds(board, 0, ucb1);
    assert!(board.possible_moves().contains(&action));
}

#[test]
fn search_returns_the_first_legal_move_or_the_second() {
    let boards = [
        obtain_board(["   ", "   ", "   "], true),
        obtain_board(["XX ", "   ", "   "], true),
        obtain_board(["XX ", "   ", "O  "], false),
        obtain_board(["XO ", " X ", "O  "], false),
    ];
    for board in boards.iter() {
        let moves = board.possible_moves();
        for _ in 0..10 {
            let action = search_rounds(*board, 30, ucb1);
            assert!(action == moves[0] || action == moves[1]);
        }
        let action = tree_searcher(*board, 10, ucb1);
        assert!(action == moves[0] || action == moves[1]);
    }
}

#[test]
fn rounds_of_a_search_keep_the_side_of_every_reward() {
    let board = obtain_board(["X  ", " O ", "   "], true);
    let mut tree = fresh_tree(board);
    for _ in 0..300 {
        search_round(&mut tree, 1, &ucb1);
    }
    for node in tree.iter() {
        if node.state.x_plays() == board.x_plays() {
            assert!(node.wins >= 0);
        } else {
            assert!(node.wins <= 0);
        }
        if let Some((start, end)) = node.children {
            assert_eq!((start..end).filter(|child| tree[*child].visits > 0).count(), 1);
        }
    }
}
