use tictactoe_mcts::agent::{AgentType, PerformanceStats};
use tictactoe_mcts::board::obtain_board;
use tictactoe_mcts::clock::{time_is_left, time_unit, within_budget, StopWatch};
use tictactoe_mcts::entry::{agents_from_ids, agents_from_line, move_from_line, move_from_numbers};
use tictactoe_mcts::environment::{first_agent_moves, Game, TurnOutcome};
use tictactoe_mcts::text::append_decimal;

fn ucb1(wins: i32, visits: u32, parent_visits: u32) -> i64 {
    let q = wins as f64 / visits as f64;
    let p = 2.0 * (parent_visits as f64).ln() / (visits as f64);
    let bits = (q + p.sqrt() + 0.0).to_bits() as i64;
    bits ^ ((((bits >> 63) as u64) >> 1) as i64)
}

#[test]
fn test_winning_agent_working() {
    let my_board = ["XX ", "   ", "   "];
    let winning_agent_number = 3;
    let new_board = obtain_board(my_board, true);
    let mut test_agent = AgentType::create_agent_from_id(winning_agent_number, 1).unwrap();
    assert_eq!(test_agent.get_action(&new_board, ucb1), Some((0, 2)));

    let my_board = ["   ", " O ", " O "];
    let new_board = obtain_board(my_board, false);
    let mut test_agent = AgentType::create_agent_from_id(winning_agent_number, 2).unwrap();
    assert_eq!(test_agent.get_action(&new_board, ucb1), Some((0, 1)));

    let my_board = [" OX", " XO", " O "];
    let new_board = obtain_board(my_board, true);
    let mut test_agent = AgentType::create_agent_from_id(winning_agent_number, 3).unwrap();
    assert_eq!(test_agent.get_action(&new_board, ucb1), Some((2, 0)));
}

#[test]
fn test_non_losing_agent_working() {
    let my_board = ["XX ", "   ", "   "];
    let winning_agent_number = 4;
    let new_board = obtain_board(my_board, true);
    let mut test_agent = AgentType::create_agent_from_id(winning_agent_number, 1).unwrap();
    assert_eq!(test_agent.get_action(&new_board, ucb1), Some((0, 2)));

    let my_board = ["   ", " O ", " O "];
    let new_board = obtain_board(my_board, false);
    let mut test_agent = AgentType::create_agent_from_id(winning_agent_number, 2).unwrap();
    assert_eq!(test_agent.get_action(&new_board, ucb1), Some((0, 1)));

    let my_board = [" OX", " XO", " O "];
    let new_board = obtain_board(my_board, true);
    let mut test_agent = AgentType::create_agent_from_id(winning_agent_number, 3).unwrap();
    assert_eq!(test_agent.get_action(&new_board, ucb1), Some((2, 0)));

    let my_board = [" OX", " O ", "   "];
    let new_board = obtain_board(my_board, true);
    let mut test_agent = AgentType::create_agent_from_id(winning_agent_number, 3).unwrap();
    assert_eq!(test_agent.get_action(&new_board, ucb1), Some((2, 1)));
}

#[test]
fn agents_are_made_from_the_numbers_one_to_five() {
    assert!(matches!(AgentType::create_agent_from_id(1, 7), Some(AgentType::Human(_, 7))));
    assert!(matches!(AgentType::create_agent_from_id(2, 8), Some(AgentType::Random(_, 8))));
    assert!(matches!(
        AgentType::create_agent_from_id(3, 9),
        Some(AgentType::WinningMoveSelector(_, 9))
    ));
    assert!(matches!(
        AgentType::create_agent_from_id(4, 10),
        Some(AgentType::NonLosingMoveSelector(_, 10))
    ));
    assert!(matches!(AgentType::create_agent_from_id(5, 11), Some(AgentType::MCTSAgent(_, 11))));
    let stats = AgentType::create_agent_from_id(5, 11).unwrap().get_stats();
    assert_eq!((stats.minimum, stats.maximum, stats.total_time_nanoseconds, stats.runs), (0, 0, 0, 0));
}

#[test]
fn no_agent_is_made_from_another_number() {
    assert!(AgentType::create_agent_from_id(0, 1).is_none());
    assert!(AgentType::create_agent_from_id(6, 1).is_none());
    assert!(AgentType::create_agent_from_id(u32::MAX, 1).is_none());
}

#[test]
fn names_of_the_agents() {
    let name = |id: u32, index: usize| AgentType::create_agent_from_id(id, index).unwrap().get_name();
    assert_eq!(name(1, 1), "Human agent 1");
    assert_eq!(name(2, 2), "Random agent 2");
    assert_eq!(name(3, 10), "Winning agent 10");
    assert_eq!(name(4, 0), "Non losing agent 0");
    assert_eq!(name(5, 4096), "Monte carlo agent 4096");
    assert_eq!(name(5, usize::MAX), format!("Monte carlo agent {}", usize::MAX));
}

#[test]
fn only_the_human_agent_is_human() {
    assert!(AgentType::create_agent_from_id(1, 1).unwrap().check_human());
    for id in 2..=5 {
        assert!(!AgentType::create_agent_from_id(id, 1).unwrap().check_human());
    }
}

#[test]
fn human_agent_gives_no_action_and_keeps_its_statistics() {
    let board = obtain_board(["XX ", "   ", "   "], true);
    let mut agent = AgentType::create_agent_from_id(1, 1).unwrap();
    assert_eq!(agent.get_action(&board, ucb1), None);
    assert_eq!(agent.get_stats().runs, 0);
    agent.record(250);
    let stats = agent.get_stats();
    assert_eq!((stats.minimum, stats.maximum, stats.total_time_nanoseconds, stats.runs), (250, 250, 250, 1));
}

#[test]
fn computed_agents_record_each_move() {
    let board = obtain_board(["XX ", "   ", "O  "], false);
    for id in 2..=5 {
        let mut agent = AgentType::create_agent_from_id(id, 1).unwrap();
        for turn in 1..=3u128 {
            let action = agent.get_action(&board, ucb1).unwrap();
            assert!(board.possible_moves().contains(&action));
            let stats = agent.get_stats();
            assert_eq!(stats.runs, turn);
            assert!(stats.minimum <= stats.maximum);
            assert!(stats.maximum <= stats.total_time_nanoseconds);
        }
    }
}

#[test]
fn search_agent_plays_the_one_cell_that_is_left() {
    let board = obtain_board(["XOX", "XOO", "OX "], true);
    let mut agent = AgentType::create_agent_from_id(5, 2).unwrap();
    assert_eq!(agent.get_action(&board, ucb1), Some((2, 2)));
}

#[test]
fn statistics_keep_least_greatest_total_and_number() {
    let mut stats = PerformanceStats::new();
    assert_eq!((stats.minimum, stats.maximum, stats.total_time_nanoseconds, stats.runs), (0, 0, 0, 0));
    stats.increment(40);
    assert_eq!((stats.minimum, stats.maximum, stats.total_time_nanoseconds, stats.runs), (40, 40, 40, 1));
    stats.increment(10);
    assert_eq!((stats.minimum, stats.maximum, stats.total_time_nanoseconds, stats.runs), (10, 40, 50, 2));
    stats.increment(70);
    assert_eq!((stats.minimum, stats.maximum, stats.total_time_nanoseconds, stats.runs), (10, 70, 120, 3));
    stats.increment(0);
    assert_eq!((stats.minimum, stats.maximum, stats.total_time_nanoseconds, stats.runs), (0, 70, 120, 4));
}

#[test]
fn statistics_without_room_stay_as_they_are() {
    let mut stats = PerformanceStats::new();
    assert!(stats.try_increment(u128::MAX - 5));
    assert!(!stats.try_increment(6));
    assert_eq!(stats.runs, 1);
    assert_eq!(stats.total_time_nanoseconds, u128::MAX - 5);
    assert!(stats.try_increment(5));
    assert_eq!(stats.total_time_nanoseconds, u128::MAX);
    assert_eq!((stats.minimum, stats.maximum, stats.runs), (5, u128::MAX - 5, 2));
    let mut stats = PerformanceStats { minimum: 1, maximum: 1, total_time_nanoseconds: 9, runs: u128::MAX };
    assert!(!stats.try_increment(1));
    assert_eq!(stats.runs, u128::MAX);
}

#[test]
fn decimal_text_of_numbers() {
    let mut text = String::from("n=");
    append_decimal(&mut text, 0);
    assert_eq!(text, "n=0");
    append_decimal(&mut text, 9);
    append_decimal(&mut text, 10);
    append_decimal(&mut text, 4205);
    assert_eq!(text, "n=09104205");
    let mut text = String::new();
    append_decimal(&mut text, usize::MAX);
    assert_eq!(text, usize::MAX.to_string());
}

#[test]
fn stopwatch_does_not_run_backwards() {
    let mut clock = StopWatch::new();
    let first = clock.get_elapsed_time();
    let second = clock.get_elapsed_time();
    assert!(first <= second);
}

#[test]
fn times_are_shown_in_the_unit_that_they_exceed() {
    assert_eq!(time_unit(0), (1, "ns"));
    assert_eq!(time_unit(1_000), (1, "ns"));
    assert_eq!(time_unit(1_001), (1_000, "\u{b5}s"));
    assert_eq!(time_unit(1_000_000), (1_000, "\u{b5}s"));
    assert_eq!(time_unit(1_000_001), (1_000_000, "ms"));
    assert_eq!(time_unit(1_000_000_000), (1_000_000, "ms"));
    assert_eq!(time_unit(1_000_000_001), (1_000_000_000, "s"));
    assert_eq!(time_unit(u128::MAX), (1_000_000_000, "s"));
}

#[test]
fn budget_of_nothing_is_spent_at_once() {
    let start = std::time::SystemTime::now();
    assert!(!within_budget(&start, 0));
    assert!(within_budget(&start, u128::MAX));
}

#[test]
fn time_is_left_while_the_clock_is_below_the_budget() {
    assert!(time_is_left(Some(0), 1));
    assert!(time_is_left(Some(47), 48));
    assert!(!time_is_left(Some(48), 48));
    assert!(!time_is_left(Some(49), 48));
    assert!(!time_is_left(Some(0), 0));
    assert!(!time_is_left(None, 48));
    assert!(!time_is_left(None, 0));
    assert!(time_is_left(Some(u128::MAX - 1), u128::MAX));
}

#[test]
fn stopwatch_runs_on_after_it_was_read() {
    let mut clock = StopWatch::new();
    let mut last = clock.get_elapsed_time();
    for _ in 0..1000 {
        let next = clock.get_elapsed_time();
        assert!(last <= next);
        last = next;
    }
    assert!(last > 0);
}

#[test]
fn odd_turns_are_the_first_agents() {
    assert!(first_agent_moves(1));
    assert!(!first_agent_moves(2));
    assert!(first_agent_moves(9));
    assert!(!first_agent_moves(0));
}

#[test]
fn new_game_has_an_empty_tally() {
    let one = AgentType::create_agent_from_id(2, 1).unwrap();
    let two = AgentType::create_agent_from_id(1, 2).unwrap();
    let game = Game::new(one, two, 12);
    assert_eq!((game.game_count, game.agent1_win, game.agent2_win, game.tie), (12, 0, 0, 0));
    assert!(game.any_human_agent());
    assert!(!game.went_to_plan());
    assert!(Game::new(one, one, 0).went_to_plan());
    assert!(!Game::new(one, one, 0).any_human_agent());
}

#[test]
fn turn_into_a_taken_cell_is_rejected() {
    let one = AgentType::create_agent_from_id(2, 1).unwrap();
    let mut game = Game::new(one, one, 1);
    let board = obtain_board(["X  ", "   ", "   "], false);
    match game.play_turn(&board, (0, 0), 2) {
        TurnOutcome::Rejected(message) => assert_eq!(message, "Already placed, try again"),
        _ => panic!("the cell is taken"),
    }
    assert_eq!((game.agent1_win, game.agent2_win, game.tie), (0, 0, 0));
}

#[test]
fn turn_off_the_grid_is_aborted() {
    let one = AgentType::create_agent_from_id(2, 1).unwrap();
    let mut game = Game::new(one, one, 1);
    let board = obtain_board(["X  ", "   ", "   "], false);
    match game.play_turn(&board, (0, 3), 2) {
        TurnOutcome::Aborted(message) => assert_eq!(message, "Wrong coordinates"),
        _ => panic!("the cell is off the grid"),
    }
    assert_eq!((game.agent1_win, game.agent2_win, game.tie), (0, 0, 0));
}

#[test]
fn turn_that_leaves_the_game_open_moves_on() {
    let one = AgentType::create_agent_from_id(2, 1).unwrap();
    let human = AgentType::create_agent_from_id(1, 2).unwrap();
    let mut game = Game::new(one, human, 1);
    let board = obtain_board(["X  ", "   ", "   "], false);
    match game.play_turn(&board, (1, 1), 2) {
        TurnOutcome::Moved(next, lines) => {
            assert_eq!(next.x_value(), 1);
            assert_eq!(next.o_value(), 0b10000);
            assert!(next.x_plays());
            assert_eq!(lines.len(), 6);
            assert_eq!(lines[2], "| |O| |");
            assert_eq!(lines[5], "X to play");
        }
        _ => panic!("the game goes on"),
    }
    assert_eq!((game.agent1_win, game.agent2_win, game.tie), (0, 0, 0));
}

#[test]
fn winning_turn_counts_for_the_agent_that_moved() {
    let one = AgentType::create_agent_from_id(2, 1).unwrap();
    let mut game = Game::new(one, one, 3);
    let board = obtain_board(["XX ", "OO ", "   "], true);
    match game.play_turn(&board, (0, 2), 5) {
        TurnOutcome::Finished(last, lines) => {
            assert_eq!(last.x_value(), 0b111);
            assert_eq!(lines, vec!["X has won".to_string()]);
        }
        _ => panic!("the game has ended"),
    }
    assert_eq!((game.agent1_win, game.agent2_win, game.tie), (1, 0, 0));
    let board = obtain_board(["XX ", "OO ", "X  "], false);
    match game.play_turn(&board, (1, 2), 6) {
        TurnOutcome::Finished(_, lines) => assert_eq!(lines, vec!["O has won".to_string()]),
        _ => panic!("the game has ended"),
    }
    assert_eq!((game.agent1_win, game.agent2_win, game.tie), (1, 1, 0));
    assert!(!game.went_to_plan());
}

#[test]
fn last_turn_without_a_line_counts_as_a_tie() {
    let one = AgentType::create_agent_from_id(2, 1).unwrap();
    let mut game = Game::new(one, one, 1);
    let board = obtain_board(["XOX", "XOO", "OX "], true);
    match game.play_turn(&board, (2, 2), 9) {
        TurnOutcome::Finished(_, lines) => {
            assert_eq!(lines, vec!["Game has ended in a draw".to_string()])
        }
        _ => panic!("the game has ended"),
    }
    assert_eq!((game.agent1_win, game.agent2_win, game.tie), (0, 0, 1));
    assert!(game.went_to_plan());
}

#[test]
fn agents_from_two_kinds_play_one_game() {
    let (one, two, count) = agents_from_ids(5, 1, None).unwrap();
    assert!(matches!(one, AgentType::MCTSAgent(_, 1)));
    assert!(matches!(two, AgentType::Human(_, 2)));
    assert_eq!(count, 1);
    let (one, two, count) = agents_from_ids(2, 3, Some(40)).unwrap();
    assert!(matches!(one, AgentType::Random(_, 1)));
    assert!(matches!(two, AgentType::WinningMoveSelector(_, 2)));
    assert_eq!(count, 40);
    assert_eq!(agents_from_ids(4, 4, Some(0)).unwrap().2, 0);
}

#[test]
fn agents_of_an_unknown_kind_are_refused() {
    assert!(agents_from_ids(0, 1, None).is_none());
    assert!(agents_from_ids(1, 6, Some(3)).is_none());
    assert!(agents_from_ids(9, 9, None).is_none());
}

#[test]
fn line_of_two_or_three_numbers_chooses_the_agents() {
    let (one, two, count) = agents_from_line("2 5\n").unwrap();
    assert!(matches!(one, AgentType::Random(_, 1)));
    assert!(matches!(two, AgentType::MCTSAgent(_, 2)));
    assert_eq!(count, 1);
    let (one, two, count) = agents_from_line("  3\t4   250  ignored\n").unwrap();
    assert!(matches!(one, AgentType::WinningMoveSelector(_, 1)));
    assert!(matches!(two, AgentType::NonLosingMoveSelector(_, 2)));
    assert_eq!(count, 250);
}

#[test]
fn line_that_chooses_no_agents_is_refused() {
    assert!(agents_from_line("").is_none());
    assert!(agents_from_line("2\n").is_none());
    assert!(agents_from_line("two 3\n").is_none());
    assert!(agents_from_line("2 -3\n").is_none());
    assert!(agents_from_line("2 3 many\n").is_none());
    assert!(agents_from_line("2 7\n").is_none());
    assert!(agents_from_line("2 3 4294967296\n").is_none());
    assert!(agents_from_line("2 3 1.5\n").is_none());
}

#[test]
fn move_is_the_first_two_numbers() {
    assert_eq!(move_from_numbers(&vec![1, 2]), Some((1, 2)));
    assert_eq!(move_from_numbers(&vec![0, 7, 9]), Some((0, 7)));
    assert_eq!(move_from_numbers(&vec![4]), None);
    assert_eq!(move_from_numbers(&vec![]), None);
}

#[test]
fn line_of_numbers_names_a_move() {
    assert_eq!(move_from_line("1 2\n"), Some((1, 2)));
    assert_eq!(move_from_line("  0\t2  \n"), Some((0, 2)));
    assert_eq!(move_from_line("7 255 3\n"), Some((7, 255)));
    assert_eq!(move_from_line("+1 002\n"), Some((1, 2)));
    assert_eq!(move_from_line("1\u{2003}2\u{a0}\n"), Some((1, 2)));
}

#[test]
fn line_that_names_no_move_is_refused() {
    assert_eq!(move_from_line("\n"), None);
    assert_eq!(move_from_line("1\n"), None);
    assert_eq!(move_from_line("1 x\n"), None);
    assert_eq!(move_from_line("1 2 x\n"), None);
    assert_eq!(move_from_line("1 256\n"), None);
    assert_eq!(move_from_line("1,2\n"), None);
}
