//! A run of games between two agents: whose turn it is, what a move does
//! to the game, and the tally of wins and ties.

use crate::agent::AgentType;
use crate::board::{cell_index, in_grid, TicTacToeBoard};
use vstd::prelude::*;

verus! {

/// A run of `game_count` games between two agents, with the games that
/// each has won and the games that were tied.
pub struct Game {
    pub agent_1: AgentType,
    pub agent_2: AgentType,
    pub game_count: u32,
    pub agent1_win: u32,
    pub agent2_win: u32,
    pub tie: u32,
}

/// What a move does to a game.
pub enum TurnOutcome {
    /// The cell was taken: the board stays, with the message to show.
    Rejected(String),
    /// The move was off the grid: the run ends, with the message to show.
    Aborted(String),
    /// The move was made and the game goes on from the board given, with the
    /// lines that show the board.
    Moved(TicTacToeBoard, Vec<String>),
    /// The move was made and ended the game on the board given, with the
    /// lines that show the board.
    Finished(TicTacToeBoard, Vec<String>),
}

/// Whether the first agent moves in turn `turns`, counted from 1: the odd
/// turns are the first agent's.
pub fn first_agent_moves(turns: u64) -> (first: bool)
    ensures
        first == (turns % 2 == 1),
{
    turns % 2 == 1
}

impl Game {
    /// Creates a new game implementation
    pub fn new(agent_1: AgentType, agent_2: AgentType, game_count: u32) -> (game: Game)
        ensures
            game == (Game { agent_1, agent_2, game_count, agent1_win: 0, agent2_win: 0, tie: 0 }),
    {
        Self { agent_1, agent_2, game_count, agent1_win: 0, agent2_win: 0, tie: 0 }
    }

    /// The number of games that have ended.
    pub open spec fn games_done(self) -> int {
        self.agent1_win + self.agent2_win + self.tie
    }

    /// The run with one more game counted: as a tie, or for the agent that
    /// moved in turn `turns`.
    pub open spec fn with_result(self, turns: u64, tied: bool) -> Game {
        if tied {
            Game { tie: (self.tie + 1) as u32, ..self }
        } else if turns % 2 == 1 {
            Game { agent1_win: (self.agent1_win + 1) as u32, ..self }
        } else {
            Game { agent2_win: (self.agent2_win + 1) as u32, ..self }
        }
    }

    /// Whether any of the two agents is a person.
    pub fn any_human_agent(&self) -> (any: bool)
        ensures
            any == (self.agent_1 is Human || self.agent_2 is Human),
    {
        self.agent_1.check_human() || self.agent_2.check_human()
    }

    /// Whether all the games of the run were counted.
    pub fn went_to_plan(&self) -> (all: bool)
        ensures
            all == (self.game_count == self.games_done()),
    {
        self.game_count as u64 == self.agent1_win as u64 + self.agent2_win as u64 + self.tie as u64
    }

    /// Makes the move `action_chosen` of turn `turns` on `board`. A move
    /// into a taken cell or off the grid leaves the game as it is. Any other
    /// move is made, and where it ends the game, the game is counted as a tie
    /// or for the agent that moved.
    pub fn play_turn(&mut self, board: &TicTacToeBoard, action_chosen: (u8, u8), turns: u64) -> (outcome:
        TurnOutcome)
        requires
            old(self).games_done() < old(self).game_count,
        ensures
            match outcome {
                TurnOutcome::Rejected(message) => {
                    &&& in_grid(action_chosen)
                    &&& !board@.blank(cell_index(action_chosen))
                    &&& message@ == "Already placed, try again"@
                    &&& *final(self) == *old(self)
                },
                TurnOutcome::Aborted(message) => {
                    &&& !in_grid(action_chosen)
                    &&& message@ == "Wrong coordinates"@
                    &&& *final(self) == *old(self)
                },
                TurnOutcome::Moved(next, lines) => {
                    &&& board@.legal(action_chosen)
                    &&& next@ == board@.play(action_chosen)
                    &&& !next@.game_over()
                    &&& shows(lines@, next, old(self).any_human())
                    &&& *final(self) == *old(self)
                },
                TurnOutcome::Finished(last, lines) => {
                    &&& board@.legal(action_chosen)
                    &&& last@ == board@.play(action_chosen)
                    &&& last@.game_over()
                    &&& shows(lines@, last, old(self).any_human())
                    &&& *final(self) == old(self).with_result(turns, last@.winner() is None)
                },
            },
    {
        let my_board = match board.get_move(action_chosen) {
            Ok(board) => board,
            Err(e) => {
                if action_chosen.0 < 3 && action_chosen.1 < 3 {
                    return TurnOutcome::Rejected(e);
                } else {
                    return TurnOutcome::Aborted(e);
                }
            },
        };
        let (lines, (game_terminal, game_tied)) = my_board.show_game_stage_and_end(
            self.any_human_agent(),
        );
        if game_terminal {
            if game_tied {
                self.tie += 1;
            } else {
                if first_agent_moves(turns) {
                    self.agent1_win += 1
                } else {
                    self.agent2_win += 1
                }
            }
            TurnOutcome::Finished(my_board, lines)
        } else {
            TurnOutcome::Moved(my_board, lines)
        }
    }

    /// Whether any of the two agents is a person.
    pub open spec fn any_human(self) -> bool {
        self.agent_1 is Human || self.agent_2 is Human
    }
}

/// `lines` show `board`, with the drawn board where `human_output` asks
/// for it.
pub open spec fn shows(lines: Seq<String>, board: TicTacToeBoard, human_output: bool) -> bool {
    &&& lines.len() == board@.stage_text(human_output).len()
    &&& forall|k: int|
        0 <= k < lines.len() ==> (#[trigger] lines[k])@ == board@.stage_text(human_output)[k]
}

} // verus!
