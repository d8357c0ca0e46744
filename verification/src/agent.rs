//! The players: a person, three simple policies and the tree search, each
//! with the statistics of the time that its moves took.

use crate::board::TicTacToeBoard;
use crate::clock::StopWatch;
use crate::node::scorer_ready;
use crate::search::{first_or_second, tree_searcher};
use crate::text::{append_decimal, decimal};
use vstd::prelude::*;

verus! {

/// The time budget of one search, in milliseconds.
pub const SEARCH_BUDGET_MILLIS: u128 = 48;

/// The least, the greatest and the total time of the moves of one player,
/// in nanoseconds, and their number.
#[derive(Clone, Copy, Debug)]
pub struct PerformanceStats {
    pub minimum: u128,
    pub maximum: u128,
    pub total_time_nanoseconds: u128,
    pub runs: u128,
}

impl PerformanceStats {
    /// The statistics of no move.
    pub open spec fn fresh() -> PerformanceStats {
        PerformanceStats { minimum: 0, maximum: 0, total_time_nanoseconds: 0, runs: 0 }
    }

    pub fn new() -> (stats: PerformanceStats)
        ensures
            stats == PerformanceStats::fresh(),
    {
        Self { minimum: 0, maximum: 0, total_time_nanoseconds: 0, runs: 0 }
    }

    /// One more move that took `total_time` can be recorded without
    /// running over the counters.
    pub open spec fn has_room(self, total_time: u128) -> bool {
        self.total_time_nanoseconds + total_time <= u128::MAX && self.runs < u128::MAX
    }

    /// The statistics with one more move that took `total_time`.
    pub open spec fn with_run(self, total_time: u128) -> PerformanceStats {
        PerformanceStats {
            minimum: if self.runs == 0 || total_time < self.minimum {
                total_time
            } else {
                self.minimum
            },
            maximum: if total_time > self.maximum {
                total_time
            } else {
                self.maximum
            },
            total_time_nanoseconds: (self.total_time_nanoseconds + total_time) as u128,
            runs: (self.runs + 1) as u128,
        }
    }

    pub fn increment(&mut self, total_time: u128)
        requires
            old(self).has_room(total_time),
        ensures
            *final(self) == old(self).with_run(total_time),
    {
        self.minimum = if self.runs == 0 {
            total_time
        } else if total_time < self.minimum {
            total_time
        } else {
            self.minimum
        };
        self.maximum = if total_time > self.maximum {
            total_time
        } else {
            self.maximum
        };
        self.total_time_nanoseconds += total_time;
        self.runs += 1;
    }

    /// Records a move that took `total_time` where the counters have room
    /// for it, and says whether they had.
    pub fn try_increment(&mut self, total_time: u128) -> (recorded: bool)
        ensures
            recorded == old(self).has_room(total_time),
            *final(self) == (if recorded {
                old(self).with_run(total_time)
            } else {
                *old(self)
            }),
    {
        if total_time <= u128::MAX - self.total_time_nanoseconds && self.runs < u128::MAX {
            self.increment(total_time);
            true
        } else {
            false
        }
    }
}

#[derive(Clone, Copy, Debug)]
pub enum AgentType {
    /// Human agent
    Human(PerformanceStats, usize),
    /// Random move choosing agent
    Random(PerformanceStats, usize),
    /// Winnable move prioritising random agent
    WinningMoveSelector(PerformanceStats, usize),
    /// Non losable move prioritising random agent
    NonLosingMoveSelector(PerformanceStats, usize),
    /// MCTS method choosing agent
    MCTSAgent(PerformanceStats, usize),
}

impl AgentType {
    /// The statistics of the agent's moves.
    pub open spec fn stats(self) -> PerformanceStats {
        match self {
            AgentType::Human(stats, _) => stats,
            AgentType::Random(stats, _) => stats,
            AgentType::WinningMoveSelector(stats, _) => stats,
            AgentType::NonLosingMoveSelector(stats, _) => stats,
            AgentType::MCTSAgent(stats, _) => stats,
        }
    }

    /// The number under which the agent plays.
    pub open spec fn index(self) -> usize {
        match self {
            AgentType::Human(_, index) => index,
            AgentType::Random(_, index) => index,
            AgentType::WinningMoveSelector(_, index) => index,
            AgentType::NonLosingMoveSelector(_, index) => index,
            AgentType::MCTSAgent(_, index) => index,
        }
    }

    /// The words that name the agent's kind.
    pub open spec fn kind_name(self) -> Seq<char> {
        match self {
            AgentType::Human(_, _) => "Human agent "@,
            AgentType::Random(_, _) => "Random agent "@,
            AgentType::WinningMoveSelector(_, _) => "Winning agent "@,
            AgentType::NonLosingMoveSelector(_, _) => "Non losing agent "@,
            AgentType::MCTSAgent(_, _) => "Monte carlo agent "@,
        }
    }

    /// The agent with other statistics.
    pub open spec fn with_stats(self, stats: PerformanceStats) -> AgentType {
        match self {
            AgentType::Human(_, index) => AgentType::Human(stats, index),
            AgentType::Random(_, index) => AgentType::Random(stats, index),
            AgentType::WinningMoveSelector(_, index) => AgentType::WinningMoveSelector(stats, index),
            AgentType::NonLosingMoveSelector(_, index) => AgentType::NonLosingMoveSelector(
                stats,
                index,
            ),
            AgentType::MCTSAgent(_, index) => AgentType::MCTSAgent(stats, index),
        }
    }

    /// The agent of the kind that `agent_id_tag` names, with fresh
    /// statistics, or none where the number names no kind.
    pub open spec fn from_id(agent_id_tag: u32, index: usize) -> Option<AgentType> {
        if agent_id_tag == 1 {
            Some(AgentType::Human(PerformanceStats::fresh(), index))
        } else if agent_id_tag == 2 {
            Some(AgentType::Random(PerformanceStats::fresh(), index))
        } else if agent_id_tag == 3 {
            Some(AgentType::WinningMoveSelector(PerformanceStats::fresh(), index))
        } else if agent_id_tag == 4 {
            Some(AgentType::NonLosingMoveSelector(PerformanceStats::fresh(), index))
        } else if agent_id_tag == 5 {
            Some(AgentType::MCTSAgent(PerformanceStats::fresh(), index))
        } else {
            None
        }
    }

    pub fn create_agent_from_id(agent_id_tag: u32, index: usize) -> (agent: Option<AgentType>)
        ensures
            agent == AgentType::from_id(agent_id_tag, index),
    {
        match agent_id_tag {
            1 => Some(AgentType::Human(PerformanceStats::new(), index)),
            2 => Some(AgentType::Random(PerformanceStats::new(), index)),
            3 => Some(AgentType::WinningMoveSelector(PerformanceStats::new(), index)),
            4 => Some(AgentType::NonLosingMoveSelector(PerformanceStats::new(), index)),
            5 => Some(AgentType::MCTSAgent(PerformanceStats::new(), index)),
            _ => None,
        }
    }

    pub fn get_name(self) -> (name: String)
        ensures
            name@ == self.kind_name() + decimal(self.index() as nat),
    {
        let (kind, index) = match self {
            AgentType::Human(_stats, index) => ("Human agent ", index),
            AgentType::Random(_stats, index) => ("Random agent ", index),
            AgentType::WinningMoveSelector(_stats, index) => ("Winning agent ", index),
            AgentType::NonLosingMoveSelector(_stats, index) => ("Non losing agent ", index),
            AgentType::MCTSAgent(_stats, index) => ("Monte carlo agent ", index),
        };
        let mut name = String::from_str(kind);
        append_decimal(&mut name, index);
        name
    }

    pub fn check_human(&self) -> (human: bool)
        ensures
            human == (*self is Human),
    {
        matches!(self, AgentType::Human(_, _))
    }

    /// The statistics of the agent's moves.
    pub fn get_stats(&self) -> (stats: PerformanceStats)
        ensures
            stats == self.stats(),
    {
        match self {
            AgentType::Human(stats, _) => *stats,
            AgentType::Random(stats, _) => *stats,
            AgentType::WinningMoveSelector(stats, _) => *stats,
            AgentType::NonLosingMoveSelector(stats, _) => *stats,
            AgentType::MCTSAgent(stats, _) => *stats,
        }
    }

    /// The agent's move on `board_stage`, with the time that it took
    /// recorded. A human agent gives none: the move of a person comes from
    /// outside, and its time is recorded with `record`.
    pub fn get_action<F: Fn(i32, u32, u32) -> i64>(
        &mut self,
        board_stage: &TicTacToeBoard,
        scorer: F,
    ) -> (action: Option<(u8, u8)>)
        requires
            scorer_ready(&scorer),
            match *old(self) {
                AgentType::Human(_, _) => true,
                AgentType::MCTSAgent(_, _) => !board_stage@.game_over(),
                _ => !board_stage@.full(),
            },
        ensures
            match *old(self) {
                AgentType::Human(_, _) => action is None && *final(self) == *old(self),
                AgentType::Random(_, _) => action is Some && board_stage@.legal(action->0),
                AgentType::WinningMoveSelector(_, _) => {
                    &&& action is Some
                    &&& board_stage@.legal(action->0)
                    &&& board_stage@.can_complete(board_stage@.mover)
                        ==> board_stage@.first_completing(board_stage@.mover, action->0)
                },
                AgentType::NonLosingMoveSelector(_, _) => {
                    &&& action is Some
                    &&& board_stage@.legal(action->0)
                    &&& board_stage@.can_complete(board_stage@.mover)
                        ==> board_stage@.first_completing(board_stage@.mover, action->0)
                    &&& !board_stage@.can_complete(board_stage@.mover) && board_stage@.can_complete(
                        board_stage@.mover.other(),
                    ) ==> board_stage@.first_completing(board_stage@.mover.other(), action->0)
                },
                AgentType::MCTSAgent(_, _) => {
                    &&& action is Some
                    &&& board_stage@.legal(action->0)
                    &&& first_or_second(board_stage@.legal_moves(), action->0)
                },
            },
            old(self).timed(*final(self)),
    {
        let mut clock = StopWatch::new();
        let ghost before = *self;
        let inputs = match self {
            AgentType::Human(_my_stats, _index) => {
                assert(before.with_stats(before.stats()) == before);
                return None;
            },
            AgentType::Random(_my_stats, _index) => board_stage.get_random_move(),
            AgentType::WinningMoveSelector(_my_stats, _index) => board_stage.show_winning_move(),
            AgentType::NonLosingMoveSelector(_my_stats, _index) => {
                board_stage.show_non_losing_move()
            },
            AgentType::MCTSAgent(_my_stats, _index) => tree_searcher(
                *board_stage,
                SEARCH_BUDGET_MILLIS,
                scorer,
            ),
        };
        let elapsed = clock.get_elapsed_time();
        self.record(elapsed);
        proof {
            assert(before.stats().has_room(elapsed) || !before.stats().has_room(elapsed));
            assert(before.timed_by(*self, elapsed));
        }
        Some(inputs)
    }

    /// `after` is the agent with the time `elapsed` recorded, where the
    /// counters have room for it, and unchanged where they have not.
    pub open spec fn timed_by(self, after: AgentType, elapsed: u128) -> bool {
        after == self.with_stats(
            if self.stats().has_room(elapsed) {
                self.stats().with_run(elapsed)
            } else {
                self.stats()
            },
        )
    }

    /// `after` is the agent unchanged, or with some time recorded.
    pub open spec fn timed(self, after: AgentType) -> bool {
        after == self || exists|elapsed: u128| self.timed_by(after, elapsed)
    }

    /// Records the time that a move of the agent took, where the counters
    /// have room for it.
    pub fn record(&mut self, elapsed: u128)
        ensures
            old(self).timed_by(*final(self), elapsed),
    {
        match self {
            AgentType::Human(my_stats, _) => {
                my_stats.try_increment(elapsed);
            },
            AgentType::Random(my_stats, _) => {
                my_stats.try_increment(elapsed);
            },
            AgentType::WinningMoveSelector(my_stats, _) => {
                my_stats.try_increment(elapsed);
            },
            AgentType::NonLosingMoveSelector(my_stats, _) => {
                my_stats.try_increment(elapsed);
            },
            AgentType::MCTSAgent(my_stats, _) => {
                my_stats.try_increment(elapsed);
            },
        }
    }
}

} // verus!
