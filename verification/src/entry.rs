//! What a person types: the line that chooses the agents and the number of
//! games, and the line that names a move.

use crate::agent::AgentType;
use crate::text::{number_within, parse_number};
use vstd::prelude::*;

verus! {

/// The words of a line: what `str::split_whitespace` gives for it.
pub uninterp spec fn words_of(line: Seq<char>) -> Seq<Seq<char>>;

/// The number that a word stands for, where it stands for one that a
/// `u32` holds.
pub open spec fn number_of(word: Seq<char>) -> Option<u32> {
    match number_within(word, u32::MAX as nat) {
        Some(value) => Some(value as u32),
        None => None,
    }
}

/// The number that a word stands for, where it stands for one that a `u8`
/// holds.
pub open spec fn small_number_of(word: Seq<char>) -> Option<u8> {
    match number_within(word, u8::MAX as nat) {
        Some(value) => Some(value as u8),
        None => None,
    }
}

/// `str::split_whitespace`, with the words collected: the words of the
/// line, in their order.
#[verifier::external_body]
fn split_words(line: &str) -> (words: Vec<String>)
    ensures
        words@.len() == words_of(line@).len(),
        forall|k: int| 0 <= k < words@.len() ==> (#[trigger] words@[k])@ == words_of(line@)[k],
{
    line.split_whitespace().map(String::from).collect()
}

/// Reads a number that a `u8` holds from a word.
fn parse_small_number(word: &str) -> (number: Option<u8>)
    ensures
        number == small_number_of(word@),
{
    match parse_number(word, 255) {
        Some(value) => Some(value as u8),
        None => None,
    }
}

/// The agents with the numbers 1 and 2 that the two kinds ask for, and the
/// number of games, which is 1 where none is given. No choice where one of
/// the kinds is none.
pub open spec fn agents_chosen(first_id: u32, second_id: u32, game_count: Option<u32>) -> Option<
    (AgentType, AgentType, u32),
> {
    match (AgentType::from_id(first_id, 1), AgentType::from_id(second_id, 2)) {
        (Some(agent_1), Some(agent_2)) => Some(
            (
                agent_1,
                agent_2,
                match game_count {
                    Some(count) => count,
                    None => 1,
                },
            ),
        ),
        _ => None,
    }
}

/// The agents and the number of games that two kinds and a number of games
/// ask for.
pub fn agents_from_ids(first_id: u32, second_id: u32, game_count: Option<u32>) -> (chosen: Option<
    (AgentType, AgentType, u32),
>)
    ensures
        chosen == agents_chosen(first_id, second_id, game_count),
{
    let agent_1 = match AgentType::create_agent_from_id(first_id, 1) {
        Some(agent) => agent,
        None => {
            return None;
        },
    };
    let agent_2 = match AgentType::create_agent_from_id(second_id, 2) {
        Some(agent) => agent,
        None => {
            return None;
        },
    };
    let turn_count = match game_count {
        Some(count) => count,
        None => 1,
    };
    Some((agent_1, agent_2, turn_count))
}

/// What words choose: the first two are the kinds of the agents, the third,
/// where there is one, the number of games. No choice where a kind is
/// missing, or where one of the three is no number.
pub open spec fn agents_worded(words: Seq<Seq<char>>) -> Option<(AgentType, AgentType, u32)> {
    if words.len() < 2 {
        None
    } else {
        match (number_of(words[0]), number_of(words[1])) {
            (Some(first_id), Some(second_id)) => {
                if words.len() < 3 {
                    agents_chosen(first_id, second_id, None)
                } else {
                    match number_of(words[2]) {
                        Some(count) => agents_chosen(first_id, second_id, Some(count)),
                        None => None,
                    }
                }
            },
            _ => None,
        }
    }
}

/// The agents and the number of games that a line chooses.
pub fn agents_from_line(user_input: &str) -> (chosen: Option<(AgentType, AgentType, u32)>)
    ensures
        chosen == agents_worded(words_of(user_input@)),
{
    let words = split_words(user_input);
    if words.len() < 2 {
        return None;
    }
    let first_id = match parse_number(words[0].as_str(), u32::MAX) {
        Some(number) => number,
        None => {
            return None;
        },
    };
    let second_id = match parse_number(words[1].as_str(), u32::MAX) {
        Some(number) => number,
        None => {
            return None;
        },
    };
    if words.len() < 3 {
        return agents_from_ids(first_id, second_id, None);
    }
    match parse_number(words[2].as_str(), u32::MAX) {
        Some(count) => agents_from_ids(first_id, second_id, Some(count)),
        None => None,
    }
}

/// Every one of the first `n` words is a small number.
pub open spec fn all_small_numbers(words: Seq<Seq<char>>, n: int) -> bool {
    forall|k: int| 0 <= k < n ==> small_number_of(#[trigger] words[k]) is Some
}

/// The move that words name: row and column are the first two, and every
/// word is a small number. No move where there are fewer than two words, or
/// where one of them is no small number.
pub open spec fn move_worded(words: Seq<Seq<char>>) -> Option<(u8, u8)> {
    if words.len() >= 2 && all_small_numbers(words, words.len() as int) {
        Some((small_number_of(words[0])->0, small_number_of(words[1])->0))
    } else {
        None
    }
}

/// The move that numbers name: row and column are the first two.
pub fn move_from_numbers(numbers: &Vec<u8>) -> (action: Option<(u8, u8)>)
    ensures
        action == (if numbers@.len() >= 2 {
            Some((numbers@[0], numbers@[1]))
        } else {
            None
        }),
{
    if numbers.len() >= 2 {
        Some((numbers[0], numbers[1]))
    } else {
        None
    }
}

/// The move that a line names.
pub fn move_from_line(user_input: &str) -> (action: Option<(u8, u8)>)
    ensures
        action == move_worded(words_of(user_input@)),
{
    let words = split_words(user_input);
    let mut numbers: Vec<u8> = Vec::new();
    let mut at: usize = 0;
    while at < words.len()
        invariant
            at <= words@.len(),
            words@.len() == words_of(user_input@).len(),
            forall|k: int|
                0 <= k < words@.len() ==> (#[trigger] words@[k])@ == words_of(user_input@)[k],
            numbers@.len() == at,
            forall|k: int|
                0 <= k < at ==> small_number_of(#[trigger] words_of(user_input@)[k]) == Some(
                    numbers@[k],
                ),
        decreases words@.len() - at,
    {
        match parse_small_number(words[at].as_str()) {
            Some(number) => numbers.push(number),
            None => {
                return None;
            },
        }
        at += 1;
    }
    move_from_numbers(&numbers)
}

} // verus!
