//! The interaction loop as an explicit state machine.  Each step function
//! turns one line of input (or one fetched history) into the data to show
//! and the next state; the surrounding binary only reads lines, performs
//! the fetches, and prints.

use vstd::prelude::*;

use crate::chars::spec_trim;
use crate::data::{FlowReading, Match, Station};
use crate::flow::latest_reading;
use crate::numbers::{parse_selection, spec_parse_usize};
use crate::search::{query_key, search, spec_search};

verus! {

/// The states of the interaction loop.
#[derive(Clone, Copy, Debug, PartialEq, Eq, Structural)]
pub enum SessionState {
    /// Waiting for a search query.
    Searching,
    /// A numbered match list has been shown; waiting for a selection.
    Selecting,
    /// A station has been chosen; its flow history is to be fetched and
    /// shown.
    Displaying,
    /// Waiting for the answer to the search-again prompt.
    ContinuePrompt,
    /// The loop has ended.
    Terminated,
}

/// What one selection line leads to.
#[derive(Clone, Copy, Debug, PartialEq, Eq, Structural)]
pub enum SelectionOutcome {
    /// A valid selection: the position of the chosen match in the match
    /// list, counted from zero.
    Chosen(usize),
    /// The line is not a number.
    NotANumber,
    /// The number is zero or larger than the match count.
    OutOfRange,
}

/// One search: filters the station list by the query line and moves to
/// `Selecting` when anything matched, and to the search-again prompt when
/// nothing did.
pub fn search_step(stations: &Vec<Station>, line: &str) -> (r: (Vec<Match>, SessionState))
    ensures
        r.0.deep_view() == spec_search(stations.deep_view(), query_key(line@)),
        r.1 == (if r.0.deep_view().len() == 0 {
            SessionState::ContinuePrompt
        } else {
            SessionState::Selecting
        }),
{
    let ms = search(stations, line);
    if ms.len() == 0 {
        (ms, SessionState::ContinuePrompt)
    } else {
        (ms, SessionState::Selecting)
    }
}

/// One selection attempt against a list of `match_count` matches.  A line
/// that is not a number, or a number outside `1..=match_count`, is rejected
/// and the loop stays in `Selecting`; a valid number moves to `Displaying`
/// with the chosen position.  Nothing but the returned outcome changes:
/// in particular the match list and station list are untouched.
pub fn select_step(match_count: usize, line: &str) -> (r: (SelectionOutcome, SessionState))
    ensures
        match spec_parse_usize(spec_trim(line@)) {
            Some(n) => {
                if 1 <= n <= match_count {
                    r == (SelectionOutcome::Chosen((n - 1) as usize), SessionState::Displaying)
                } else {
                    r == (SelectionOutcome::OutOfRange, SessionState::Selecting)
                }
            },
            None => r == (SelectionOutcome::NotANumber, SessionState::Selecting),
        },
        r.0 matches SelectionOutcome::Chosen(i) ==> i < match_count,
{
    match parse_selection(line) {
        None => (SelectionOutcome::NotANumber, SessionState::Selecting),
        Some(n) => {
            if 1 <= n && n <= match_count {
                (SelectionOutcome::Chosen(n - 1), SessionState::Displaying)
            } else {
                (SelectionOutcome::OutOfRange, SessionState::Selecting)
            }
        },
    }
}

/// One display: the latest reading of the fetched history (its last entry,
/// the history being chronologically ascending), or `None` for an empty
/// history; either way the loop moves to the search-again prompt.
pub fn display_step(history: &Vec<FlowReading>) -> (r: (Option<FlowReading>, SessionState))
    ensures
        r.1 == SessionState::ContinuePrompt,
        history@.len() == 0 <==> r.0 is None,
        history@.len() > 0 ==> (r.0 matches Some(f) && f@ == history.deep_view().last()),
{
    (latest_reading(history), SessionState::ContinuePrompt)
}

/// A trimmed answer line that declines to continue: exactly the letter `n`,
/// in either case.
pub open spec fn is_no_answer(t: Seq<char>) -> bool {
    t.len() == 1 && (t[0] == 'n' || t[0] == 'N')
}

/// The search-again prompt: answering `n` (case-insensitively) terminates
/// the loop, anything else starts a new search.
pub fn continue_step(line: &str) -> (st: SessionState)
    ensures
        st == (if is_no_answer(spec_trim(line@)) {
            SessionState::Terminated
        } else {
            SessionState::Searching
        }),
{
    let t = crate::chars::trimmed_chars(line);
    if t.len() == 1 && (t[0] == 'n' || t[0] == 'N') {
        SessionState::Terminated
    } else {
        SessionState::Searching
    }
}

} // verus!
