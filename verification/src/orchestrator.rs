//! The life of one search: from the request, through the check of the root
//! and the run of the engine against its deadline, to the one outcome that
//! the caller is given.

use crate::engine::{cancel_seen_in, matches_of, perform_parallel_search, visit_views, Visit};
use crate::error::SearchError;
use crate::request::request_of;
use crate::result::{views, SearchResult};
use crate::sorting::is_stable_sort_of;
use crate::token::CancellationToken;
use vstd::pervasive::unreached;
use vstd::prelude::*;

verus! {

/// How many seconds the engine is given before the search is reported as
/// timed out.
pub const SEARCH_TIMEOUT_SECS: u64 = 30;

/// Where a search stands.
#[derive(Clone, Copy, Debug, PartialEq, Eq, Structural)]
pub enum SearchPhase {
    Idle,
    Validating,
    Running,
    Completed,
    TimedOut,
    Cancelled,
    Failed,
}

/// What happened outside the orchestrator.
#[derive(Debug)]
pub enum SearchEvent {
    /// A caller asked for a search.
    Requested,
    /// The root path exists.
    RootFound,
    /// The root path does not exist.
    RootMissing,
    /// The engine went through the walk.
    TraversalFinished,
    /// A worker saw the token cancelled, and the engine stopped.
    CancelObserved,
    /// The deadline passed before the engine finished.
    DeadlineElapsed,
    /// The results could not be reached; the text says what failed.
    SynchronizationFailed(String),
}

/// What the caller of the orchestrator is to do next.
#[derive(Debug)]
pub enum SearchAction {
    /// Find out whether the root path exists.
    CheckRoot,
    /// Put a fresh token in place and run the engine against the deadline.
    StartTraversal,
    /// Hand the sorted results to the caller.
    ReturnResults,
    /// Hand this error to the caller, and no results.
    ReturnError(SearchError),
    /// The event means nothing in this phase.
    Nothing,
}

/// A phase and what is to be done on entering it.
#[derive(Debug)]
pub struct Step {
    pub phase: SearchPhase,
    pub action: SearchAction,
}

impl SearchPhase {
    /// The search is over: one of the four outcomes is reached.
    pub open spec fn is_terminal(self) -> bool {
        self == SearchPhase::Completed || self == SearchPhase::TimedOut || self
            == SearchPhase::Cancelled || self == SearchPhase::Failed
    }

    /// Whether the search is over.
    pub fn terminal(self) -> (r: bool)
        ensures
            r == self.is_terminal(),
    {
        match self {
            SearchPhase::Completed
            | SearchPhase::TimedOut
            | SearchPhase::Cancelled
            | SearchPhase::Failed => true,
            _ => false,
        }
    }

    /// How many steps lie at most between this phase and an outcome.
    pub open spec fn steps_left(self) -> nat {
        match self {
            SearchPhase::Idle => 3,
            SearchPhase::Validating => 2,
            SearchPhase::Running => 1,
            _ => 0,
        }
    }
}

/// The transitions of a search. An event that a phase does not wait for
/// leaves the phase as it is and asks for nothing.
pub open spec fn next_step(phase: SearchPhase, event: SearchEvent) -> Step {
    match (phase, event) {
        (SearchPhase::Idle, SearchEvent::Requested) => Step {
            phase: SearchPhase::Validating,
            action: SearchAction::CheckRoot,
        },
        (SearchPhase::Validating, SearchEvent::RootMissing) => Step {
            phase: SearchPhase::Failed,
            action: SearchAction::ReturnError(SearchError::PathNotFound),
        },
        (SearchPhase::Validating, SearchEvent::RootFound) => Step {
            phase: SearchPhase::Running,
            action: SearchAction::StartTraversal,
        },
        (SearchPhase::Running, SearchEvent::TraversalFinished) => Step {
            phase: SearchPhase::Completed,
            action: SearchAction::ReturnResults,
        },
        (SearchPhase::Running, SearchEvent::CancelObserved) => Step {
            phase: SearchPhase::Cancelled,
            action: SearchAction::ReturnError(SearchError::Cancelled),
        },
        (SearchPhase::Running, SearchEvent::DeadlineElapsed) => Step {
            phase: SearchPhase::TimedOut,
            action: SearchAction::ReturnError(SearchError::TimedOut),
        },
        (SearchPhase::Running, SearchEvent::SynchronizationFailed(detail)) => Step {
            phase: SearchPhase::Failed,
            action: SearchAction::ReturnError(SearchError::Synchronization(detail)),
        },
        _ => Step { phase, action: SearchAction::Nothing },
    }
}

/// Takes the search one step on: the phase that `event` leads to from
/// `phase`, and what the caller is to do there.
pub fn advance(phase: SearchPhase, event: SearchEvent) -> (r: Step)
    ensures
        r == next_step(phase, event),
{
    match (phase, event) {
        (SearchPhase::Idle, SearchEvent::Requested) => Step {
            phase: SearchPhase::Validating,
            action: SearchAction::CheckRoot,
        },
        (SearchPhase::Validating, SearchEvent::RootMissing) => Step {
            phase: SearchPhase::Failed,
            action: SearchAction::ReturnError(SearchError::PathNotFound),
        },
        (SearchPhase::Validating, SearchEvent::RootFound) => Step {
            phase: SearchPhase::Running,
            action: SearchAction::StartTraversal,
        },
        (SearchPhase::Running, SearchEvent::TraversalFinished) => Step {
            phase: SearchPhase::Completed,
            action: SearchAction::ReturnResults,
        },
        (SearchPhase::Running, SearchEvent::CancelObserved) => Step {
            phase: SearchPhase::Cancelled,
            action: SearchAction::ReturnError(SearchError::Cancelled),
        },
        (SearchPhase::Running, SearchEvent::DeadlineElapsed) => Step {
            phase: SearchPhase::TimedOut,
            action: SearchAction::ReturnError(SearchError::TimedOut),
        },
        (SearchPhase::Running, SearchEvent::SynchronizationFailed(detail)) => Step {
            phase: SearchPhase::Failed,
            action: SearchAction::ReturnError(SearchError::Synchronization(detail)),
        },
        (phase, _) => Step { phase, action: SearchAction::Nothing },
    }
}

/// Once a search has reached its outcome nothing moves it: every event
/// leaves the phase as it is and asks for nothing.
pub proof fn lemma_outcome_is_final(phase: SearchPhase, event: SearchEvent)
    requires
        phase.is_terminal(),
    ensures
        next_step(phase, event) == (Step { phase, action: SearchAction::Nothing }),
{
}

/// Every step that changes the phase brings the search nearer to its
/// outcome, and a step that asks the caller to report reaches it.
pub proof fn lemma_steps_lead_to_an_outcome(phase: SearchPhase, event: SearchEvent)
    ensures
        next_step(phase, event).phase != phase ==> next_step(phase, event).phase.steps_left()
            < phase.steps_left(),
        (next_step(phase, event).action is ReturnResults || next_step(phase, event).action
            is ReturnError) ==> next_step(phase, event).phase.is_terminal(),
{
}

/// The engine is started only when the root was checked and found: a
/// search whose root is missing examines no entry.
pub proof fn lemma_traversal_needs_a_root(phase: SearchPhase, event: SearchEvent)
    ensures
        next_step(phase, event).action is StartTraversal <==> phase == SearchPhase::Validating
            && event is RootFound,
        phase == SearchPhase::Validating && event is RootMissing ==> next_step(phase, event) == (
        Step {
            phase: SearchPhase::Failed,
            action: SearchAction::ReturnError(SearchError::PathNotFound),
        }),
{
}

/// Results are handed out only by a search that ran and whose engine
/// finished: a search that was cancelled, timed out or failed hands out an
/// error and nothing else.
pub proof fn lemma_results_or_error(phase: SearchPhase, event: SearchEvent)
    ensures
        next_step(phase, event).action is ReturnResults <==> phase == SearchPhase::Running
            && event is TraversalFinished,
        next_step(phase, event).action is ReturnResults <==> next_step(phase, event).phase
            == SearchPhase::Completed && phase != SearchPhase::Completed,
        phase == SearchPhase::Running && event is CancelObserved ==> next_step(phase, event)
            == (Step {
            phase: SearchPhase::Cancelled,
            action: SearchAction::ReturnError(SearchError::Cancelled),
        }),
        phase == SearchPhase::Running && event is DeadlineElapsed ==> next_step(phase, event)
            == (Step {
            phase: SearchPhase::TimedOut,
            action: SearchAction::ReturnError(SearchError::TimedOut),
        }),
{
}

/// How the running phase of a search ended, as its caller saw it.
#[derive(Debug)]
pub enum Race {
    /// The engine went through these visits before the deadline.
    Walked(Vec<Visit>),
    /// The deadline passed first; whatever the engine had found is dropped.
    DeadlineElapsed,
    /// The results could not be reached; the text says what failed.
    SynchronizationFailed(String),
}

/// The error that a search ends in, if it ends in one.
pub open spec fn failure_of(root_exists: bool, race: Race) -> Option<SearchError> {
    if !root_exists {
        Some(SearchError::PathNotFound)
    } else {
        match race {
            Race::Walked(visits) => if cancel_seen_in(visit_views(visits@)) {
                Some(SearchError::Cancelled)
            } else {
                None
            },
            Race::DeadlineElapsed => Some(SearchError::TimedOut),
            Race::SynchronizationFailed(detail) => Some(SearchError::Synchronization(detail)),
        }
    }
}

/// Runs one search over what the world outside answered: whether the root
/// exists, and how the race between the engine and the deadline ended. The
/// caller gets the results, newest first, or the text of one error, never
/// both. A search whose root exists puts a fresh token in place before the
/// engine runs; one whose root is missing touches nothing.
pub fn search(
    search_term: &str,
    root_exists: bool,
    race: &Race,
    level: &str,
    target: &str,
    file_extensions: &str,
    token: &mut CancellationToken,
) -> (r: Result<Vec<SearchResult>, String>)
    ensures
        final(token)@ == if root_exists {
            old(token)@.renewed()
        } else {
            old(token)@
        },
        match r {
            Ok(found) => {
                &&& failure_of(root_exists, *race) is None
                &&& race matches Race::Walked(visits)
                &&& is_stable_sort_of(
                    views(found@),
                    matches_of(
                        request_of(search_term@, level@, target@, file_extensions@),
                        visit_views(visits@),
                    ),
                )
            },
            Err(text) => failure_of(root_exists, *race) matches Some(why) && text@
                == why.message_text(),
        },
{
    let mut phase = SearchPhase::Idle;
    let mut event = SearchEvent::Requested;
    let mut found: Vec<SearchResult> = Vec::new();
    loop
        invariant
            match phase {
                SearchPhase::Idle => event is Requested && *token == *old(token),
                SearchPhase::Validating => *token == *old(token) && if root_exists {
                    event is RootFound
                } else {
                    event is RootMissing
                },
                SearchPhase::Running => {
                    &&& root_exists
                    &&& token@ == old(token)@.renewed()
                    &&& match event {
                        SearchEvent::TraversalFinished => {
                            &&& failure_of(root_exists, *race) is None
                            &&& race matches Race::Walked(visits)
                            &&& is_stable_sort_of(
                                views(found@),
                                matches_of(
                                    request_of(search_term@, level@, target@, file_extensions@),
                                    visit_views(visits@),
                                ),
                            )
                        },
                        SearchEvent::CancelObserved => failure_of(root_exists, *race) == Some(
                            SearchError::Cancelled,
                        ),
                        SearchEvent::DeadlineElapsed => failure_of(root_exists, *race) == Some(
                            SearchError::TimedOut,
                        ),
                        SearchEvent::SynchronizationFailed(detail) => failure_of(
                            root_exists,
                            *race,
                        ) == Some(SearchError::Synchronization(detail)),
                        _ => false,
                    }
                },
                _ => false,
            },
        decreases phase.steps_left(),
    {
        let step = advance(phase, event);
        phase = step.phase;
        match step.action {
            SearchAction::CheckRoot => {
                event = if root_exists {
                    SearchEvent::RootFound
                } else {
                    SearchEvent::RootMissing
                };
            },
            SearchAction::StartTraversal => {
                token.renew();
                event = match race {
                    Race::Walked(visits) => match perform_parallel_search(
                        visits,
                        search_term,
                        level,
                        target,
                        file_extensions,
                    ) {
                        Ok(sorted) => {
                            found = sorted;
                            SearchEvent::TraversalFinished
                        },
                        Err(_) => SearchEvent::CancelObserved,
                    },
                    Race::DeadlineElapsed => SearchEvent::DeadlineElapsed,
                    Race::SynchronizationFailed(detail) => SearchEvent::SynchronizationFailed(
                        detail.clone(),
                    ),
                };
            },
            SearchAction::ReturnResults => {
                return Ok(found);
            },
            SearchAction::ReturnError(why) => {
                return Err(why.message());
            },
            SearchAction::Nothing => {
                return unreached();
            },
        }
    }
}

} // verus!
