//! The signal by which a running search is told to stop.

use vstd::prelude::*;
use vstd::string::StringExecFns;

verus! {

/// A [`CancellationToken`] as plain mathematical values.
pub struct TokenView {
    /// Which search the token belongs to.
    pub generation: u64,
    /// Whether that search was told to stop.
    pub cancelled: bool,
}

impl TokenView {
    /// The token that a new search puts in place of this one: of the next
    /// generation, and not cancelled. After the last generation the count
    /// starts again at zero.
    pub open spec fn renewed(self) -> TokenView {
        TokenView {
            generation: if self.generation == u64::MAX {
                0
            } else {
                (self.generation + 1) as u64
            },
            cancelled: false,
        }
    }

    /// This token after a request to cancel.
    pub open spec fn cancelled(self) -> TokenView {
        TokenView { generation: self.generation, cancelled: true }
    }
}

/// The one signal that the running search and a request to cancel share.
/// Each search starts by putting a token of a new generation in its place,
/// so that a request made for an earlier search cannot stop a later one.
#[derive(Clone, Copy, Debug)]
pub struct CancellationToken {
    generation: u64,
    cancelled: bool,
}

impl View for CancellationToken {
    type V = TokenView;

    closed spec fn view(&self) -> TokenView {
        TokenView { generation: self.generation, cancelled: self.cancelled }
    }
}

impl CancellationToken {
    /// The token before any search: generation zero, not cancelled.
    pub fn new() -> (r: Self)
        ensures
            r@ == (TokenView { generation: 0, cancelled: false }),
    {
        CancellationToken { generation: 0, cancelled: false }
    }

    /// Puts a fresh token in place of this one, for a search that starts.
    pub fn renew(&mut self)
        ensures
            final(self)@ == old(self)@.renewed(),
    {
        self.generation = self.generation.wrapping_add(1);
        self.cancelled = false;
    }

    /// Tells the search that holds this token to stop.
    pub fn cancel(&mut self)
        ensures
            final(self)@ == old(self)@.cancelled(),
    {
        self.cancelled = true;
    }

    /// Whether the search that holds this token was told to stop.
    pub fn is_cancelled(&self) -> (r: bool)
        ensures
            r == self@.cancelled,
    {
        self.cancelled
    }

    /// Which search this token belongs to.
    pub fn generation(&self) -> (r: u64)
        ensures
            r == self@.generation,
    {
        self.generation
    }
}

impl Default for CancellationToken {
    fn default() -> (r: Self)
        ensures
            r@ == (TokenView { generation: 0, cancelled: false }),
    {
        CancellationToken::new()
    }
}

/// A request to cancel that came before a search started does not reach
/// that search: the token it starts with is not cancelled, whatever was done
/// to the one before.
pub proof fn lemma_stale_cancel_is_lost(token: TokenView)
    ensures
        !token.cancelled().renewed().cancelled,
        !token.renewed().cancelled,
        token.renewed().generation != token.generation,
{
}

/// To cancel twice is to cancel once, and cancelling leaves the generation
/// alone.
pub proof fn lemma_cancel_is_idempotent(token: TokenView)
    ensures
        token.cancelled().cancelled() == token.cancelled(),
        token.cancelled().generation == token.generation,
        token.cancelled().cancelled,
{
}

/// The text that a caller gets when the token cannot be reached.
pub open spec fn cancel_failure_text() -> Seq<char> {
    "Failed to cancel search"@
}

/// Cancels whatever search is running. `state` is the token in force, or
/// `None` where it could not be reached; only then does the call fail.
pub fn cancel_search(state: Option<&mut CancellationToken>) -> (r: Result<(), String>)
    ensures
        match r {
            Ok(_) => state matches Some(token) && final(token)@ == (*token)@.cancelled(),
            Err(text) => state is None && text@ == cancel_failure_text(),
        },
{
    match state {
        Some(token) => {
            token.cancel();
            Ok(())
        },
        None => Err(String::from_str("Failed to cancel search")),
    }
}

} // verus!
