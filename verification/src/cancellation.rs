//! Cooperative cancellation for pooled HTTP requests.

use vstd::prelude::*;

use crate::error::{cancellation, Error};

verus! {

/// What a holder of a token does with it.
pub enum TokenUse {
    Cancel,
    IsCancelled,
    /// A handle is given up.
    Release,
}

/// Whether a token is cancelled after one more use.
pub open spec fn raised_by(raised: bool, use_of: TokenUse) -> bool {
    raised || use_of is Cancel
}

/// Whether a new token is cancelled after uses of it, in the order in which they take effect.
pub open spec fn raised_after(uses: Seq<TokenUse>) -> bool
    decreases uses.len(),
{
    if uses.len() == 0 {
        false
    } else {
        raised_by(raised_after(uses.drop_last()), uses.last())
    }
}

/// What a use tells on a token: a cancellation, whether it took effect; a question, whether the
/// token is cancelled.
pub open spec fn told(raised: bool, use_of: TokenUse) -> bool {
    match use_of {
        TokenUse::Cancel => !raised,
        TokenUse::IsCancelled => raised,
        TokenUse::Release => false,
    }
}

/// A token is cancelled exactly where some use before was a cancellation.
proof fn lemma_raised_after(uses: Seq<TokenUse>)
    ensures
        raised_after(uses) == exists|i: int| 0 <= i < uses.len() && #[trigger] uses[i] is Cancel,
    decreases uses.len(),
{
    if uses.len() > 0 {
        let before = uses.drop_last();
        lemma_raised_after(before);
        if raised_after(before) {
            let i = choose|i: int| 0 <= i < before.len() && #[trigger] before[i] is Cancel;
            assert(uses[i] is Cancel);
        }
        if uses.last() is Cancel {
            assert(uses[uses.len() - 1] is Cancel);
        }
        if exists|i: int| 0 <= i < uses.len() && #[trigger] uses[i] is Cancel {
            let i = choose|i: int| 0 <= i < uses.len() && #[trigger] uses[i] is Cancel;
            if i < before.len() {
                assert(before[i] is Cancel);
            }
        }
    }
}

/// Among all uses of one token, through whichever handles and in whatever order they take effect,
/// the first cancellation alone is told that it took effect. A question is answered no before it
/// and yes for ever after it, and giving a handle up changes neither.
pub proof fn lemma_first_cancellation_wins(uses: Seq<TokenUse>, at: int)
    requires
        0 <= at < uses.len(),
    ensures
        ({
            let raised = raised_after(uses.take(at));
            let earlier = exists|i: int| 0 <= i < at && #[trigger] uses[i] is Cancel;
            &&& uses[at] is Cancel ==> told(raised, uses[at]) == !earlier
            &&& uses[at] is IsCancelled ==> told(raised, uses[at]) == earlier
            &&& uses[at] is Release ==> raised_by(raised, uses[at]) == raised
        }),
{
    let before = uses.take(at);
    lemma_raised_after(before);
    if exists|i: int| 0 <= i < at && #[trigger] uses[i] is Cancel {
        let i = choose|i: int| 0 <= i < at && #[trigger] uses[i] is Cancel;
        assert(before[i] is Cancel);
    }
    if raised_after(before) {
        let i = choose|i: int| 0 <= i < before.len() && #[trigger] before[i] is Cancel;
        assert(uses[i] is Cancel);
    }
}

/// Cancellation signal for one or more HTTP requests.
///
/// Cancellation is sticky and idempotent. A token that has been cancelled remains cancelled and
/// should not be reused for new work.
#[derive(Debug)]
pub struct CancellationToken {
    cancelled: bool,
}

impl CancellationToken {
    /// The token was cancelled.
    pub closed spec fn raised(&self) -> bool {
        self.cancelled
    }

    pub fn new() -> (r: CancellationToken)
        ensures
            !r.raised(),
    {
        CancellationToken { cancelled: false }
    }

    /// Cancel every request currently using this token.
    ///
    /// Returns `true` only for the call that changes the token to cancelled.
    pub fn cancel(&mut self) -> (changed: bool)
        ensures
            final(self).raised() == raised_by(old(self).raised(), TokenUse::Cancel),
            final(self).raised(),
            changed == told(old(self).raised(), TokenUse::Cancel),
            changed == !old(self).raised(),
    {
        let changed = !self.cancelled;
        self.cancelled = true;
        changed
    }

    pub fn is_cancelled(&self) -> (r: bool)
        ensures
            r == told(self.raised(), TokenUse::IsCancelled),
            r == self.raised(),
    {
        self.cancelled
    }

    /// Fail once the token was cancelled.
    pub fn check(&self) -> (r: Result<(), Error>)
        ensures
            match r {
                Ok(_) => !self.raised(),
                Err(e) => self.raised() && e@ == cancellation(),
            },
    {
        if self.cancelled {
            return Err(cancelled_error());
        }
        Ok(())
    }
}

impl Default for CancellationToken {
    fn default() -> (r: CancellationToken)
        ensures
            !r.raised(),
    {
        CancellationToken::new()
    }
}

/// The failure of a cancelled request.
pub fn cancelled_error() -> (r: Error)
    ensures
        r@ == cancellation(),
{
    Error::cancelled()
}

/// Whether a failure reports a cancelled request.
pub fn is_cancelled_error(error: &Error) -> (r: bool)
    ensures
        r == error@.cancelled(),
{
    error.is_cancelled()
}

} // verus!
