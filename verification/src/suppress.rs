//! Self-write suppression state.
//!
//! Writing an entry back to the OS clipboard would otherwise be re-observed
//! as a new external change, causing a duplicate-entry feedback loop. Two
//! mechanisms exist: a short time window for cheap-to-redetect text writes,
//! and a one-shot exact fingerprint match for image writes. The clock is
//! injected (milliseconds) so the engine stays deterministic and testable.

use vstd::prelude::*;

verus! {

/// Mathematical model of the suppression state: the two independent fields.
pub ghost struct SuppressionModel {
    /// Start of the most recent suppression window, if one was ever opened.
    pub ignore_since: Option<u64>,
    /// Armed one-shot fingerprint for the next binary read, if any.
    pub skip_hash: Option<u64>,
}

/// Process-wide suppression state, passed explicitly to the watch loop and to
/// every caller that writes to the clipboard.
pub struct SuppressionState {
    ignore_since: Option<u64>,
    skip_hash: Option<u64>,
}

impl View for SuppressionState {
    type V = SuppressionModel;

    closed spec fn view(&self) -> SuppressionModel {
        SuppressionModel { ignore_since: self.ignore_since, skip_hash: self.skip_hash }
    }
}

/// Milliseconds elapsed from `since` to `now`; zero if the clock went backwards.
pub open spec fn elapsed_ms(since: u64, now: u64) -> u64 {
    if now >= since {
        (now - since) as u64
    } else {
        0
    }
}

/// State after recording `now` as the start of a suppression window.
pub open spec fn mark_ignore_spec(m: SuppressionModel, now: u64) -> SuppressionModel {
    SuppressionModel { ignore_since: Some(now), skip_hash: m.skip_hash }
}

/// True iff a suppression window is active and unexpired at `now`.
pub open spec fn should_ignore_spec(m: SuppressionModel, now: u64, threshold: u64) -> bool {
    match m.ignore_since {
        Some(since) => elapsed_ms(since, now) < threshold,
        None => false,
    }
}

/// State after arming the one-shot fingerprint suppression.
pub open spec fn arm_skip_spec(m: SuppressionModel, hash: u64) -> SuppressionModel {
    SuppressionModel { ignore_since: m.ignore_since, skip_hash: Some(hash) }
}

/// State after consuming the one-shot fingerprint suppression.
pub open spec fn take_skip_spec(m: SuppressionModel) -> SuppressionModel {
    SuppressionModel { ignore_since: m.ignore_since, skip_hash: None }
}

impl SuppressionState {
    /// Fresh state: no window open, nothing armed.
    pub fn new() -> (s: Self)
        ensures
            s@ == (SuppressionModel { ignore_since: None, skip_hash: None }),
    {
        SuppressionState { ignore_since: None, skip_hash: None }
    }

    /// Records `now_ms` as the start of a short suppression window.
    pub fn set_ignore_flag(&mut self, now_ms: u64)
        ensures
            final(self)@ == mark_ignore_spec(old(self)@, now_ms),
    {
        self.ignore_since = Some(now_ms);
    }

    /// True iff a suppression window is active and unexpired. Does not
    /// consume the window: idempotent until expiry.
    pub fn should_ignore_recently(&self, now_ms: u64, threshold_ms: u64) -> (r: bool)
        ensures
            r == should_ignore_spec(self@, now_ms, threshold_ms),
    {
        match self.ignore_since {
            Some(since) => {
                let elapsed: u64 = if now_ms >= since {
                    now_ms - since
                } else {
                    0
                };
                elapsed < threshold_ms
            },
            None => false,
        }
    }

    /// Arms a one-shot exact-match suppression for the next binary read.
    pub fn set_skip_image_hash(&mut self, hash: u64)
        ensures
            final(self)@ == arm_skip_spec(old(self)@, hash),
    {
        self.skip_hash = Some(hash);
    }

    /// Consumes and clears the armed fingerprint; subsequent calls return
    /// `None` until re-armed.
    pub fn take_skip_image_hash(&mut self) -> (r: Option<u64>)
        ensures
            r == old(self)@.skip_hash,
            final(self)@ == take_skip_spec(old(self)@),
    {
        let r = self.skip_hash;
        self.skip_hash = None;
        r
    }
}

/// One-shot law: arming a fingerprint and taking it returns exactly that
/// fingerprint; an immediate second take returns nothing.
pub proof fn lemma_skip_once_one_shot(m: SuppressionModel, hash: u64)
    ensures
        arm_skip_spec(m, hash).skip_hash == Some(hash),
        take_skip_spec(arm_skip_spec(m, hash)).skip_hash == Option::<u64>::None,
{
}

/// Window law: after a window opens at `since`, a query at `now` reports an
/// active window exactly when the elapsed time is below the threshold.
pub proof fn lemma_ignore_window(m: SuppressionModel, since: u64, now: u64, threshold: u64)
    ensures
        should_ignore_spec(mark_ignore_spec(m, since), now, threshold) == (elapsed_ms(since, now)
            < threshold),
{
}

} // verus!
