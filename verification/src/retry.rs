//! The anti-bot retry policy: a call gets up to a fixed number of
//! attempts; an attempt is retried, under a freshly drawn User-Agent,
//! when the HTTP status is 412, when the decoded body carries status
//! code -412, or when the transport failed outright. Retries are
//! immediate by design: the failure signal is fingerprinting, not load.

use vstd::prelude::*;
use vstd::string::StringExecFns;

verus! {

/// How many attempts one call may consume.
pub const RETRY_CAP: u64 = 3;

/// What one attempt came back with.
#[derive(Debug, Clone, PartialEq)]
pub enum AttemptOutcome {
    /// A response arrived; `body_code` is the decoded status-code field,
    /// read as 0 where the body was not decodable.
    Response { http_status: u16, body_code: i64 },
    /// The transport failed outright (DNS, timeout, reset).
    Failure { message: String },
}

/// What the policy tells the driver after an attempt.
#[derive(Debug, Clone, Copy, PartialEq, Eq, Structural)]
pub enum RetryDecision {
    /// The response stands as the call's result.
    Accept,
    /// Make another attempt, under a fresh User-Agent.
    RetryNext,
    /// The cap is spent; surface the last failure.
    GiveUp,
}

/// Whether an outcome consumes a retry: interception or plain failure.
pub open spec fn spec_retriable(o: AttemptOutcome) -> bool {
    match o {
        AttemptOutcome::Response { http_status, body_code } => http_status == 412 || body_code
            == -412,
        AttemptOutcome::Failure { .. } => true,
    }
}

/// The policy's answer after the attempt numbered `attempts` (counted
/// from zero) came back with `o`.
pub open spec fn spec_retry_decision(attempts: nat, o: AttemptOutcome) -> RetryDecision {
    if !spec_retriable(o) {
        RetryDecision::Accept
    } else if attempts + 1 < RETRY_CAP {
        RetryDecision::RetryNext
    } else {
        RetryDecision::GiveUp
    }
}

/// A compliant driver's run over the outcomes successive attempts would
/// see: the number of attempts made and the final decision.
pub open spec fn spec_retry_run(attempts: nat, outcomes: Seq<AttemptOutcome>) -> (nat, RetryDecision)
    decreases outcomes.len(),
{
    if outcomes.len() == 0 {
        (attempts, RetryDecision::GiveUp)
    } else {
        let d = spec_retry_decision(attempts, outcomes[0]);
        if d == RetryDecision::RetryNext {
            spec_retry_run(attempts + 1, outcomes.drop_first())
        } else {
            (attempts + 1, d)
        }
    }
}

/// The attempt counter of one call.
#[derive(Debug, Clone, Copy, PartialEq, Eq, Structural)]
pub struct RetryState {
    pub attempts: u64,
}

impl RetryState {
    /// A fresh call: no attempt made yet.
    pub fn new() -> (r: Self)
        ensures
            r.attempts == 0,
    {
        RetryState { attempts: 0 }
    }

    /// Records the outcome of one attempt and answers what to do next.
    pub fn record(&mut self, outcome: &AttemptOutcome) -> (r: RetryDecision)
        requires
            old(self).attempts < RETRY_CAP,
        ensures
            final(self).attempts == old(self).attempts + 1,
            r == spec_retry_decision(old(self).attempts as nat, *outcome),
    {
        let retriable = match outcome {
            AttemptOutcome::Response { http_status, body_code } => *http_status == 412
                || *body_code == -412,
            AttemptOutcome::Failure { .. } => true,
        };
        self.attempts = self.attempts + 1;
        if !retriable {
            RetryDecision::Accept
        } else if self.attempts < RETRY_CAP {
            RetryDecision::RetryNext
        } else {
            RetryDecision::GiveUp
        }
    }
}

/// Against a transport whose every answer is intercepted or failed, a
/// compliant driver makes exactly `RETRY_CAP` attempts and then gives
/// up: never one more, and never a silent success.
pub proof fn lemma_retry_cap(outcomes: Seq<AttemptOutcome>)
    requires
        outcomes.len() >= RETRY_CAP,
        forall|i: int| 0 <= i < outcomes.len() ==> spec_retriable(#[trigger] outcomes[i]),
    ensures
        spec_retry_run(0, outcomes) == ((RETRY_CAP as nat, RetryDecision::GiveUp)),
{
    let o1 = outcomes.drop_first();
    let o2 = o1.drop_first();
    assert(o1[0] == outcomes[1]);
    assert(o2[0] == outcomes[2]);
    assert(spec_retry_decision(0, outcomes[0]) == RetryDecision::RetryNext);
    assert(spec_retry_decision(1, o1[0]) == RetryDecision::RetryNext);
    assert(spec_retry_decision(2, o2[0]) == RetryDecision::GiveUp);
    assert(spec_retry_run(0, outcomes) == spec_retry_run(1, o1));
    assert(spec_retry_run(1, o1) == spec_retry_run(2, o2));
    assert(spec_retry_run(2, o2) == ((3nat, RetryDecision::GiveUp)));
}

/// An attempt the anti-bot layer lets through is accepted at once,
/// whichever attempt it is.
pub proof fn lemma_retry_accepts_clean_response(attempts: nat, o: AttemptOutcome)
    requires
        !spec_retriable(o),
    ensures
        spec_retry_decision(attempts, o) == RetryDecision::Accept,
{
}

// ---------------------------------------------------------------------
// The rotating User-Agent pool the retries draw from.
// ---------------------------------------------------------------------

/// How many User-Agent strings the pool holds.
pub const USER_AGENT_COUNT: usize = 6;

/// The fixed pool, by index.
pub open spec fn spec_user_agent(i: int) -> Seq<char> {
    if i == 0 {
        "Mozilla/5.0 (Windows NT 10.0; Win64; x64) AppleWebKit/537.36 (KHTML, like Gecko) Chrome/118.0.0.0 Safari/537.36"@
    } else if i == 1 {
        "Mozilla/5.0 (Macintosh; Intel Mac OS X 13_4_1) AppleWebKit/605.1.15 (KHTML, like Gecko) Version/16.5 Safari/605.1.15"@
    } else if i == 2 {
        "Mozilla/5.0 (X11; Linux x86_64) AppleWebKit/537.36 (KHTML, like Gecko) Chrome/117.0.0.0 Safari/537.36"@
    } else if i == 3 {
        "Mozilla/5.0 (iPhone; CPU iPhone OS 16_6 like Mac OS X) AppleWebKit/605.1.15 (KHTML, like Gecko) Mobile/15E148"@
    } else if i == 4 {
        "Mozilla/5.0 (Linux; Android 12; Pixel 6) AppleWebKit/537.36 (KHTML, like Gecko) Chrome/118.0.0.0 Mobile Safari/537.36"@
    } else {
        "Mozilla/5.0 BiliTV/1110500 (Linux; Android 11) bilibili-tv;free"@
    }
}

/// Hands out the pool entry at an index.
pub fn user_agent_at(i: usize) -> (r: String)
    requires
        i < USER_AGENT_COUNT,
    ensures
        r@ == spec_user_agent(i as int),
{
    if i == 0 {
        String::from_str(
            "Mozilla/5.0 (Windows NT 10.0; Win64; x64) AppleWebKit/537.36 (KHTML, like Gecko) Chrome/118.0.0.0 Safari/537.36",
        )
    } else if i == 1 {
        String::from_str(
            "Mozilla/5.0 (Macintosh; Intel Mac OS X 13_4_1) AppleWebKit/605.1.15 (KHTML, like Gecko) Version/16.5 Safari/605.1.15",
        )
    } else if i == 2 {
        String::from_str(
            "Mozilla/5.0 (X11; Linux x86_64) AppleWebKit/537.36 (KHTML, like Gecko) Chrome/117.0.0.0 Safari/537.36",
        )
    } else if i == 3 {
        String::from_str(
            "Mozilla/5.0 (iPhone; CPU iPhone OS 16_6 like Mac OS X) AppleWebKit/605.1.15 (KHTML, like Gecko) Mobile/15E148",
        )
    } else if i == 4 {
        String::from_str(
            "Mozilla/5.0 (Linux; Android 12; Pixel 6) AppleWebKit/537.36 (KHTML, like Gecko) Chrome/118.0.0.0 Mobile Safari/537.36",
        )
    } else {
        String::from_str("Mozilla/5.0 BiliTV/1110500 (Linux; Android 11) bilibili-tv;free")
    }
}

/// Relies on `rand::Rng::gen_range` over `rand::thread_rng`: the drawn
/// value lies inside the given nonempty range.
#[verifier::external_body]
fn random_below(n: usize) -> (r: usize)
    requires
        n > 0,
    ensures
        r < n,
{
    rand::Rng::gen_range(&mut rand::thread_rng(), 0..n)
}

/// Draws a User-Agent from the pool at random.
pub fn random_user_agent() -> (r: String)
    ensures
        exists|i: int| 0 <= i < USER_AGENT_COUNT && r@ == spec_user_agent(i),
{
    let i = random_below(USER_AGENT_COUNT);
    let ua = user_agent_at(i);
    proof {
        assert(ua@ == spec_user_agent(i as int));
    }
    ua
}

} // verus!
