//! When a request is sent, and whether it is sent again.
use vstd::arithmetic::power2::*;
use vstd::prelude::*;
use vstd::string::*;

use crate::text;

verus! {

/// The shortest time between two requests, in nanoseconds.
pub const MIN_INTERVAL: u128 = 500_000_000;

/// How long to wait before a request, in nanoseconds, if the last one was sent so long
/// ago.
pub open spec fn wait_before(elapsed: nat) -> nat {
    if elapsed < MIN_INTERVAL {
        (MIN_INTERVAL - elapsed) as nat
    } else {
        0
    }
}

/// How long to wait before a request, in nanoseconds, if the last one was sent
/// `elapsed` nanoseconds ago: not at all where that is long enough ago.
pub fn rate_limit(elapsed: u128) -> (wait: u64)
    ensures
        elapsed < MIN_INTERVAL ==> elapsed + wait == MIN_INTERVAL,
        elapsed >= MIN_INTERVAL ==> wait == 0,
        wait == wait_before(elapsed as nat),
{
    if elapsed < MIN_INTERVAL {
        (MIN_INTERVAL - elapsed) as u64
    } else {
        0
    }
}

/// How often a request is sent again at most.
pub const MAX_RETRIES: u32 = 3;

/// The status of an answer that refuses a request for coming too soon.
pub const TOO_MANY_REQUESTS: u16 = 429;

/// What came of a request.
#[derive(Clone, Copy, Debug, PartialEq, Eq, Structural)]
pub enum Reply {
    /// An answer with this status.
    Answered(u16),
    /// No answer.
    Failed,
}

/// What to do after a request.
#[derive(Clone, Copy, Debug, PartialEq, Eq, Structural)]
pub enum Step {
    /// Take the answer.
    Accept,
    /// Send the request again after so many milliseconds.
    RetryAfter(u64),
    /// Give up: too many requests were refused.
    GiveUpRefused,
    /// Give up: the request failed.
    GiveUpFailed,
}

/// The number of times that a request was sent again.
pub struct Retries {
    count: u32,
}

/// Two to the power `n`.
pub open spec fn two_to(n: nat) -> nat
    decreases n,
{
    if n == 0 {
        1
    } else {
        2 * two_to((n - 1) as nat)
    }
}

fn power_of_two(n: u32) -> (power: u64)
    requires
        n <= MAX_RETRIES,
    ensures
        power == two_to(n as nat),
        power <= 8,
{
    let mut power: u64 = 1;
    proof {
        reveal_with_fuel(two_to, 4);
    }
    for i in 0..n
        invariant
            n <= MAX_RETRIES,
            power == two_to(i as nat),
            i == 0 ==> power == 1,
            i == 1 ==> power == 2,
            i == 2 ==> power == 4,
            i == 3 ==> power == 8,
    {
        power = 2 * power;
    }
    power
}

/// What to do after a request that had been sent again `count` times before.
pub open spec fn step_after(count: nat, reply: Reply) -> Step {
    match reply {
        Reply::Answered(status) => if status != TOO_MANY_REQUESTS {
            Step::Accept
        } else if count + 1 >= MAX_RETRIES {
            Step::GiveUpRefused
        } else {
            Step::RetryAfter((1000 * two_to(count + 1)) as u64)
        },
        Reply::Failed => if count >= MAX_RETRIES {
            Step::GiveUpFailed
        } else {
            Step::RetryAfter((500 * two_to(count)) as u64)
        },
    }
}

impl View for Retries {
    type V = nat;

    closed spec fn view(&self) -> nat {
        self.count as nat
    }
}

impl Retries {
    /// A request that has not been sent yet.
    pub fn new() -> (retries: Self)
        ensures
            retries@ == 0,
    {
        Retries { count: 0 }
    }

    /// What to do after the request.
    pub fn step(&mut self, reply: Reply) -> (step: Step)
        requires
            old(self)@ <= MAX_RETRIES,
        ensures
            step == step_after(old(self)@, reply),
            step is RetryAfter ==> final(self)@ == old(self)@ + 1,
            step !is RetryAfter ==> final(self)@ == old(self)@,
            final(self)@ <= MAX_RETRIES,
    {
        match reply {
            Reply::Answered(status) => {
                if status != TOO_MANY_REQUESTS {
                    return Step::Accept;
                }
                if self.count + 1 >= MAX_RETRIES {
                    return Step::GiveUpRefused;
                }
                self.count = self.count + 1;
                Step::RetryAfter(1000 * power_of_two(self.count))
            },
            Reply::Failed => {
                if self.count >= MAX_RETRIES {
                    return Step::GiveUpFailed;
                }
                let milliseconds = 500 * power_of_two(self.count);
                self.count = self.count + 1;
                Step::RetryAfter(milliseconds)
            },
        }
    }
}

/// What is told of a request that was refused too often.
pub open spec fn refused_text(url: Seq<char>) -> Seq<char> {
    "Too many requests after "@ + text::decimal(MAX_RETRIES as int) + " retries for URL: "@ + url
}

/// What is told of a request for `url` that was refused too often.
pub fn refused_message(url: &str) -> (message: String)
    ensures
        message@ == refused_text(url@),
{
    "Too many requests after ".to_owned().concat(
        text::write_count(MAX_RETRIES as u64).as_str(),
    ).concat(" retries for URL: ").concat(url)
}

/// Whether a request is to be sent again after each of the given replies, the first
/// of which came when it was first sent.
pub open spec fn still_trying(replies: Seq<Reply>) -> bool
    decreases replies.len(),
{
    replies.len() == 0 || (still_trying(replies.drop_last()) && step_after(
        (replies.len() - 1) as nat,
        replies.last(),
    ) is RetryAfter)
}

/// A request is sent again at most three times: after one reply more than that it
/// has been answered or given up.
pub proof fn law_tries_are_bounded(replies: Seq<Reply>)
    requires
        still_trying(replies),
    ensures
        replies.len() <= MAX_RETRIES,
    decreases replies.len(),
{
    if replies.len() > 0 {
        law_tries_are_bounded(replies.drop_last());
    }
}

/// An answer is taken, however often the request was sent, unless it refuses the
/// request for coming too soon.
pub proof fn law_answers_are_taken(count: nat, status: u16)
    ensures
        step_after(count, Reply::Answered(status)) is Accept <==> status != TOO_MANY_REQUESTS,
{
}

/// An answer is taken unless its status is 429. A refused request is sent again twice,
/// after two seconds and after four, a failed one three times, after half a second, one
/// and two: the wait is a second or half a second, doubled once for each time before. Then
/// it is given up.
pub proof fn law_steps(count: nat, status: u16)
    ensures
        status != 429 ==> step_after(count, Reply::Answered(status)) == Step::Accept,
        step_after(count, Reply::Answered(429)) == if count < 2 {
            Step::RetryAfter((1000 * pow2(count + 1)) as u64)
        } else {
            Step::GiveUpRefused
        },
        step_after(count, Reply::Failed) == if count < 3 {
            Step::RetryAfter((500 * pow2(count)) as u64)
        } else {
            Step::GiveUpFailed
        },
{
    reveal_with_fuel(two_to, 4);
    lemma2_to64();
    assert(two_to(0) == pow2(0) && two_to(1) == pow2(1) && two_to(2) == pow2(2));
}

/// Two requests are at least half a second apart, and none waits longer than it takes
/// for that.
pub proof fn law_requests_are_apart(elapsed: nat)
    ensures
        elapsed + wait_before(elapsed) >= 500_000_000,
        wait_before(elapsed) > 0 ==> elapsed + wait_before(elapsed) == 500_000_000,
{
}

/// A refused request is told of with the number of times that it was sent and its URL.
pub proof fn law_refused_text(url: Seq<char>)
    ensures
        refused_text(url) == "Too many requests after 3 retries for URL: "@ + url,
{
    reveal_strlit("Too many requests after ");
    reveal_strlit(" retries for URL: ");
    reveal_strlit("Too many requests after 3 retries for URL: ");
    assert(refused_text(url) =~= "Too many requests after 3 retries for URL: "@ + url);
}

/// The more often a request was sent, the longer is the wait before it is sent
/// again: it doubles from one time to the next, after failures and after refusals.
pub proof fn law_waits_grow(m: nat, n: nat, reply: Reply)
    requires
        m < n,
        step_after(m, reply) is RetryAfter,
        step_after(n, reply) is RetryAfter,
    ensures
        step_after(m, reply)->RetryAfter_0 < step_after(n, reply)->RetryAfter_0,
        n == m + 1 ==> step_after(n, reply)->RetryAfter_0 == 2 * step_after(
            m,
            reply,
        )->RetryAfter_0,
{
    reveal_with_fuel(two_to, 4);
}

} // verus!
