use vstd::prelude::*;

verus! {

pub open spec fn pow2(n: nat) -> nat
    decreases n,
{
    if n == 0 {
        1
    } else {
        2 * pow2((n - 1) as nat)
    }
}

pub open spec fn min_nat(a: nat, b: nat) -> nat {
    if a <= b {
        a
    } else {
        b
    }
}

/// The delay before reconnect attempt `attempt` (counted from zero):
/// `base * 2^attempt`, capped at `max`.
pub open spec fn backoff(base: nat, max: nat, attempt: nat) -> nat {
    min_nat(base * pow2(attempt), max)
}

proof fn lemma_pow2_pos(n: nat)
    ensures
        pow2(n) >= 1,
    decreases n,
{
    if n > 0 {
        lemma_pow2_pos((n - 1) as nat);
    }
}

proof fn lemma_pow2_mono(a: nat, b: nat)
    requires
        a <= b,
    ensures
        1 <= pow2(a) <= pow2(b),
    decreases b,
{
    lemma_pow2_pos(a);
    if a < b {
        lemma_pow2_mono(a, (b - 1) as nat);
    }
}

/// The delay before a reconnect attempt, as `backoff` states; the random
/// spread around it is added by the caller.
pub fn backoff_delay(base: u64, max: u64, attempt: u32) -> (r: u64)
    ensures
        r as nat == backoff(base as nat, max as nat, attempt as nat),
{
    let mut d: u64 = if base <= max { base } else { max };
    let mut i: u32 = 0;
    proof {
        assert(pow2(0) == 1);
    }
    while i < attempt && d < max && d > 0
        invariant
            i <= attempt,
            d as nat == backoff(base as nat, max as nat, i as nat),
        decreases attempt - i,
    {
        proof {
            let p = pow2(i as nat);
            assert(pow2((i + 1) as nat) == 2 * p);
            assert(base * (2 * p) == 2 * (base * p)) by (nonlinear_arith);
        }
        d = if d > max / 2 { max } else { d * 2 };
        i = i + 1;
    }
    proof {
        if i < attempt {
            lemma_pow2_mono(i as nat, attempt as nat);
            let p = pow2(i as nat);
            let q = pow2(attempt as nat);
            if d == 0 && max > 0 {
                assert(base == 0) by {
                    if base > 0 {
                        assert(base * p >= 1) by (nonlinear_arith)
                            requires base > 0, p >= 1;
                    }
                }
                assert(base * q == 0) by (nonlinear_arith)
                    requires base == 0;
            } else if d > 0 {
                assert(d == max);
                assert(base * p <= base * q) by (nonlinear_arith)
                    requires p <= q;
            }
        }
    }
    d
}

/// Spreads a delay by up to `jitter` either way, from a random number
/// `random` drawn by the caller: `delay - jitter + random % (2 * jitter + 1)`,
/// kept at or above zero and within 64 bits.
pub fn apply_jitter(delay: u64, jitter: u64, random: u64) -> (r: u64)
    requires
        jitter < u64::MAX / 2,
    ensures
        ({
            let v = delay as int - jitter as int + (random as int % (2 * jitter as int + 1));
            r as int == if v < 0 {
                0
            } else if v > u64::MAX {
                u64::MAX as int
            } else {
                v
            }
        }),
{
    let spread = random % (2 * jitter + 1);
    let low = if delay >= jitter { delay - jitter } else { 0 };
    if delay >= jitter {
        if spread > u64::MAX - low {
            u64::MAX
        } else {
            low + spread
        }
    } else {
        let deficit = jitter - delay;
        if spread >= deficit {
            spread - deficit
        } else {
            0
        }
    }
}

/// Where a connection manager stands.
#[derive(PartialEq, Eq, Structural, Clone, Copy, Debug)]
pub enum ManagerState {
    Connected,
    /// Waiting before reconnect attempt `attempt` (counted from zero).
    Reconnecting { attempt: u32 },
    /// Gave up: every queued and future message fails until reconfigured.
    Failed,
}

/// What happened to the connection.
#[derive(PartialEq, Eq, Structural, Clone, Copy, Debug)]
pub enum ConnectionEvent {
    /// The transport is open and the handshake succeeded.
    Established,
    /// Connection reset, end of stream, timeout.
    TransientFailure,
    /// Credentials refused for good, or a certificate rejected.
    FatalFailure,
}

/// What the manager does next.
#[derive(PartialEq, Eq, Structural, Clone, Copy, Debug)]
pub enum ManagerAction {
    /// Let user messages through.
    ReleaseTraffic,
    /// Try to connect again after this many milliseconds (before jitter).
    RetryAfter(u64),
    /// Fail every queued message with a shutdown error.
    FailAll,
}

/// The reconnect schedule: base and cap of the delay, and the number of
/// attempts allowed, if bounded.
#[derive(Clone, Copy, Debug)]
pub struct ReconnectPolicy {
    pub base_delay: u64,
    pub max_delay: u64,
    pub max_attempts: Option<u32>,
}

/// The next attempt after a transient failure in `state`, if one is allowed.
pub open spec fn next_attempt(state: ManagerState, policy: ReconnectPolicy) -> Option<u32> {
    let a: int = match state {
        ManagerState::Reconnecting { attempt } => attempt + 1,
        _ => 0,
    };
    if a > u32::MAX {
        None
    } else {
        match policy.max_attempts {
            Some(m) => if a < m {
                Some(a as u32)
            } else {
                None
            },
            None => Some(a as u32),
        }
    }
}

/// The reconnect policy: a failed manager stays failed; success resets the
/// schedule and lets traffic through; a fatal failure gives up; a transient
/// one waits the backoff of the next attempt, or gives up when no attempt is
/// left.
pub open spec fn transition(state: ManagerState, event: ConnectionEvent, policy: ReconnectPolicy) -> (
    ManagerState,
    ManagerAction,
) {
    if state == ManagerState::Failed {
        (ManagerState::Failed, ManagerAction::FailAll)
    } else {
        match event {
            ConnectionEvent::Established => (ManagerState::Connected, ManagerAction::ReleaseTraffic),
            ConnectionEvent::FatalFailure => (ManagerState::Failed, ManagerAction::FailAll),
            ConnectionEvent::TransientFailure => match next_attempt(state, policy) {
                Some(a) => (
                    ManagerState::Reconnecting { attempt: a },
                    ManagerAction::RetryAfter(
                        backoff(policy.base_delay as nat, policy.max_delay as nat, a as nat) as u64,
                    ),
                ),
                None => (ManagerState::Failed, ManagerAction::FailAll),
            },
        }
    }
}

/// Applies the reconnect policy to one event.
pub fn on_event(state: ManagerState, event: ConnectionEvent, policy: &ReconnectPolicy) -> (r: (
    ManagerState,
    ManagerAction,
))
    ensures
        r == transition(state, event, *policy),
{
    if state == ManagerState::Failed {
        return (ManagerState::Failed, ManagerAction::FailAll);
    }
    match event {
        ConnectionEvent::Established => (ManagerState::Connected, ManagerAction::ReleaseTraffic),
        ConnectionEvent::FatalFailure => (ManagerState::Failed, ManagerAction::FailAll),
        ConnectionEvent::TransientFailure => {
            let next: Option<u32> = match state {
                ManagerState::Reconnecting { attempt } => if attempt == u32::MAX {
                    None
                } else {
                    Some(attempt + 1)
                },
                _ => Some(0),
            };
            let allowed = match (next, policy.max_attempts) {
                (Some(a), Some(m)) => if a < m {
                    Some(a)
                } else {
                    None
                },
                (Some(a), None) => Some(a),
                (None, _) => None,
            };
            match allowed {
                Some(a) => (
                    ManagerState::Reconnecting { attempt: a },
                    ManagerAction::RetryAfter(backoff_delay(policy.base_delay, policy.max_delay, a)),
                ),
                None => (ManagerState::Failed, ManagerAction::FailAll),
            }
        },
    }
}

} // verus!
