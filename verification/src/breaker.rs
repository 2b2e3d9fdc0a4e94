//! A circuit breaker: a counter-driven state machine over closed, open
//! and half-open states.
//!
//! The caller supplies the wall time in milliseconds at each decision
//! point, so every transition is a pure function of state, configuration
//! and clock reading, and is verified as such.

use vstd::prelude::*;

verus! {

#[derive(Clone, Copy, PartialEq, Eq, Structural, Debug)]
pub enum CircuitBreakerState {
    Closed,
    Open,
    HalfOpen,
}

#[derive(Clone, Copy, PartialEq, Eq, Structural, Debug)]
pub struct CircuitBreakerConfig {
    /// Consecutive failures that trip the breaker open.
    pub max_failures: usize,
    /// How long the breaker stays open before probing, in milliseconds.
    pub timeout_ms: u64,
    /// Probe requests allowed while half-open.
    pub half_open_max_requests: usize,
}

impl Default for CircuitBreakerConfig {
    /// Five failures trip the breaker; it probes after thirty seconds,
    /// with at most three probes in flight.
    fn default() -> (r: CircuitBreakerConfig)
        ensures
            r.max_failures == 5,
            r.timeout_ms == 30_000,
            r.half_open_max_requests == 3,
    {
        CircuitBreakerConfig { max_failures: 5, timeout_ms: 30_000, half_open_max_requests: 3 }
    }
}

/// Why a request was refused without being tried.
#[derive(Clone, Copy, PartialEq, Eq, Structural, Debug)]
pub enum CircuitBreakerError {
    /// The breaker is open and its timeout has not elapsed.
    Open,
    /// The half-open probe budget is exhausted.
    TooManyRequests,
}

pub struct CircuitBreaker {
    pub config: CircuitBreakerConfig,
    pub state: CircuitBreakerState,
    pub failures: usize,
    pub successes: usize,
    pub last_fail_time: Option<u64>,
    pub half_open_requests: usize,
}

impl CircuitBreaker {
    pub fn new(config: CircuitBreakerConfig) -> (r: CircuitBreaker)
        ensures
            r.config == config,
            r.state == CircuitBreakerState::Closed,
            r.failures == 0,
            r.successes == 0,
            r.last_fail_time is None,
            r.half_open_requests == 0,
    {
        CircuitBreaker {
            config,
            state: CircuitBreakerState::Closed,
            failures: 0,
            successes: 0,
            last_fail_time: None,
            half_open_requests: 0,
        }
    }

    pub fn get_state(&self) -> (r: CircuitBreakerState)
        ensures
            r == self.state,
    {
        self.state
    }

    /// Forces the breaker closed and clears every counter.
    pub fn reset(&mut self)
        ensures
            final(self).state == CircuitBreakerState::Closed,
            final(self).failures == 0,
            final(self).successes == 0,
            final(self).half_open_requests == 0,
            final(self).config == old(self).config,
            final(self).last_fail_time == old(self).last_fail_time,
    {
        self.state = CircuitBreakerState::Closed;
        self.failures = 0;
        self.successes = 0;
        self.half_open_requests = 0;
    }

    /// Decides whether a request may go out at wall time `now_ms`.
    ///
    /// Closed lets everything through. Open refuses until the timeout
    /// has elapsed since the last failure, then turns half-open and
    /// admits the first probe. Half-open admits up to the probe budget
    /// and refuses beyond it.
    pub fn before_request(&mut self, now_ms: u64) -> (r: Result<(), CircuitBreakerError>)
        ensures
            final(self).config == old(self).config,
            final(self).failures == old(self).failures,
            final(self).successes == old(self).successes,
            final(self).last_fail_time == old(self).last_fail_time,
            match old(self).state {
                CircuitBreakerState::Closed => r is Ok && *final(self) == *old(self),
                CircuitBreakerState::Open => match old(self).last_fail_time {
                    Some(t) => {
                        &&& (r is Ok <==> now_ms > t && now_ms - t > old(self).config.timeout_ms)
                        &&& (r is Ok ==> final(self).state == CircuitBreakerState::HalfOpen
                            && final(self).half_open_requests == 1)
                        &&& (r is Err ==> *final(self) == *old(self) && r == Err::<
                            (),
                            CircuitBreakerError,
                        >(CircuitBreakerError::Open))
                    },
                    None => r == Err::<(), CircuitBreakerError>(CircuitBreakerError::Open)
                        && *final(self) == *old(self),
                },
                CircuitBreakerState::HalfOpen => {
                    &&& (r is Ok <==> old(self).half_open_requests < old(
                        self,
                    ).config.half_open_max_requests)
                    &&& (r is Ok ==> final(self).half_open_requests == old(
                        self,
                    ).half_open_requests + 1 && final(self).state == old(self).state)
                    &&& (r is Err ==> *final(self) == *old(self) && r == Err::<
                        (),
                        CircuitBreakerError,
                    >(CircuitBreakerError::TooManyRequests))
                },
            },
    {
        match self.state {
            CircuitBreakerState::Closed => Ok(()),
            CircuitBreakerState::Open => {
                match self.last_fail_time {
                    Some(t) => {
                        if now_ms > t && now_ms - t > self.config.timeout_ms {
                            self.state = CircuitBreakerState::HalfOpen;
                            self.half_open_requests = 1;
                            Ok(())
                        } else {
                            Err(CircuitBreakerError::Open)
                        }
                    },
                    None => Err(CircuitBreakerError::Open),
                }
            },
            CircuitBreakerState::HalfOpen => {
                if self.half_open_requests >= self.config.half_open_max_requests {
                    Err(CircuitBreakerError::TooManyRequests)
                } else {
                    self.half_open_requests = self.half_open_requests + 1;
                    Ok(())
                }
            },
        }
    }

    /// Records a successful request. Closed clears the failure count;
    /// half-open counts successes and closes the breaker once enough
    /// probes succeeded; open ignores it.
    pub fn on_success(&mut self)
        ensures
            final(self).config == old(self).config,
            final(self).last_fail_time == old(self).last_fail_time,
            final(self).half_open_requests == old(self).half_open_requests,
            match old(self).state {
                CircuitBreakerState::Closed => final(self).state == CircuitBreakerState::Closed
                    && final(self).failures == 0 && final(self).successes == old(self).successes,
                CircuitBreakerState::HalfOpen => {
                    if old(self).successes + 1 >= old(self).config.half_open_max_requests {
                        &&& final(self).state == CircuitBreakerState::Closed
                        &&& final(self).failures == 0
                        &&& final(self).successes == 0
                    } else {
                        &&& final(self).state == CircuitBreakerState::HalfOpen
                        &&& final(self).successes == old(self).successes + 1
                        &&& final(self).failures == old(self).failures
                    }
                },
                CircuitBreakerState::Open => *final(self) == *old(self),
            },
    {
        match self.state {
            CircuitBreakerState::Closed => {
                self.failures = 0;
            },
            CircuitBreakerState::HalfOpen => {
                if self.successes >= usize::MAX - 1 {
                    // Saturated probe counter closes the breaker too.
                    self.state = CircuitBreakerState::Closed;
                    self.failures = 0;
                    self.successes = 0;
                } else {
                    self.successes = self.successes + 1;
                    if self.successes >= self.config.half_open_max_requests {
                        self.state = CircuitBreakerState::Closed;
                        self.failures = 0;
                        self.successes = 0;
                    }
                }
            },
            CircuitBreakerState::Open => {},
        }
    }

    /// Records a failed request at wall time `now_ms`. Closed trips the
    /// breaker open once the failure budget is spent; half-open trips it
    /// open at once.
    pub fn on_failure(&mut self, now_ms: u64)
        requires
            old(self).failures < usize::MAX,
        ensures
            final(self).config == old(self).config,
            final(self).failures == old(self).failures + 1,
            final(self).last_fail_time == Some(now_ms),
            final(self).successes == old(self).successes,
            final(self).half_open_requests == old(self).half_open_requests,
            match old(self).state {
                CircuitBreakerState::Closed => final(self).state == (
                if old(self).failures + 1 >= old(self).config.max_failures {
                    CircuitBreakerState::Open
                } else {
                    CircuitBreakerState::Closed
                }),
                CircuitBreakerState::HalfOpen => final(self).state == CircuitBreakerState::Open,
                CircuitBreakerState::Open => final(self).state == CircuitBreakerState::Open,
            },
    {
        self.failures = self.failures + 1;
        self.last_fail_time = Some(now_ms);
        match self.state {
            CircuitBreakerState::Closed => {
                if self.failures >= self.config.max_failures {
                    self.state = CircuitBreakerState::Open;
                }
            },
            CircuitBreakerState::HalfOpen => {
                self.state = CircuitBreakerState::Open;
            },
            CircuitBreakerState::Open => {},
        }
    }
}

} // verus!
