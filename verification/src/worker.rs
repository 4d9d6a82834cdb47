//! The decisions of one seeder worker. The worker loop itself (fetching a
//! batch from a source, posting it, sleeping) is driven from outside: it
//! asks [`Worker::wants_batch`], reports what the fetch gave to
//! [`Worker::on_fetch`] and what each submission of the batch gave to
//! [`Worker::on_submit`], sleeps as told, and posts the same batch again
//! when told to.

use vstd::prelude::*;
use crate::error::SeederError;
use crate::text::{endpoint_url, trim_end_char};
use crate::header::{submit_retry_after, submit_retry_after_secs, opt_bytes};

verus! {

/// The backoff after a success, and the first backoff after a failure (250 ms).
pub const BACKOFF_INITIAL_MS: u64 = 250;
/// The longest backoff between failed attempts (30 s).
pub const BACKOFF_CEILING_MS: u64 = 30_000;

/// How one worker runs.
#[derive(Debug, Clone)]
pub struct WorkerConfig {
    pub agent_id: usize,
    /// Base URL of the ingestion service.
    pub base_url: String,
    /// Key sent in the `X-Admin-Key` header.
    pub admin_key: String,
    /// Nodes asked of the source per batch.
    pub batch_size: usize,
    /// Stop after this many attempted batches; run until the source is
    /// exhausted when `None`.
    pub max_batches: Option<usize>,
    /// Timeout of each submission, in milliseconds.
    pub request_timeout_ms: u64,
    /// Pause after each submission, in milliseconds.
    pub inter_batch_pause_ms: u64,
}

impl Default for WorkerConfig {
    fn default() -> (c: WorkerConfig)
        ensures
            c.agent_id == 0,
            c.base_url@ == "http://127.0.0.1:5003"@,
            c.admin_key@ == Seq::<char>::empty(),
            c.batch_size == 50,
            c.max_batches is None,
            c.request_timeout_ms == 30_000,
            c.inter_batch_pause_ms == 500,
    {
        WorkerConfig {
            agent_id: 0,
            base_url: "http://127.0.0.1:5003".to_owned(),
            admin_key: String::new(),
            batch_size: 50,
            max_batches: None,
            request_timeout_ms: 30_000,
            inter_batch_pause_ms: 500,
        }
    }
}

/// What one worker has done so far.
#[derive(Debug, Clone)]
pub struct WorkerStats {
    pub agent_id: usize,
    pub batches_attempted: u64,
    pub nodes_submitted: u64,
    pub nodes_accepted: u64,
    pub rate_limit_hits: u64,
    pub transport_errors: u64,
}

impl Default for WorkerStats {
    fn default() -> (s: WorkerStats)
        ensures
            s == zero_stats(0),
    {
        WorkerStats {
            agent_id: 0,
            batches_attempted: 0,
            nodes_submitted: 0,
            nodes_accepted: 0,
            rate_limit_hits: 0,
            transport_errors: 0,
        }
    }
}

/// Fresh statistics of the worker `agent_id`.
pub open spec fn zero_stats(agent_id: usize) -> WorkerStats {
    WorkerStats {
        agent_id,
        batches_attempted: 0,
        nodes_submitted: 0,
        nodes_accepted: 0,
        rate_limit_hits: 0,
        transport_errors: 0,
    }
}

/// The next backoff after a failure: twice the last, at most the ceiling.
pub open spec fn next_backoff(ms: u64) -> u64 {
    if 2 * ms > BACKOFF_CEILING_MS {
        BACKOFF_CEILING_MS
    } else {
        (2 * ms) as u64
    }
}

/// Where a worker posts its batches: `{base}/aether/knowledge/sync`, the
/// base without trailing slashes.
pub fn sync_url(base_url: &str) -> (u: String)
    ensures
        u@ == trim_end_char(base_url@, '/') + "/aether/knowledge/sync"@,
{
    endpoint_url(base_url, "/aether/knowledge/sync")
}

/// What the worker does after asking its source for a batch.
pub enum FetchStep {
    /// Stop: the source is exhausted.
    Stop,
    /// Sleep this long, then go back to the top of the loop.
    Retry { wait_ms: u64 },
    /// Submit the batch.
    Submit,
}

/// What came of submitting a batch.
pub enum SubmitOutcome {
    /// The service took the batch; it may say how many nodes it accepted.
    Accepted { nodes_accepted: Option<u64> },
    /// The service answered 429, with this `Retry-After` header value if any.
    RateLimited { retry_after: Option<Vec<u8>> },
    /// The service answered with another non-success status.
    Rejected,
    /// The request did not get an answer.
    Unreachable,
}

/// How long to sleep once a batch is done with, before the regular pause.
pub enum Pause {
    NoWait,
    Millis(u64),
}

/// What the worker does after a submission.
pub enum SubmitStep {
    /// Sleep `wait_secs` seconds, then post the same batch of `batch_len`
    /// nodes again.
    Resubmit { wait_secs: u64, batch_len: usize },
    /// The batch is done with: sleep as told, then the regular pause, then
    /// the next batch.
    Done(Pause),
}

/// One worker's state: its configuration, its statistics, its current
/// backoff, and the length of the batch being submitted, if any.
pub struct Worker {
    config: WorkerConfig,
    stats: WorkerStats,
    backoff_ms: u64,
    in_flight: Option<usize>,
}

impl Worker {
    pub closed spec fn config_view(&self) -> WorkerConfig {
        self.config
    }

    pub closed spec fn stats_view(&self) -> WorkerStats {
        self.stats
    }

    pub closed spec fn backoff_view(&self) -> u64 {
        self.backoff_ms
    }

    /// The length of the batch being submitted, or `None` between batches.
    pub closed spec fn in_flight_view(&self) -> Option<usize> {
        self.in_flight
    }

    /// Whether the loop may ask for another batch: always, unless a batch
    /// limit is set and reached.
    pub open spec fn may_fetch(&self) -> bool {
        !(self.config_view().max_batches matches Some(m) && self.stats_view().batches_attempted >= m)
    }

    /// The backoff stays between its initial value and its ceiling, and no
    /// more batches are attempted than the limit allows.
    pub open spec fn wf(&self) -> bool {
        &&& BACKOFF_INITIAL_MS <= self.backoff_view() <= BACKOFF_CEILING_MS
        &&& (self.config_view().max_batches matches Some(m) ==> self.stats_view().batches_attempted <= m)
    }

    /// A worker that has done nothing yet.
    pub fn new(config: WorkerConfig) -> (w: Worker)
        ensures
            w.wf(),
            w.config_view() == config,
            w.stats_view() == zero_stats(config.agent_id),
            w.backoff_view() == BACKOFF_INITIAL_MS,
            w.in_flight_view() is None,
    {
        let agent_id = config.agent_id;
        Worker {
            config,
            stats: WorkerStats {
                agent_id,
                batches_attempted: 0,
                nodes_submitted: 0,
                nodes_accepted: 0,
                rate_limit_hits: 0,
                transport_errors: 0,
            },
            backoff_ms: BACKOFF_INITIAL_MS,
            in_flight: None,
        }
    }

    /// The worker's configuration.
    pub fn config(&self) -> (c: &WorkerConfig)
        ensures
            *c == self.config_view(),
    {
        &self.config
    }

    /// The worker's statistics so far.
    pub fn stats(&self) -> (s: &WorkerStats)
        ensures
            *s == self.stats_view(),
    {
        &self.stats
    }

    /// Whether the loop goes on to fetch another batch (see [`Worker::may_fetch`]).
    pub fn wants_batch(&self) -> (b: bool)
        ensures
            b == self.may_fetch(),
    {
        match self.config.max_batches {
            Some(m) => self.stats.batches_attempted < m as u64,
            None => true,
        }
    }

    /// Takes in what the source gave: an empty batch or exhaustion stops the
    /// worker; another error makes it back off and retry; a batch of `n`
    /// nodes is counted as attempted and goes to submission.
    pub fn on_fetch(&mut self, fetched: Result<usize, SeederError>) -> (step: FetchStep)
        requires
            old(self).wf(),
            old(self).may_fetch(),
            old(self).in_flight_view() is None,
            fetched matches Ok(n) ==> old(self).stats_view().batches_attempted < u64::MAX
                && old(self).stats_view().nodes_submitted + n <= u64::MAX,
        ensures
            final(self).wf(),
            final(self).config_view() == old(self).config_view(),
            match fetched {
                Ok(n) => if n == 0 {
                    step is Stop && *final(self) == *old(self)
                } else {
                    &&& step is Submit
                    &&& final(self).stats_view() == (WorkerStats {
                        batches_attempted: (old(self).stats_view().batches_attempted + 1) as u64,
                        nodes_submitted: (old(self).stats_view().nodes_submitted + n) as u64,
                        ..old(self).stats_view()
                    })
                    &&& final(self).backoff_view() == old(self).backoff_view()
                    &&& final(self).in_flight_view() == Some(n)
                },
                Err(e) => match e {
                    SeederError::Exhausted => step is Stop && *final(self) == *old(self),
                    _ => {
                        &&& step == (FetchStep::Retry { wait_ms: old(self).backoff_view() })
                        &&& final(self).stats_view() == old(self).stats_view()
                        &&& final(self).backoff_view() == next_backoff(old(self).backoff_view())
                        &&& final(self).in_flight_view() is None
                    },
                },
            },
    {
        match fetched {
            Ok(n) => {
                if n == 0 {
                    FetchStep::Stop
                } else {
                    self.stats.batches_attempted = self.stats.batches_attempted + 1;
                    self.stats.nodes_submitted = self.stats.nodes_submitted + n as u64;
                    self.in_flight = Some(n);
                    FetchStep::Submit
                }
            },
            Err(SeederError::Exhausted) => FetchStep::Stop,
            Err(_) => {
                let wait = self.backoff_ms;
                self.backoff_ms = if self.backoff_ms > BACKOFF_CEILING_MS / 2 {
                    BACKOFF_CEILING_MS
                } else {
                    self.backoff_ms * 2
                };
                FetchStep::Retry { wait_ms: wait }
            },
        }
    }

    /// Takes in what came of submitting the batch in flight: an accepted
    /// batch counts the nodes the service says it accepted (all of them when
    /// it does not say), resets the backoff and ends the batch; a 429 counts a
    /// rate-limit hit and has the same batch posted again after the wait
    /// `Retry-After` gives (5 s by default); any other failure counts a
    /// transport error, ends the batch, waits the current backoff and doubles
    /// it.
    pub fn on_submit(&mut self, outcome: SubmitOutcome) -> (step: SubmitStep)
        requires
            old(self).wf(),
            old(self).in_flight_view() is Some,
            outcome matches SubmitOutcome::Accepted { nodes_accepted } ==> old(self).stats_view().nodes_accepted
                + match nodes_accepted {
                Some(a) => a as int,
                None => old(self).in_flight_view().unwrap() as int,
            } <= u64::MAX,
            outcome matches SubmitOutcome::RateLimited { .. } ==> old(self).stats_view().rate_limit_hits < u64::MAX,
            (outcome is Rejected || outcome is Unreachable) ==> old(self).stats_view().transport_errors < u64::MAX,
        ensures
            final(self).wf(),
            final(self).config_view() == old(self).config_view(),
            match outcome {
                SubmitOutcome::Accepted { nodes_accepted } => {
                    &&& step == SubmitStep::Done(Pause::NoWait)
                    &&& final(self).stats_view() == (WorkerStats {
                        nodes_accepted: (old(self).stats_view().nodes_accepted + match nodes_accepted {
                            Some(a) => a as int,
                            None => old(self).in_flight_view().unwrap() as int,
                        }) as u64,
                        ..old(self).stats_view()
                    })
                    &&& final(self).backoff_view() == BACKOFF_INITIAL_MS
                    &&& final(self).in_flight_view() is None
                },
                SubmitOutcome::RateLimited { retry_after } => {
                    &&& step == (SubmitStep::Resubmit {
                        wait_secs: submit_retry_after_secs(opt_bytes(retry_after)),
                        batch_len: old(self).in_flight_view().unwrap(),
                    })
                    &&& final(self).stats_view() == (WorkerStats {
                        rate_limit_hits: (old(self).stats_view().rate_limit_hits + 1) as u64,
                        ..old(self).stats_view()
                    })
                    &&& final(self).backoff_view() == old(self).backoff_view()
                    &&& final(self).in_flight_view() == old(self).in_flight_view()
                },
                _ => {
                    &&& step == SubmitStep::Done(Pause::Millis(old(self).backoff_view()))
                    &&& final(self).stats_view() == (WorkerStats {
                        transport_errors: (old(self).stats_view().transport_errors + 1) as u64,
                        ..old(self).stats_view()
                    })
                    &&& final(self).backoff_view() == next_backoff(old(self).backoff_view())
                    &&& final(self).in_flight_view() is None
                },
            },
    {
        let batch_len = match self.in_flight {
            Some(n) => n,
            None => 0,
        };
        match outcome {
            SubmitOutcome::Accepted { nodes_accepted } => {
                let accepted = match nodes_accepted {
                    Some(a) => a,
                    None => batch_len as u64,
                };
                self.stats.nodes_accepted = self.stats.nodes_accepted + accepted;
                self.backoff_ms = BACKOFF_INITIAL_MS;
                self.in_flight = None;
                SubmitStep::Done(Pause::NoWait)
            },
            SubmitOutcome::RateLimited { retry_after } => {
                self.stats.rate_limit_hits = self.stats.rate_limit_hits + 1;
                let secs = match &retry_after {
                    Some(v) => submit_retry_after(Some(v.as_slice())),
                    None => submit_retry_after(None),
                };
                SubmitStep::Resubmit { wait_secs: secs, batch_len }
            },
            _ => {
                self.stats.transport_errors = self.stats.transport_errors + 1;
                let wait = self.backoff_ms;
                self.backoff_ms = if self.backoff_ms > BACKOFF_CEILING_MS / 2 {
                    BACKOFF_CEILING_MS
                } else {
                    self.backoff_ms * 2
                };
                self.in_flight = None;
                SubmitStep::Done(Pause::Millis(wait))
            },
        }
    }

    /// The statistics the worker ends with.
    pub fn finish(self) -> (s: WorkerStats)
        ensures
            s == self.stats_view(),
    {
        self.stats
    }
}

/// Every failure backs off at least as long as the previous one, and never
/// past the ceiling; the backoff only starts over after an accepted batch.
pub proof fn law_backoff_grows_to_ceiling(ms: u64)
    requires
        BACKOFF_INITIAL_MS <= ms <= BACKOFF_CEILING_MS,
    ensures
        ms <= next_backoff(ms) <= BACKOFF_CEILING_MS,
        next_backoff(ms) == BACKOFF_CEILING_MS || next_backoff(ms) == 2 * ms,
{
}

} // verus!
