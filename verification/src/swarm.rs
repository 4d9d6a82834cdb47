//! Choosing a source by name, configuring a swarm of workers, and adding
//! up what they did.

use vstd::prelude::*;
use crate::text::{chars_of, string_from_chars, copy_range};
use crate::strs::{parse_u64, parse_u64_chars};
use crate::worker::{WorkerConfig, WorkerStats};

verus! {

/// Random titles fetched per construction of `wikipedia-random` by default.
pub const DEFAULT_RANDOM_POOL: usize = 500;
/// Books listed per topic by `gutenberg` by default.
pub const DEFAULT_BOOKS_PER_TOPIC: usize = 30;
/// Timeout of each submission made by a swarm worker, in milliseconds.
pub const SWARM_REQUEST_TIMEOUT_MS: u64 = 30_000;
/// Pause after each submission of a swarm worker, in milliseconds.
pub const SWARM_INTER_BATCH_PAUSE_MS: u64 = 500;

/// The knowledge sources a swarm can be fed from.
#[derive(Debug, Clone, Copy, PartialEq, Eq, Structural)]
pub enum SourceSpec {
    Placeholder,
    Grokipedia,
    Wikipedia,
    WikipediaRandom { pool: usize },
    Arxiv,
    ArxivRecent,
    Gutenberg { books_per_topic: usize },
    StackExchange,
    FineWeb,
}

/// Position of the first `:` of `cs` at or after `k`, or its length.
pub open spec fn colon_from(cs: Seq<char>, k: int) -> int
    decreases cs.len() - k,
{
    if k < 0 || k >= cs.len() {
        cs.len() as int
    } else if cs[k] == ':' {
        k
    } else {
        colon_from(cs, k + 1)
    }
}

/// `usize::from_str`: as [`parse_u64`], and the value must fit a `usize`.
pub open spec fn parse_usize(cs: Seq<char>) -> Option<usize> {
    match parse_u64(cs) {
        Some(v) => if v <= usize::MAX {
            Some(v as usize)
        } else {
            None
        },
        None => None,
    }
}

/// The number after the first `:` of a source name, or `default` when there
/// is none or it does not parse.
pub open spec fn param_or(name: Seq<char>, default: usize) -> usize {
    let c = colon_from(name, 0);
    if c < name.len() {
        match parse_usize(name.skip(c + 1)) {
            Some(v) => v,
            None => default,
        }
    } else {
        default
    }
}

/// The source a name selects: the part before the first `:` names it, and
/// the part after it, where a source takes one, sets its size. An unknown
/// name is given back as the error.
pub open spec fn source_spec(name: Seq<char>) -> Result<SourceSpec, Seq<char>> {
    let base = name.take(colon_from(name, 0));
    if base == "placeholder"@ {
        Ok(SourceSpec::Placeholder)
    } else if base == "grokipedia"@ {
        Ok(SourceSpec::Grokipedia)
    } else if base == "wikipedia"@ {
        Ok(SourceSpec::Wikipedia)
    } else if base == "wikipedia-random"@ {
        Ok(SourceSpec::WikipediaRandom { pool: param_or(name, DEFAULT_RANDOM_POOL) })
    } else if base == "arxiv"@ {
        Ok(SourceSpec::Arxiv)
    } else if base == "arxiv-recent"@ {
        Ok(SourceSpec::ArxivRecent)
    } else if base == "gutenberg"@ {
        Ok(SourceSpec::Gutenberg { books_per_topic: param_or(name, DEFAULT_BOOKS_PER_TOPIC) })
    } else if base == "stackexchange"@ {
        Ok(SourceSpec::StackExchange)
    } else if base == "huggingface-fineweb"@ || base == "fineweb"@ {
        Ok(SourceSpec::FineWeb)
    } else {
        Err(base)
    }
}

fn first_colon(cs: &Vec<char>) -> (c: usize)
    ensures
        c == colon_from(cs@, 0),
{
    let mut i: usize = 0;
    while i < cs.len()
        invariant
            i <= cs@.len(),
            colon_from(cs@, 0) == colon_from(cs@, i as int),
        decreases cs@.len() - i,
    {
        if cs[i] == ':' {
            return i;
        }
        i = i + 1;
    }
    i
}

fn parse_usize_chars(cs: &Vec<char>) -> (r: Option<usize>)
    ensures
        r == parse_usize(cs@),
{
    match parse_u64_chars(cs) {
        Some(v) => if v <= usize::MAX as u64 {
            Some(v as usize)
        } else {
            None
        },
        None => None,
    }
}

fn size_param(cs: &Vec<char>, c: usize, default: usize) -> (v: usize)
    requires
        c == colon_from(cs@, 0),
    ensures
        v == param_or(cs@, default),
{
    if c < cs.len() {
        let p = copy_range(cs, c + 1, cs.len());
        proof {
            assert(p@ =~= cs@.skip(c + 1));
        }
        match parse_usize_chars(&p) {
            Some(v) => v,
            None => default,
        }
    } else {
        default
    }
}

proof fn lemma_colon_bounds(cs: Seq<char>, k: int)
    requires
        0 <= k <= cs.len(),
    ensures
        k <= colon_from(cs, k) <= cs.len(),
    decreases cs.len() - k,
{
    if k < cs.len() && cs[k] != ':' {
        lemma_colon_bounds(cs, k + 1);
    }
}

/// Picks the source a name selects (see [`source_spec`]).
pub fn parse_source(name: &str) -> (r: Result<SourceSpec, String>)
    ensures
        match r {
            Ok(s) => source_spec(name@) == Ok::<SourceSpec, Seq<char>>(s),
            Err(b) => source_spec(name@) == Err::<SourceSpec, Seq<char>>(b@),
        },
{
    let cs = chars_of(name);
    let c = first_colon(&cs);
    proof {
        lemma_colon_bounds(cs@, 0);
    }
    let base_chars = copy_range(&cs, 0, c);
    proof {
        assert(base_chars@ =~= cs@.take(c as int));
    }
    let base = string_from_chars(base_chars.as_slice());
    if base == "placeholder".to_owned() {
        Ok(SourceSpec::Placeholder)
    } else if base == "grokipedia".to_owned() {
        Ok(SourceSpec::Grokipedia)
    } else if base == "wikipedia".to_owned() {
        Ok(SourceSpec::Wikipedia)
    } else if base == "wikipedia-random".to_owned() {
        Ok(SourceSpec::WikipediaRandom { pool: size_param(&cs, c, DEFAULT_RANDOM_POOL) })
    } else if base == "arxiv".to_owned() {
        Ok(SourceSpec::Arxiv)
    } else if base == "arxiv-recent".to_owned() {
        Ok(SourceSpec::ArxivRecent)
    } else if base == "gutenberg".to_owned() {
        Ok(SourceSpec::Gutenberg { books_per_topic: size_param(&cs, c, DEFAULT_BOOKS_PER_TOPIC) })
    } else if base == "stackexchange".to_owned() {
        Ok(SourceSpec::StackExchange)
    } else if base == "huggingface-fineweb".to_owned() || base == "fineweb".to_owned() {
        Ok(SourceSpec::FineWeb)
    } else {
        Err(base)
    }
}

/// The configuration of swarm worker `i`.
pub open spec fn swarm_config_ok(
    c: WorkerConfig,
    i: int,
    base_url: Seq<char>,
    admin_key: Seq<char>,
    batch_size: usize,
    max_batches: Option<usize>,
) -> bool {
    &&& c.agent_id == i
    &&& c.base_url@ == base_url
    &&& c.admin_key@ == admin_key
    &&& c.batch_size == batch_size
    &&& c.max_batches == max_batches
    &&& c.request_timeout_ms == SWARM_REQUEST_TIMEOUT_MS
    &&& c.inter_batch_pause_ms == SWARM_INTER_BATCH_PAUSE_MS
}

/// The configurations of a swarm of `count` workers, numbered from 0, all
/// posting to the same service with the same key and batch settings.
pub fn swarm_configs(
    count: usize,
    base_url: &String,
    admin_key: &String,
    batch_size: usize,
    max_batches: Option<usize>,
) -> (v: Vec<WorkerConfig>)
    ensures
        v@.len() == count,
        forall|i: int| 0 <= i < count ==> swarm_config_ok(#[trigger] v@[i], i, base_url@, admin_key@, batch_size, max_batches),
{
    let mut v: Vec<WorkerConfig> = Vec::with_capacity(count);
    let mut i: usize = 0;
    while i < count
        invariant
            i <= count,
            v@.len() == i,
            forall|j: int| 0 <= j < i ==> swarm_config_ok(#[trigger] v@[j], j, base_url@, admin_key@, batch_size, max_batches),
        decreases count - i,
    {
        let c = WorkerConfig {
            agent_id: i,
            base_url: base_url.clone(),
            admin_key: admin_key.clone(),
            batch_size,
            max_batches,
            request_timeout_ms: SWARM_REQUEST_TIMEOUT_MS,
            inter_batch_pause_ms: SWARM_INTER_BATCH_PAUSE_MS,
        };
        v.push(c);
        proof {
            assert(swarm_config_ok(v@[i as int], i as int, base_url@, admin_key@, batch_size, max_batches));
        }
        i = i + 1;
    }
    v
}

/// What a whole swarm did, added up over its workers.
#[derive(Debug, Clone, Copy, PartialEq, Eq, Structural)]
pub struct SwarmTotals {
    pub total_submitted: u64,
    pub total_accepted: u64,
    pub total_429: u64,
    pub total_errors: u64,
    /// Workers whose statistics were added in.
    pub workers_reported: u64,
}

impl SwarmTotals {
    /// Nothing added up yet.
    pub fn new() -> (t: SwarmTotals)
        ensures
            t == (SwarmTotals { total_submitted: 0, total_accepted: 0, total_429: 0, total_errors: 0, workers_reported: 0 }),
    {
        SwarmTotals { total_submitted: 0, total_accepted: 0, total_429: 0, total_errors: 0, workers_reported: 0 }
    }

    /// Adds one worker's statistics in.
    pub fn absorb(&mut self, s: &WorkerStats)
        requires
            old(self).total_submitted + s.nodes_submitted <= u64::MAX,
            old(self).total_accepted + s.nodes_accepted <= u64::MAX,
            old(self).total_429 + s.rate_limit_hits <= u64::MAX,
            old(self).total_errors + s.transport_errors <= u64::MAX,
            old(self).workers_reported < u64::MAX,
        ensures
            final(self).total_submitted == old(self).total_submitted + s.nodes_submitted,
            final(self).total_accepted == old(self).total_accepted + s.nodes_accepted,
            final(self).total_429 == old(self).total_429 + s.rate_limit_hits,
            final(self).total_errors == old(self).total_errors + s.transport_errors,
            final(self).workers_reported == old(self).workers_reported + 1,
    {
        self.total_submitted = self.total_submitted + s.nodes_submitted;
        self.total_accepted = self.total_accepted + s.nodes_accepted;
        self.total_429 = self.total_429 + s.rate_limit_hits;
        self.total_errors = self.total_errors + s.transport_errors;
        self.workers_reported = self.workers_reported + 1;
    }
}

} // verus!
