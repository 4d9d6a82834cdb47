//! One refill of each source: what is queued once the next work item has
//! been fetched. The fetching itself happens outside; these functions take
//! what came back.

use vstd::prelude::*;
use crate::domain::{SephirotDomain, domain_at, hash_bucket};
use crate::chunk::chunks;
use crate::text::{utf8_len, chars_of, append_range, string_from_chars, concat_str, endpoint_url, trim_end_char};
use crate::strs::{decimal, decimal_chars};
use crate::html::opt_view;
use crate::clean::{clean_page, extract_clean_text};
use crate::node::SeedNode;
use crate::pipeline::{SourceQueue, BatchStep, polled, drain_count, ingest_fold, made_nodes, nodes_view, node_hash, hashes_of, distinct_hashes, law_batches_never_repeat};
use crate::sources::{
    ARTICLE_MAX_CHARS, truncated_chars, truncate_string, byte_len, wikipedia_text,
    prepare_wikipedia_extract, arxiv_text, prepare_arxiv_abstract, book_text, prepare_book_text,
    BookEntry, QuestionEntry, book_key, book_key_string,
};
use crate::ratelimit::{RateLimitState, throttled, throttle_fits, slot, acquired, MIN_REQUEST_INTERVAL_MS};
use crate::header::{retry_after_secs, parse_retry_after_seconds, opt_bytes};

verus! {

/// Confidence (in thousandths) given to encyclopedia articles.
pub const GROKIPEDIA_CONFIDENCE: u16 = 900;
/// Confidence (in thousandths) given to Wikipedia extracts.
pub const WIKIPEDIA_CONFIDENCE: u16 = 920;
/// Confidence (in thousandths) given to curated arXiv abstracts.
pub const ARXIV_CONFIDENCE: u16 = 950;
/// Confidence (in thousandths) given to recent arXiv abstracts.
pub const ARXIV_RECENT_CONFIDENCE: u16 = 940;
/// Confidence (in thousandths) given to Project Gutenberg books.
pub const GUTENBERG_CONFIDENCE: u16 = 900;
/// Confidence (in thousandths) given to Stack Exchange questions.
pub const STACKEXCHANGE_CONFIDENCE: u16 = 880;

/// What queuing an optional text adds: the recorded hashes afterwards, and
/// the nodes queued (none when there is no text).
pub open spec fn queued(
    seen: Set<Seq<u8>>,
    body: Option<Seq<char>>,
    domain: SephirotDomain,
    source: Seq<char>,
    confidence_permille: u16,
) -> (Set<Seq<u8>>, Seq<(Seq<char>, SephirotDomain, Seq<char>, u16)>) {
    match body {
        None => (seen, seq![]),
        Some(b) => {
            let r = ingest_fold(seen, chunks(b), domain);
            (r.0, made_nodes(r.1, domain, source, confidence_permille))
        },
    }
}

/// `after` is `before` with an optional text chunked, deduplicated and
/// queued under the given domain, attribution and confidence.
pub open spec fn refilled<T>(
    before: SourceQueue<T>,
    after: SourceQueue<T>,
    body: Option<Seq<char>>,
    domain: SephirotDomain,
    source: Seq<char>,
    confidence_permille: u16,
) -> bool {
    let r = queued(before.seen(), body, domain, source, confidence_permille);
    &&& after.wf()
    &&& after.worklist() == before.worklist()
    &&& after.emitted() == before.emitted()
    &&& nodes_view(after.pending()) == nodes_view(before.pending()) + r.1
    &&& after.seen() == r.0
}

/// Queues an optional text (see [`refilled`]).
fn queue_text<T>(q: &mut SourceQueue<T>, body: Option<String>, domain: SephirotDomain, source: &String, confidence_permille: u16)
    requires
        old(q).wf(),
    ensures
        refilled(*old(q), *final(q), opt_view(body), domain, source@, confidence_permille),
{
    match body {
        Some(b) => q.ingest_text(b.as_str(), domain, source, confidence_permille),
        None => {
            proof {
                assert(nodes_view(q.pending()) =~= nodes_view(q.pending()) + Seq::<(Seq<char>, SephirotDomain, Seq<char>, u16)>::empty());
            }
        },
    }
}

/// `{prefix}:{key}`, the attribution of a node.
pub open spec fn attribution(prefix: Seq<char>, key: Seq<char>) -> Seq<char> {
    prefix + seq![':'] + key
}

/// Builds `{prefix}:{key}`.
pub fn attribution_string(prefix: &str, key: &str) -> (s: String)
    ensures
        s@ == attribution(prefix@, key@),
{
    let mut all = chars_of(prefix);
    all.push(':');
    let k = chars_of(key);
    append_range(&mut all, &k, 0, k.len());
    proof {
        assert(k@.subrange(0, k@.len() as int) =~= k@);
    }
    string_from_chars(all.as_slice())
}

// ── Encyclopedia articles ────────────────────────────────────────────

/// The text kept of an article page: its cleaned text when that is at least
/// 100 bytes long, cut to `ARTICLE_MAX_CHARS` bytes.
pub open spec fn article_text(html: Seq<char>, slug: Seq<char>) -> Option<Seq<char>> {
    match clean_page(html, slug) {
        Some(b) => if utf8_len(b) >= 100 {
            Some(truncated_chars(b, ARTICLE_MAX_CHARS as int))
        } else {
            None
        },
        None => None,
    }
}

/// Prepares an article page for chunking (see [`article_text`]).
pub fn prepare_article(html: &str, slug: &str) -> (r: Option<String>)
    ensures
        opt_view(r) == article_text(html@, slug@),
{
    match extract_clean_text(html, slug) {
        Some(b) => if byte_len(b.as_str()) >= 100 {
            Some(truncate_string(b.as_str(), ARTICLE_MAX_CHARS))
        } else {
            None
        },
        None => None,
    }
}

/// The article text of an optional page.
pub open spec fn page_article(html: Option<&str>, slug: Seq<char>) -> Option<Seq<char>> {
    match html {
        Some(h) => article_text(h@, slug),
        None => None,
    }
}

/// Where the article of `slug` is fetched: `{base}/page/{slug}`, the base
/// without trailing slashes.
pub fn article_url(base: &str, slug: &str) -> (u: String)
    ensures
        u@ == trim_end_char(base@, '/') + "/page/"@ + slug@,
{
    let path = concat_str("/page/", slug);
    let u = endpoint_url(base, path.as_str());
    proof {
        assert(trim_end_char(base@, '/') + ("/page/"@ + slug@) =~= trim_end_char(base@, '/') + "/page/"@ + slug@);
    }
    u
}

/// Queues the article fetched for `slug` (`None` when the page could not be
/// had), attributed to `grokipedia:{slug}`.
pub fn refill_grokipedia<T>(q: &mut SourceQueue<T>, slug: &str, domain: SephirotDomain, html: Option<&str>)
    requires
        old(q).wf(),
    ensures
        refilled(*old(q), *final(q), page_article(html, slug@), domain, attribution("grokipedia"@, slug@), GROKIPEDIA_CONFIDENCE),
{
    let body = match html {
        Some(h) => prepare_article(h, slug),
        None => None,
    };
    let source = attribution_string("grokipedia", slug);
    queue_text(q, body, domain, &source, GROKIPEDIA_CONFIDENCE);
}

// ── Wikipedia extracts ───────────────────────────────────────────────

/// The first page of an extract query: its title and plain-text extract,
/// each when given.
pub struct WikiPage {
    pub title: Option<String>,
    pub extract: Option<String>,
}

/// The text kept of an optional page.
pub open spec fn page_extract(title: Seq<char>, page: Option<WikiPage>) -> Option<Seq<char>> {
    match page {
        Some(p) => wikipedia_text(title, opt_view(p.title), opt_view(p.extract)),
        None => None,
    }
}

/// Queues the extract fetched for `title` (`None` when no page came back),
/// attributed to `wikipedia:{title}`.
pub fn refill_wikipedia<T>(q: &mut SourceQueue<T>, title: &str, domain: SephirotDomain, page: Option<WikiPage>)
    requires
        old(q).wf(),
    ensures
        refilled(*old(q), *final(q), page_extract(title@, page), domain, attribution("wikipedia"@, title@), WIKIPEDIA_CONFIDENCE),
{
    let body = match page {
        Some(p) => prepare_wikipedia_extract(title, p.title, p.extract),
        None => None,
    };
    let source = attribution_string("wikipedia", title);
    queue_text(q, body, domain, &source, WIKIPEDIA_CONFIDENCE);
}

// ── arXiv abstracts ──────────────────────────────────────────────────

/// What the abstract API answered for one paper.
pub enum ArxivReply {
    /// 429, with this `Retry-After` header value if any.
    Throttled { retry_after: Option<Vec<u8>> },
    /// Another non-success status.
    Failed,
    /// Success, with this Atom document.
    Xml(String),
}

/// The `Retry-After` seconds a throttled reply carries.
pub open spec fn reply_retry_after(reply: ArxivReply) -> Option<u64> {
    match reply {
        ArxivReply::Throttled { retry_after } => retry_after_secs(opt_bytes(retry_after)),
        _ => None,
    }
}

/// Takes in what the abstract API answered for `topic`, at `now`: a
/// throttled paper goes back to the front of the worklist and the ledger
/// notes the throttle; a failed one is dropped; a successful answer resets
/// the throttle count and queues the abstract, attributed to `arxiv:{id}`.
pub fn refill_arxiv(
    q: &mut SourceQueue<(&'static str, SephirotDomain)>,
    limiter: &mut RateLimitState,
    topic: (&'static str, SephirotDomain),
    now_ms: u64,
    reply: ArxivReply,
)
    requires
        old(q).wf(),
        reply is Throttled ==> throttle_fits(now_ms, reply_retry_after(reply)),
    ensures
        match reply {
            ArxivReply::Throttled { .. } => {
                &&& *final(limiter) == throttled(*old(limiter), now_ms, reply_retry_after(reply))
                &&& final(q).wf()
                &&& final(q).worklist() == seq![topic] + old(q).worklist()
                &&& final(q).pending() == old(q).pending()
                &&& final(q).seen() == old(q).seen()
                &&& final(q).emitted() == old(q).emitted()
            },
            ArxivReply::Failed => *final(limiter) == *old(limiter) && *final(q) == *old(q),
            ArxivReply::Xml(x) => {
                &&& final(limiter).consecutive_throttles == 0
                &&& final(limiter).next_allowed_ms == old(limiter).next_allowed_ms
                &&& refilled(*old(q), *final(q), arxiv_text(topic.0@, x@), topic.1, attribution("arxiv"@, topic.0@), ARXIV_CONFIDENCE)
            },
        },
{
    match reply {
        ArxivReply::Throttled { retry_after } => {
            let secs = match &retry_after {
                Some(v) => parse_retry_after_seconds(Some(v.as_slice())),
                None => parse_retry_after_seconds(None),
            };
            limiter.note_throttle(now_ms, secs);
            q.requeue_front(topic);
        },
        ArxivReply::Failed => {},
        ArxivReply::Xml(x) => {
            limiter.note_success();
            let body = prepare_arxiv_abstract(topic.0, x.as_str());
            let source = attribution_string("arxiv", topic.0);
            queue_text(q, body, topic.1, &source, ARXIV_CONFIDENCE);
        },
    }
}

/// What one paced poll asks of its driver.
pub enum PacedStep<T> {
    /// The batch is complete.
    Ready,
    /// Wait `wait_ms`, then fetch `item` and refill.
    Fetch { item: T, wait_ms: u64 },
}

/// One round of `fetch_batch` for a source whose requests are paced by a
/// ledger (the arXiv API): a poll of the queue, and, when an item is to be
/// fetched, the booking of the next request slot at `now`. The wait given
/// is how long to hold the request so that it goes out at its slot; a
/// completed batch books nothing.
pub fn poll_paced<T>(
    q: &mut SourceQueue<T>,
    limiter: &mut RateLimitState,
    out: &mut Vec<SeedNode>,
    n: usize,
    now_ms: u64,
) -> (step: PacedStep<T>)
    requires
        old(q).wf(),
        slot(*old(limiter), now_ms) + MIN_REQUEST_INTERVAL_MS <= u64::MAX,
    ensures
        polled(*old(q), *final(q), old(out)@, final(out)@, n as nat, match step {
            PacedStep::Ready => None,
            PacedStep::Fetch { item, .. } => Some(item),
        }),
        match step {
            PacedStep::Ready => *final(limiter) == *old(limiter),
            PacedStep::Fetch { wait_ms, .. } => {
                &&& wait_ms == slot(*old(limiter), now_ms) - now_ms
                &&& *final(limiter) == acquired(*old(limiter), now_ms)
            },
        },
{
    match q.poll_batch(out, n) {
        BatchStep::Ready => PacedStep::Ready,
        BatchStep::Fetch(item) => {
            let wait_ms = limiter.acquire_slot(now_ms);
            PacedStep::Fetch { item, wait_ms }
        },
    }
}

/// The abstract kept of an optional document.
pub open spec fn feed_abstract(arxiv_id: Seq<char>, xml: Option<&str>) -> Option<Seq<char>> {
    match xml {
        Some(x) => arxiv_text(arxiv_id, x@),
        None => None,
    }
}

/// Queues the abstract fetched for a recent paper (`None` when the API did
/// not answer with success), attributed to `arxiv-recent:{id}`.
pub fn refill_arxiv_recent<T>(q: &mut SourceQueue<T>, arxiv_id: &str, domain: SephirotDomain, xml: Option<&str>)
    requires
        old(q).wf(),
    ensures
        refilled(*old(q), *final(q), feed_abstract(arxiv_id@, xml), domain, attribution("arxiv-recent"@, arxiv_id@), ARXIV_RECENT_CONFIDENCE),
{
    let body = match xml {
        Some(x) => prepare_arxiv_abstract(arxiv_id, x),
        None => None,
    };
    let source = attribution_string("arxiv-recent", arxiv_id);
    queue_text(q, body, domain, &source, ARXIV_RECENT_CONFIDENCE);
}

/// Keys paired with the domain each hashes to.
pub open spec fn routed(keys: Seq<String>) -> Seq<(Seq<char>, SephirotDomain)> {
    keys.map_values(|k: String| (k@, domain_at(hash_bucket(k@))))
}

/// The views of key–domain pairs.
pub open spec fn pairs_view(v: Seq<(String, SephirotDomain)>) -> Seq<(Seq<char>, SephirotDomain)> {
    v.map_values(|p: (String, SephirotDomain)| (p.0@, p.1))
}

/// Work items for keys without a natural domain (paper ids, random
/// titles): each key with the domain it hashes to, in order.
pub fn route_by_hash(keys: Vec<String>) -> (v: Vec<(String, SephirotDomain)>)
    ensures
        pairs_view(v@) == routed(keys@),
{
    let mut v: Vec<(String, SephirotDomain)> = Vec::new();
    let mut keys = keys;
    let ghost all = keys@;
    let mut i: usize = 0;
    let total = keys.len();
    while keys.len() > 0
        invariant
            total == all.len(),
            all.len() == i + keys@.len(),
            keys@ == all.skip(i as int),
            pairs_view(v@) == routed(all.take(i as int)),
        decreases keys@.len(),
    {
        let k = keys.remove(0);
        let d = SephirotDomain::from_hash(k.as_str());
        let ghost before = v@;
        v.push((k, d));
        proof {
            assert(all.skip(i as int)[0] == all[i as int]);
            assert(keys@ =~= all.skip(i + 1));
            assert(all.take(i + 1) =~= all.take(i as int).push(all[i as int]));
            assert(pairs_view(v@) =~= pairs_view(before).push((all[i as int]@, d)));
            assert(routed(all.take(i + 1)) =~= routed(all.take(i as int)).push((all[i as int]@, domain_at(hash_bucket(all[i as int]@)))));
        }
        i = i + 1;
    }
    proof {
        assert(all.take(i as int) =~= all);
    }
    v
}

// ── Books ────────────────────────────────────────────────────────────

/// The text kept of an optional downloaded book.
pub open spec fn downloaded_book(title: Seq<char>, raw: Option<&str>) -> Option<Seq<char>> {
    match raw {
        Some(r) => book_text(title, r@),
        None => None,
    }
}

/// Queues the book downloaded for `entry` (`None` when the download did not
/// succeed), attributed to `gutenberg:{id}`.
pub fn refill_gutenberg(q: &mut SourceQueue<BookEntry>, entry: &BookEntry, raw: Option<&str>)
    requires
        old(q).wf(),
    ensures
        refilled(*old(q), *final(q), downloaded_book(entry.title@, raw), entry.domain, book_key(entry.id), GUTENBERG_CONFIDENCE),
{
    let body = match raw {
        Some(r) => prepare_book_text(entry.title.as_str(), r),
        None => None,
    };
    let source = book_key_string(entry.id);
    queue_text(q, body, entry.domain, &source, GUTENBERG_CONFIDENCE);
}

// ── Stack Exchange questions ─────────────────────────────────────────

/// `stackexchange:{site}:{question_id}`, the attribution of a question's nodes.
pub open spec fn question_source(site: Seq<char>, question_id: u64) -> Seq<char> {
    attribution(attribution("stackexchange"@, site), decimal(question_id as nat))
}

/// Queues a listed question's text, attributed to
/// `stackexchange:{site}:{question_id}`.
pub fn refill_stackexchange(q: &mut SourceQueue<QuestionEntry>, entry: &QuestionEntry)
    requires
        old(q).wf(),
    ensures
        refilled(
            *old(q),
            *final(q),
            Some(entry.text@),
            entry.domain,
            question_source(entry.site@, entry.question_id),
            STACKEXCHANGE_CONFIDENCE,
        ),
{
    let mut all = chars_of(attribution_string("stackexchange", entry.site.as_str()).as_str());
    all.push(':');
    let d = decimal_chars(entry.question_id);
    append_range(&mut all, &d, 0, d.len());
    proof {
        assert(d@.subrange(0, d@.len() as int) =~= d@);
        assert(all@ =~= question_source(entry.site@, entry.question_id));
    }
    let source = string_from_chars(all.as_slice());
    queue_text(q, Some(entry.text.clone()), entry.domain, &source, STACKEXCHANGE_CONFIDENCE);
}

/// One `fetch_batch` of the question source, on views: starting from the
/// worklist `wl`, the pending node views `pend` and the recorded hashes
/// `seen`, with `out_len` nodes already in the batch, polls and refills
/// until the batch is complete. Gives the node views handed out, and the
/// worklist, pending node views and recorded hashes left afterwards.
pub open spec fn question_batch(
    wl: Seq<QuestionEntry>,
    pend: Seq<(Seq<char>, SephirotDomain, Seq<char>, u16)>,
    seen: Set<Seq<u8>>,
    out_len: nat,
    n: nat,
) -> (Seq<(Seq<char>, SephirotDomain, Seq<char>, u16)>, Seq<QuestionEntry>, Seq<(Seq<char>, SephirotDomain, Seq<char>, u16)>, Set<Seq<u8>>)
    decreases wl.len(),
{
    let k = drain_count(pend.len(), out_len, n);
    let handed = pend.take(k as int);
    let rest = pend.skip(k as int);
    if out_len + k >= n || wl.len() == 0 {
        (handed, wl, rest, seen)
    } else {
        let e = wl[0];
        let r = queued(seen, Some(e.text@), e.domain, question_source(e.site@, e.question_id), STACKEXCHANGE_CONFIDENCE);
        let sub = question_batch(wl.drop_first(), rest + r.1, r.0, out_len + k, n);
        (handed + sub.0, sub.1, sub.2, sub.3)
    }
}

/// `fetch_batch` of the question source, whose items need no download:
/// polls and refills until the batch is complete (see [`question_batch`]).
/// The nodes handed out are pairwise distinct and were never handed out
/// before, and the batch holds at least `n` nodes unless the source ran dry.
pub fn stackexchange_fetch_batch(q: &mut SourceQueue<QuestionEntry>, n: usize) -> (out: Vec<SeedNode>)
    requires
        old(q).wf(),
    ensures
        final(q).wf(),
        ({
            let r = question_batch(old(q).worklist(), nodes_view(old(q).pending()), old(q).seen(), 0, n as nat);
            &&& nodes_view(out@) == r.0
            &&& final(q).worklist() == r.1
            &&& nodes_view(final(q).pending()) == r.2
            &&& final(q).seen() == r.3
        }),
        distinct_hashes(out@),
        forall|i: int| 0 <= i < out@.len() ==> !old(q).emitted().contains(#[trigger] node_hash(out@[i])),
        final(q).emitted() == old(q).emitted() + hashes_of(out@),
        out@.len() >= n || (final(q).worklist().len() == 0 && final(q).pending().len() == 0),
{
    let mut out: Vec<SeedNode> = Vec::new();
    let ghost total = question_batch(q.worklist(), nodes_view(q.pending()), q.seen(), 0, n as nat);
    proof {
        assert(hashes_of(out@) =~= Set::<Seq<u8>>::empty());
        assert(q.emitted() =~= old(q).emitted() + hashes_of(out@));
        assert(nodes_view(out@) + total.0 =~= total.0);
    }
    loop
        invariant
            q.wf(),
            distinct_hashes(out@),
            forall|i: int| 0 <= i < out@.len() ==> !old(q).emitted().contains(#[trigger] node_hash(out@[i])),
            q.emitted() == old(q).emitted() + hashes_of(out@),
            total == question_batch(old(q).worklist(), nodes_view(old(q).pending()), old(q).seen(), 0, n as nat),
            ({
                let cur = question_batch(q.worklist(), nodes_view(q.pending()), q.seen(), out@.len(), n as nat);
                &&& total.0 == nodes_view(out@) + cur.0
                &&& total.1 == cur.1
                &&& total.2 == cur.2
                &&& total.3 == cur.3
            }),
        ensures
            ({
                &&& nodes_view(out@) == total.0
                &&& q.worklist() == total.1
                &&& nodes_view(q.pending()) == total.2
                &&& q.seen() == total.3
            }),
            q.wf(),
            distinct_hashes(out@),
            forall|i: int| 0 <= i < out@.len() ==> !old(q).emitted().contains(#[trigger] node_hash(out@[i])),
            q.emitted() == old(q).emitted() + hashes_of(out@),
            out@.len() >= n || (q.worklist().len() == 0 && q.pending().len() == 0),
        decreases q.worklist().len(),
    {
        let ghost before = out@;
        let ghost e = q.emitted();
        let ghost p = q.pending();
        let ghost wl = q.worklist();
        let ghost seen = q.seen();
        let ghost k = drain_count(p.len(), before.len(), n as nat);
        let ghost cur = question_batch(wl, nodes_view(p), seen, before.len(), n as nat);
        let step = q.poll_batch(&mut out, n);
        let ghost handed = out@.skip(before.len() as int);
        proof {
            assert(handed =~= p.take(k as int));
            assert(out@ =~= before + handed);
            law_batches_never_repeat(before, handed, e);
            assert(q.emitted() =~= old(q).emitted() + hashes_of(out@));
            assert forall|i: int| 0 <= i < out@.len() implies !old(q).emitted().contains(#[trigger] node_hash(out@[i])) by {
                if i >= before.len() {
                    assert(out@[i] == handed[i - before.len()]);
                    assert(!e.contains(node_hash(handed[i - before.len()])));
                } else {
                    assert(out@[i] == before[i]);
                }
            }
            assert(nodes_view(p).len() == p.len());
            assert(nodes_view(handed) =~= nodes_view(p).take(k as int));
            assert(nodes_view(q.pending()) =~= nodes_view(p).skip(k as int));
            assert(nodes_view(out@) =~= nodes_view(before) + nodes_view(handed));
        }
        match step {
            BatchStep::Ready => {
                proof {
                    assert(cur == (nodes_view(p).take(k as int), wl, nodes_view(p).skip(k as int), seen));
                    assert(total.0 =~= nodes_view(out@));
                }
                return out;
            },
            BatchStep::Fetch(entry) => {
                refill_stackexchange(q, &entry);
                proof {
                    assert(q.pending().len() == nodes_view(q.pending()).len());
                    assert(nodes_view(p).skip(k as int) =~= Seq::<(Seq<char>, SephirotDomain, Seq<char>, u16)>::empty());
                    let sub = question_batch(q.worklist(), nodes_view(q.pending()), q.seen(), out@.len(), n as nat);
                    assert(cur == (nodes_view(p).take(k as int) + sub.0, sub.1, sub.2, sub.3));
                    assert(total.0 =~= nodes_view(out@) + sub.0);
                }
            },
        }
    }
}

} // verus!
