use aether_seeder::chunk::{chunk_text, safe_truncate};
use aether_seeder::clean::normalize_arxiv_summary;
use aether_seeder::domain::SephirotDomain;
use aether_seeder::error::SeederError;
use aether_seeder::header::{parse_retry_after_seconds, submit_retry_after};
use aether_seeder::node::{DedupSet, SeedNode};
use aether_seeder::pipeline::{BatchStep, SourceQueue};
use aether_seeder::placeholder::{PlaceholderSource, PLACEHOLDER_CAP};
use aether_seeder::ratelimit::{backoff_for, RateLimitState, BACKOFF_MAX_MS};
use aether_seeder::refill::{
    refill_arxiv, refill_arxiv_recent, refill_grokipedia, refill_gutenberg, refill_stackexchange,
    refill_wikipedia, stackexchange_fetch_batch, ArxivReply, WikiPage,
};
use aether_seeder::sources::{
    book_entries, book_text_url, ingest_rows, offset_plan, prepare_arxiv_abstract, prepare_book_text,
    prepare_wikipedia_extract, question_entries, BookEntry, GutendexBook, HfRow, QuestionEntry, SeQuestion,
};
use aether_seeder::swarm::{parse_source, swarm_configs, SourceSpec, SwarmTotals};
use aether_seeder::topics::{arxiv, grokipedia, wikipedia};
use aether_seeder::worker::{FetchStep, Pause, SubmitOutcome, SubmitStep, Worker, WorkerConfig, WorkerStats};
use sha2::{Digest, Sha256};

fn drain<T>(q: &mut SourceQueue<T>, n: usize) -> Vec<SeedNode> {
    let mut out = Vec::new();
    match q.poll_batch(&mut out, n) {
        BatchStep::Ready => out,
        BatchStep::Fetch(_) => panic!("unexpected fetch"),
    }
}

fn long_text() -> String {
    "The first sentence talks about an idea at some length. The second sentence adds a detail worth keeping. The third one closes the paragraph neatly."
        .to_string()
}

// ── Domains and hashing ──────────────────────────────────────────────

#[test]
fn from_hash_is_the_first_eight_digest_bytes_mod_ten() {
    for key in ["gutenberg:1342", "fineweb:7", "", "2401.12345"] {
        let digest = Sha256::digest(key.as_bytes());
        let mut v: u128 = 0;
        for b in &digest[..8] {
            v = v * 256 + *b as u128;
        }
        let expected = SephirotDomain::from_index((v % 10) as u8);
        assert_eq!(SephirotDomain::from_hash(key), expected);
        assert_eq!(SephirotDomain::from_hash(key), SephirotDomain::from_hash(key));
    }
}

#[test]
fn domain_index_round_trips() {
    for i in 0u8..10 {
        assert_eq!(SephirotDomain::from_index(i).index(), i);
    }
    assert_eq!(SephirotDomain::Keter.index(), 0);
    assert_eq!(SephirotDomain::Malkuth.index(), 9);
}

#[test]
fn content_hash_is_sha256_of_text_and_domain_tag() {
    let n = SeedNode {
        text: "Entropy never decreases.".to_string(),
        domain: SephirotDomain::Hod,
        source: "s".to_string(),
        confidence_permille: 900,
    };
    let mut data = n.text.as_bytes().to_vec();
    data.push(7);
    let expected: [u8; 32] = Sha256::digest(&data).into();
    assert_eq!(n.content_hash(), expected);
}

#[test]
fn dedup_set_counts_distinct_hashes() {
    let mut d = DedupSet::new();
    assert!(d.is_empty());
    assert!(d.insert_new([1u8; 32]));
    assert!(d.insert_new([2u8; 32]));
    assert!(!d.insert_new([1u8; 32]));
    assert_eq!(d.len(), 2);
    assert!(!d.is_empty());
}

// ── Text ─────────────────────────────────────────────────────────────

#[test]
fn normalize_treats_unicode_spaces_as_whitespace() {
    let s = "alpha\u{2003}beta\t\tgamma\u{3000}".to_string();
    assert_eq!(normalize_arxiv_summary(s), "alpha beta gamma");
}

#[test]
fn safe_truncate_edges() {
    assert_eq!(safe_truncate("hello", 10), "hello");
    assert_eq!(safe_truncate("hello", 5), "hello");
    assert_eq!(safe_truncate("hello", 0), "");
    assert_eq!(safe_truncate("abc—def", 5), "abc");
    assert_eq!(safe_truncate("abc—def", 6), "abc—");
}

#[test]
fn chunks_meet_the_minimum_and_merge_sentences() {
    let text = "Short one. Another short sentence here. A third sentence to pad things out.";
    let chunks = chunk_text(text);
    assert_eq!(chunks, vec![text.to_string()]);
    assert!(chunk_text("Tiny. Bits.").is_empty());
}

// ── Topics ───────────────────────────────────────────────────────────

#[test]
fn distributions_add_up_to_the_list_lengths() {
    let g = grokipedia::distribution();
    assert_eq!(g.iter().sum::<usize>(), grokipedia::SEED_TOPICS.len());
    assert_eq!(g[0], 0);
    let a = arxiv::distribution();
    assert_eq!(a.iter().sum::<usize>(), arxiv::SEED_TOPICS.len());
    assert_eq!(a[0], 0);
    let w = wikipedia::distribution();
    assert_eq!(w.iter().sum::<usize>(), wikipedia::SEED_TOPICS.len());
    assert_eq!(w[SephirotDomain::Keter.index() as usize], 15);
}

#[test]
fn rotation_wraps_around() {
    let n = wikipedia::SEED_TOPICS.len();
    let r = wikipedia::rotated_topics(n + 3);
    assert_eq!(r[0], wikipedia::SEED_TOPICS[3]);
    assert_eq!(r[n - 3], wikipedia::SEED_TOPICS[0]);
    assert_eq!(wikipedia::rotated_topics(n), wikipedia::SEED_TOPICS.to_vec());
}

// ── Rate limiting ────────────────────────────────────────────────────

#[test]
fn backoff_doubles_from_five_seconds_to_the_ceiling() {
    let expected = [5_000, 5_000, 10_000, 20_000, 40_000, 80_000, 160_000, 300_000, 300_000];
    for (t, ms) in expected.iter().enumerate() {
        assert_eq!(backoff_for(t as u32), *ms);
    }
    assert_eq!(backoff_for(u32::MAX), BACKOFF_MAX_MS);
}

#[test]
fn successive_slots_are_three_seconds_apart() {
    let mut s = RateLimitState::new(10_000);
    assert_eq!(s.acquire_slot(10_000), 0);
    assert_eq!(s.acquire_slot(10_000), 3_000);
    assert_eq!(s.acquire_slot(11_000), 5_000);
    assert_eq!(s.next_allowed_ms, 19_000);
    assert_eq!(s.acquire_slot(30_000), 0);
    assert_eq!(s.next_allowed_ms, 33_000);
}

#[test]
fn throttle_never_pulls_the_next_slot_in() {
    let mut s = RateLimitState::new(0);
    s.next_allowed_ms = 100_000;
    s.note_throttle(1_000, Some(2));
    assert_eq!(s.next_allowed_ms, 100_000);
    assert_eq!(s.consecutive_throttles, 1);
    s.consecutive_throttles = u32::MAX;
    s.note_throttle(1_000, None);
    assert_eq!(s.consecutive_throttles, u32::MAX);
    assert_eq!(s.next_allowed_ms, 301_000);
}

// ── Headers ──────────────────────────────────────────────────────────

#[test]
fn retry_after_forms() {
    assert_eq!(parse_retry_after_seconds(Some(b"+9".as_slice())), Some(9));
    assert_eq!(parse_retry_after_seconds(Some(b"\t42\t".as_slice())), Some(42));
    assert_eq!(parse_retry_after_seconds(Some(b"".as_slice())), None);
    assert_eq!(parse_retry_after_seconds(Some(b"18446744073709551616".as_slice())), None);
    assert_eq!(parse_retry_after_seconds(Some(b"1\n".as_slice())), None);
    assert_eq!(submit_retry_after(Some(b"7".as_slice())), 7);
    assert_eq!(submit_retry_after(Some(b" 7".as_slice())), 5);
    assert_eq!(submit_retry_after(Some(b"soon".as_slice())), 5);
    assert_eq!(submit_retry_after(None), 5);
}

// ── Errors ───────────────────────────────────────────────────────────

#[test]
fn error_messages() {
    assert_eq!(SeederError::Exhausted.describe(), "source exhausted");
    assert_eq!(SeederError::Transport("timed out".to_string()).describe(), "transport: timed out");
    assert_eq!(SeederError::RateLimited { retry_after_secs: 12 }.describe(), "rate limited; retry after 12s");
    assert_eq!(SeederError::Other("bad".to_string()).describe(), "other: bad");
}

// ── Worker ───────────────────────────────────────────────────────────

#[test]
fn worker_config_defaults() {
    let c = WorkerConfig::default();
    assert_eq!(c.agent_id, 0);
    assert_eq!(c.base_url, "http://127.0.0.1:5003");
    assert_eq!(c.admin_key, "");
    assert_eq!(c.batch_size, 50);
    assert_eq!(c.max_batches, None);
    assert_eq!(c.request_timeout_ms, 30_000);
    assert_eq!(c.inter_batch_pause_ms, 500);
    let s = WorkerStats::default();
    assert_eq!((s.batches_attempted, s.nodes_submitted, s.nodes_accepted), (0, 0, 0));
}

#[test]
fn worker_counts_and_stops_at_the_batch_limit() {
    let config = WorkerConfig { agent_id: 4, max_batches: Some(2), ..WorkerConfig::default() };
    let mut w = Worker::new(config);
    assert_eq!(w.stats().agent_id, 4);
    assert!(w.wants_batch());
    assert!(matches!(w.on_fetch(Ok(10)), FetchStep::Submit));
    assert!(matches!(w.on_submit(SubmitOutcome::Accepted { nodes_accepted: Some(8) }), SubmitStep::Done(Pause::NoWait)));
    assert!(w.wants_batch());
    assert!(matches!(w.on_fetch(Ok(5)), FetchStep::Submit));
    assert!(matches!(w.on_submit(SubmitOutcome::Accepted { nodes_accepted: None }), SubmitStep::Done(Pause::NoWait)));
    assert!(!w.wants_batch());
    let s = w.finish();
    assert_eq!(s.batches_attempted, 2);
    assert_eq!(s.nodes_submitted, 15);
    assert_eq!(s.nodes_accepted, 13);
}

#[test]
fn worker_stops_on_empty_or_exhausted() {
    let mut w = Worker::new(WorkerConfig::default());
    assert!(matches!(w.on_fetch(Ok(0)), FetchStep::Stop));
    assert!(matches!(w.on_fetch(Err(SeederError::Exhausted)), FetchStep::Stop));
    assert_eq!(w.stats().batches_attempted, 0);
}

#[test]
fn worker_backoff_doubles_to_thirty_seconds_and_resets() {
    let mut w = Worker::new(WorkerConfig::default());
    let mut waits = Vec::new();
    for _ in 0..9 {
        match w.on_fetch(Err(SeederError::Transport("down".to_string()))) {
            FetchStep::Retry { wait_ms } => waits.push(wait_ms),
            _ => panic!("expected a retry"),
        }
    }
    assert_eq!(waits, vec![250, 500, 1_000, 2_000, 4_000, 8_000, 16_000, 30_000, 30_000]);
    assert!(matches!(w.on_fetch(Ok(1)), FetchStep::Submit));
    assert!(matches!(w.on_submit(SubmitOutcome::Unreachable), SubmitStep::Done(Pause::Millis(30_000))));
    assert!(matches!(w.on_fetch(Ok(1)), FetchStep::Submit));
    assert!(matches!(w.on_submit(SubmitOutcome::Accepted { nodes_accepted: Some(1) }), SubmitStep::Done(Pause::NoWait)));
    assert!(matches!(w.on_fetch(Ok(1)), FetchStep::Submit));
    assert!(matches!(w.on_submit(SubmitOutcome::Rejected), SubmitStep::Done(Pause::Millis(250))));
    assert_eq!(w.stats().transport_errors, 2);
}

#[test]
fn worker_resubmits_the_same_batch_after_429() {
    let mut w = Worker::new(WorkerConfig::default());
    assert!(matches!(w.on_fetch(Ok(3)), FetchStep::Submit));
    let p = w.on_submit(SubmitOutcome::RateLimited { retry_after: Some(b"17".to_vec()) });
    assert!(matches!(p, SubmitStep::Resubmit { wait_secs: 17, batch_len: 3 }));
    let p = w.on_submit(SubmitOutcome::RateLimited { retry_after: None });
    assert!(matches!(p, SubmitStep::Resubmit { wait_secs: 5, batch_len: 3 }));
    assert!(matches!(w.on_submit(SubmitOutcome::Accepted { nodes_accepted: None }), SubmitStep::Done(Pause::NoWait)));
    let s = w.finish();
    assert_eq!(s.rate_limit_hits, 2);
    assert_eq!(s.batches_attempted, 1);
    assert_eq!(s.nodes_submitted, 3);
    assert_eq!(s.nodes_accepted, 3);
}

// ── Swarm ────────────────────────────────────────────────────────────

#[test]
fn source_names() {
    assert_eq!(parse_source("placeholder"), Ok(SourceSpec::Placeholder));
    assert_eq!(parse_source("grokipedia"), Ok(SourceSpec::Grokipedia));
    assert_eq!(parse_source("wikipedia"), Ok(SourceSpec::Wikipedia));
    assert_eq!(parse_source("wikipedia-random"), Ok(SourceSpec::WikipediaRandom { pool: 500 }));
    assert_eq!(parse_source("wikipedia-random:1000"), Ok(SourceSpec::WikipediaRandom { pool: 1000 }));
    assert_eq!(parse_source("wikipedia-random:lots"), Ok(SourceSpec::WikipediaRandom { pool: 500 }));
    assert_eq!(parse_source("arxiv"), Ok(SourceSpec::Arxiv));
    assert_eq!(parse_source("arxiv-recent"), Ok(SourceSpec::ArxivRecent));
    assert_eq!(parse_source("gutenberg"), Ok(SourceSpec::Gutenberg { books_per_topic: 30 }));
    assert_eq!(parse_source("gutenberg:5"), Ok(SourceSpec::Gutenberg { books_per_topic: 5 }));
    assert_eq!(parse_source("stackexchange"), Ok(SourceSpec::StackExchange));
    assert_eq!(parse_source("huggingface-fineweb"), Ok(SourceSpec::FineWeb));
    assert_eq!(parse_source("fineweb"), Ok(SourceSpec::FineWeb));
    assert_eq!(parse_source("placeholder:9"), Ok(SourceSpec::Placeholder));
    assert_eq!(parse_source("dbpedia:3"), Err("dbpedia".to_string()));
    assert_eq!(parse_source(""), Err(String::new()));
}

#[test]
fn swarm_configs_number_the_workers() {
    let v = swarm_configs(3, &"http://h:1".to_string(), &"k".to_string(), 25, Some(2));
    assert_eq!(v.len(), 3);
    for (i, c) in v.iter().enumerate() {
        assert_eq!(c.agent_id, i);
        assert_eq!(c.base_url, "http://h:1");
        assert_eq!(c.admin_key, "k");
        assert_eq!(c.batch_size, 25);
        assert_eq!(c.max_batches, Some(2));
        assert_eq!(c.request_timeout_ms, 30_000);
        assert_eq!(c.inter_batch_pause_ms, 500);
    }
}

#[test]
fn swarm_totals_add_up() {
    let mut t = SwarmTotals::new();
    let a = WorkerStats { agent_id: 0, batches_attempted: 2, nodes_submitted: 20, nodes_accepted: 18, rate_limit_hits: 1, transport_errors: 0 };
    let b = WorkerStats { agent_id: 1, batches_attempted: 1, nodes_submitted: 5, nodes_accepted: 5, rate_limit_hits: 0, transport_errors: 3 };
    t.absorb(&a);
    t.absorb(&b);
    assert_eq!((t.total_submitted, t.total_accepted, t.total_429, t.total_errors, t.workers_reported), (25, 23, 1, 3, 2));
}

#[test]
fn placeholder_numbers_nodes_and_stops_at_the_cap() {
    let mut p = PlaceholderSource::new(12);
    let first = p.fetch_batch(10);
    assert_eq!(first.len(), 10);
    assert_eq!(first[3].text, "[placeholder #3] real seeder must replace this with curated knowledge from a content source (Grokipedia, ArXiv, Wikipedia dump).");
    assert_eq!(first[3].source, "placeholder:#3");
    assert_eq!(first[3].domain, SephirotDomain::Chesed);
    assert_eq!(first[3].confidence_permille, 500);
    let second = p.fetch_batch(10);
    assert_eq!(second.len(), 2);
    assert_eq!(second[0].source, "placeholder:#10");
    assert_eq!(second[0].domain, SephirotDomain::Keter);
    assert!(p.fetch_batch(10).is_empty());
    assert_eq!(PlaceholderSource::new(PLACEHOLDER_CAP).cap, 2000);
}

// ── Source preparation ───────────────────────────────────────────────

#[test]
fn offset_plan_saturates_and_rejects_zero() {
    assert_eq!(offset_plan(0, 100, 250).ok(), Some(vec![0, 100]));
    assert_eq!(offset_plan(0, 100, 300).ok(), Some(vec![0, 100, 200]));
    assert_eq!(offset_plan(u64::MAX - 10, 100, 200).ok(), Some(vec![u64::MAX - 10, u64::MAX]));
    assert_eq!(offset_plan(5, 10, 0).ok(), Some(vec![]));
    assert_eq!(offset_plan(5, 10, 9).ok(), Some(vec![]));
    match offset_plan(0, 0, 100) {
        Err(SeederError::Other(m)) => assert_eq!(m, "count_per_call must be > 0"),
        _ => panic!("expected the zero-count error"),
    }
}

#[test]
fn wikipedia_extract_is_cleaned_and_titled() {
    let extract = "== Intro ==\n\nIntro text\there with enough words to pass the one hundred byte threshold easily, surely.".to_string();
    let out = prepare_wikipedia_extract("Gödel's_theorem", None, Some(extract)).unwrap();
    assert_eq!(out, "Gödel's theorem\n\n  Intro   Intro text here with enough words to pass the one hundred byte threshold easily, surely.");
    assert_eq!(prepare_wikipedia_extract("x", Some("X".to_string()), Some("short".to_string())), None);
    assert_eq!(prepare_wikipedia_extract("x", None, None), None);
}

#[test]
fn arxiv_abstract_is_normalized_and_titled() {
    let xml = "<feed><entry><title> A Title </title><summary>\n  We study   things.\nMany things, over many lines, to make a summary that is long enough to keep, we hope.\n</summary></entry></feed>";
    let out = prepare_arxiv_abstract("1234.5678", xml).unwrap();
    assert_eq!(out, "A Title\n\nWe study things. Many things, over many lines, to make a summary that is long enough to keep, we hope.");
    assert_eq!(prepare_arxiv_abstract("1234.5678", "<feed><entry><summary>too short</summary></entry></feed>"), None);
    let untitled = "<summary>We study things. Many things, over many lines, to make a summary that is long enough to keep, we hope.</summary>";
    assert!(prepare_arxiv_abstract("1234.5678", untitled).unwrap().starts_with("1234.5678\n\n"));
}

#[test]
fn book_text_keeps_the_body_only() {
    let body = "Chapter one.\r\n\r\nIt was a dark night.\tThe end came soon.\n\n".repeat(20);
    let raw = format!("header\n*** START OF THIS PROJECT GUTENBERG EBOOK X ***\n{}*** END OF THIS PROJECT GUTENBERG EBOOK X ***\nlicense", body);
    let out = prepare_book_text("A Book", &raw).unwrap();
    assert!(out.starts_with("A Book\n\nChapter one."));
    assert!(!out.contains("header") && !out.contains("license") && !out.contains('\r') && !out.contains('\t'));
    assert_eq!(prepare_book_text("A Book", "*** START OF THE PROJECT GUTENBERG X ***\nshort\n"), None);
}

#[test]
fn book_entries_and_urls() {
    let books = vec![
        GutendexBook { id: 11, title: Some("Alice".to_string()), formats: vec![("text/plain; charset=us-ascii".to_string(), "http://a/11.txt".to_string())] },
        GutendexBook { id: 12, title: None, formats: vec![("text/html".to_string(), "http://a/12.html".to_string())] },
        GutendexBook { id: 13, title: None, formats: vec![] },
    ];
    let entries = book_entries(&books, 2);
    assert_eq!(entries.len(), 2);
    assert_eq!(entries[0].title, "Alice");
    assert_eq!(entries[0].text_url, "http://a/11.txt");
    assert_eq!(entries[0].domain, SephirotDomain::from_hash("gutenberg:11"));
    assert_eq!(entries[1].title, "PG#12");
    assert_eq!(entries[1].text_url, "");
    assert_eq!(book_text_url(&entries[1], "https://pg"), "https://pg/12/pg12.txt");
    assert_eq!(book_text_url(&entries[0], "https://pg"), "http://a/11.txt");
}

#[test]
fn question_entries_combine_title_tags_and_body() {
    let items = vec![
        SeQuestion {
            question_id: 77,
            title: Some("Why is the sky blue?".to_string()),
            body: Some("<p>Light &amp; air: Rayleigh scattering makes shorter wavelengths scatter more strongly.</p>".to_string()),
            tags: vec!["optics".to_string(), "atmosphere".to_string()],
        },
        SeQuestion { question_id: 78, title: Some("Tiny".to_string()), body: Some("<p>x</p>".to_string()), tags: vec![] },
    ];
    let entries = question_entries("physics", &items).unwrap();
    assert_eq!(entries.len(), 1);
    assert_eq!(entries[0].question_id, 77);
    assert_eq!(entries[0].site, "physics");
    assert_eq!(entries[0].text, "Why is the sky blue?\n\nTags: optics, atmosphere\n\nLight & air: Rayleigh scattering makes shorter wavelengths scatter more strongly.");
    assert_eq!(entries[0].domain, SephirotDomain::from_hash("physics:77"));
}

// ── Refills ──────────────────────────────────────────────────────────

#[test]
fn grokipedia_refill_queues_attributed_chunks() {
    let mut q: SourceQueue<(&'static str, SephirotDomain)> = SourceQueue::new(Vec::new());
    let html = format!("<html><article><p>{}</p></article></html>", long_text());
    refill_grokipedia(&mut q, "Some_topic", SephirotDomain::Hod, Some(&html));
    let out = drain(&mut q, 10);
    assert_eq!(out.len(), 1);
    assert!(out[0].text.starts_with("Some topic\n\nThe first sentence"));
    assert_eq!(out[0].source, "grokipedia:Some_topic");
    assert_eq!(out[0].domain, SephirotDomain::Hod);
    assert_eq!(out[0].confidence_permille, 900);
    refill_grokipedia(&mut q, "Some_topic", SephirotDomain::Hod, Some(&html));
    assert!(drain(&mut q, 10).is_empty());
    refill_grokipedia(&mut q, "Other", SephirotDomain::Hod, Some("<article>too short</article>"));
    refill_grokipedia(&mut q, "Other", SephirotDomain::Hod, None);
    assert!(drain(&mut q, 10).is_empty());
}

#[test]
fn wikipedia_refill_uses_the_page_title() {
    let mut q: SourceQueue<(&'static str, SephirotDomain)> = SourceQueue::new(Vec::new());
    let page = WikiPage { title: Some("Entropy".to_string()), extract: Some(long_text()) };
    refill_wikipedia(&mut q, "Entropy_(physics)", SephirotDomain::Malkuth, Some(page));
    let out = drain(&mut q, 10);
    assert_eq!(out.len(), 1);
    assert!(out[0].text.starts_with("Entropy\n\nThe first sentence"));
    assert_eq!(out[0].source, "wikipedia:Entropy_(physics)");
    assert_eq!(out[0].confidence_permille, 920);
    refill_wikipedia(&mut q, "Entropy_(physics)", SephirotDomain::Malkuth, None);
    assert!(drain(&mut q, 10).is_empty());
}

#[test]
fn arxiv_refill_requeues_throttled_papers() {
    let mut q: SourceQueue<(&'static str, SephirotDomain)> = SourceQueue::new(vec![("2000.00002", SephirotDomain::Binah)]);
    let mut limiter = RateLimitState::new(0);
    refill_arxiv(&mut q, &mut limiter, ("2000.00001", SephirotDomain::Hod), 1_000, ArxivReply::Throttled { retry_after: Some(b"30".to_vec()) });
    assert_eq!(limiter.consecutive_throttles, 1);
    assert_eq!(limiter.next_allowed_ms, 31_000);
    let mut out = Vec::new();
    match q.poll_batch(&mut out, 5) {
        BatchStep::Fetch(t) => assert_eq!(t, ("2000.00001", SephirotDomain::Hod)),
        BatchStep::Ready => panic!("throttled paper lost"),
    }
    refill_arxiv(&mut q, &mut limiter, ("2000.00001", SephirotDomain::Hod), 40_000, ArxivReply::Failed);
    assert_eq!(limiter.consecutive_throttles, 1);
    let xml = format!("<entry><title>Paper</title><summary>{}</summary></entry>", long_text());
    refill_arxiv(&mut q, &mut limiter, ("2000.00001", SephirotDomain::Hod), 40_000, ArxivReply::Xml(xml));
    assert_eq!(limiter.consecutive_throttles, 0);
    let mut out = Vec::new();
    match q.poll_batch(&mut out, 5) {
        BatchStep::Fetch(t) => assert_eq!(t, ("2000.00002", SephirotDomain::Binah)),
        BatchStep::Ready => panic!("second paper lost"),
    }
    assert_eq!(out.len(), 1);
    assert_eq!(out[0].source, "arxiv:2000.00001");
    assert_eq!(out[0].confidence_permille, 950);
    assert!(out[0].text.starts_with("Paper\n\nThe first sentence"));
}

#[test]
fn arxiv_recent_and_gutenberg_refills() {
    let mut q: SourceQueue<(String, SephirotDomain)> = SourceQueue::new(Vec::new());
    let xml = format!("<entry><title>T</title><summary>{}</summary></entry>", long_text());
    refill_arxiv_recent(&mut q, "2401.00001", SephirotDomain::Yesod, Some(&xml));
    let out = drain(&mut q, 10);
    assert_eq!(out.len(), 1);
    assert_eq!(out[0].source, "arxiv-recent:2401.00001");
    assert_eq!(out[0].confidence_permille, 940);

    let mut b: SourceQueue<BookEntry> = SourceQueue::new(Vec::new());
    let entry = BookEntry { id: 5, title: "Five".to_string(), domain: SephirotDomain::Tiferet, text_url: String::new() };
    let raw = format!("*** START OF THE PROJECT GUTENBERG EBOOK ***\n{}\n*** END OF THE PROJECT GUTENBERG EBOOK ***", long_text().repeat(5));
    refill_gutenberg(&mut b, &entry, Some(&raw));
    let out = drain(&mut b, 100);
    assert!(!out.is_empty());
    assert!(out.iter().all(|n| n.source == "gutenberg:5" && n.confidence_permille == 900 && n.domain == SephirotDomain::Tiferet));
    refill_gutenberg(&mut b, &entry, None);
    assert!(drain(&mut b, 100).is_empty());
}

#[test]
fn stackexchange_batches_never_repeat() {
    let mk = |id: u64, text: &str| QuestionEntry { question_id: id, site: "math".to_string(), text: text.to_string(), domain: SephirotDomain::Binah };
    let text = long_text();
    let entries = vec![mk(1, &text), mk(2, &text), mk(3, "Another question entirely, with its own wording and enough length to count.")];
    let mut q = SourceQueue::new(entries);
    let first = stackexchange_fetch_batch(&mut q, 1);
    assert_eq!(first.len(), 1);
    assert_eq!(first[0].source, "stackexchange:math:1");
    assert_eq!(first[0].confidence_permille, 880);
    let second = stackexchange_fetch_batch(&mut q, 5);
    assert_eq!(second.len(), 1);
    assert_eq!(second[0].source, "stackexchange:math:3");
    assert!(stackexchange_fetch_batch(&mut q, 5).is_empty());

    let mut single: SourceQueue<QuestionEntry> = SourceQueue::new(Vec::new());
    refill_stackexchange(&mut single, &mk(9, &text));
    assert_eq!(drain(&mut single, 3).len(), 1);
}

#[test]
fn fineweb_rows_are_filtered_and_attributed() {
    let mut q: SourceQueue<u64> = SourceQueue::new(Vec::new());
    let rows = vec![
        HfRow { row_idx: 3, text: Some(long_text()), url: Some("https://example.org/a".to_string()) },
        HfRow { row_idx: 4, text: Some("   too short   ".to_string()), url: None },
        HfRow { row_idx: 5, text: None, url: None },
    ];
    ingest_rows(&mut q, &rows);
    let out = drain(&mut q, 10);
    assert_eq!(out.len(), 1);
    assert_eq!(out[0].source, "huggingface-fineweb:3");
    assert_eq!(out[0].domain, SephirotDomain::from_hash("https://example.org/a"));
    assert_eq!(out[0].confidence_permille, 850);
}

#[test]
fn forgetting_emitted_lets_content_through_again() {
    let mut q: SourceQueue<(&'static str, SephirotDomain)> = SourceQueue::new(Vec::new());
    let chunks = chunk_text(&long_text());
    let source = "test:passage".to_string();
    q.ingest_chunks(&chunks, SephirotDomain::Binah, &source, 900);
    assert_eq!(drain(&mut q, 10).len(), 1);
    q.ingest_chunks(&chunks, SephirotDomain::Binah, &source, 900);
    assert!(drain(&mut q, 10).is_empty());
    q.forget_emitted();
    q.ingest_chunks(&chunks, SephirotDomain::Binah, &source, 900);
    assert_eq!(drain(&mut q, 10).len(), 1);
}

#[test]
fn service_urls_drop_trailing_slashes() {
    assert_eq!(aether_seeder::refill::article_url("https://grokipedia.com/", "Quantum_computing"), "https://grokipedia.com/page/Quantum_computing");
    assert_eq!(aether_seeder::refill::article_url("https://grokipedia.com", "X"), "https://grokipedia.com/page/X");
    assert_eq!(aether_seeder::worker::sync_url("http://127.0.0.1:5003//"), "http://127.0.0.1:5003/aether/knowledge/sync");
}

#[test]
fn hf_token_prefers_a_non_blank_environment_value() {
    assert_eq!(aether_seeder::sources::hf_auth_header(Some("  tok \n".to_string()), Some("file".to_string())), Some("Bearer tok".to_string()));
    assert_eq!(aether_seeder::sources::hf_auth_header(Some("   ".to_string()), Some("ftok\n".to_string())), Some("Bearer ftok".to_string()));
    assert_eq!(aether_seeder::sources::hf_auth_header(None, Some("  ".to_string())), None);
    assert_eq!(aether_seeder::sources::hf_auth_header(None, None), None);
}

#[test]
fn keys_are_routed_by_their_hash() {
    let v = aether_seeder::refill::route_by_hash(vec!["2401.00001".to_string(), "Entropy".to_string()]);
    assert_eq!(v.len(), 2);
    assert_eq!(v[0], ("2401.00001".to_string(), SephirotDomain::from_hash("2401.00001")));
    assert_eq!(v[1], ("Entropy".to_string(), SephirotDomain::from_hash("Entropy")));
}

#[test]
fn poll_hands_out_at_most_n_nodes() {
    let mut q: SourceQueue<(&'static str, SephirotDomain)> = SourceQueue::new(vec![("next", SephirotDomain::Hod)]);
    let source = "s".to_string();
    q.ingest_chunks(&chunk_text(&long_text()), SephirotDomain::Hod, &source, 900);
    let mut out = Vec::new();
    assert!(matches!(q.poll_batch(&mut out, 0), BatchStep::Ready));
    assert!(out.is_empty());
    assert!(matches!(q.poll_batch(&mut out, 1), BatchStep::Ready));
    assert_eq!(out.len(), 1);
    assert!(matches!(q.poll_batch(&mut out, 1), BatchStep::Ready));
    assert_eq!(out.len(), 1);
}

#[test]
fn paced_polls_book_slots_three_seconds_apart() {
    let mut q: SourceQueue<u64> = SourceQueue::new(vec![1, 2]);
    let mut ledger = RateLimitState::new(1_000);
    let mut out = Vec::new();
    match aether_seeder::refill::poll_paced(&mut q, &mut ledger, &mut out, 5, 1_000) {
        aether_seeder::refill::PacedStep::Fetch { item, wait_ms } => assert_eq!((item, wait_ms), (1, 0)),
        aether_seeder::refill::PacedStep::Ready => panic!("expected a fetch"),
    }
    match aether_seeder::refill::poll_paced(&mut q, &mut ledger, &mut out, 5, 1_500) {
        aether_seeder::refill::PacedStep::Fetch { item, wait_ms } => assert_eq!((item, wait_ms), (2, 2_500)),
        aether_seeder::refill::PacedStep::Ready => panic!("expected a fetch"),
    }
    assert!(matches!(aether_seeder::refill::poll_paced(&mut q, &mut ledger, &mut out, 5, 2_000), aether_seeder::refill::PacedStep::Ready));
    assert_eq!(ledger.next_allowed_ms, 7_000);
}

#[test]
fn dedup_len_counts_distinct_inserts() {
    let mut d = DedupSet::default();
    let mut fresh = 0;
    for h in [[1u8; 32], [2u8; 32], [1u8; 32], [3u8; 32], [2u8; 32]] {
        if d.insert_new(h) {
            fresh += 1;
        }
        assert!(!d.is_empty());
    }
    assert_eq!(d.len(), 3);
    assert_eq!(fresh, 3);
}

#[test]
fn whitespace_matches_std_on_every_char() {
    for u in 0u32..=0x10FFFF {
        if let Some(c) = char::from_u32(u) {
            assert_eq!(aether_seeder::text::is_whitespace(c), c.is_whitespace(), "U+{:04X}", u);
        }
    }
}

#[test]
fn article_title_step() {
    assert_eq!(aether_seeder::clean::title_article("  body text \n", "A_b_c"), "A b c\n\nbody text");
}

#[test]
fn exhausted_source_stays_exhausted() {
    let mut q: SourceQueue<u64> = SourceQueue::new(Vec::new());
    let mut out = Vec::new();
    assert!(matches!(q.poll_batch(&mut out, 4), BatchStep::Ready));
    assert!(out.is_empty());
    for m in [1usize, 10, 100] {
        assert!(matches!(q.poll_batch(&mut out, m), BatchStep::Ready));
        assert!(out.is_empty());
    }
}

#[test]
fn chunks_are_trimmed_runs_of_sentences() {
    let text = "  First sentence here, long enough to matter.   Second one follows it closely!\n\nThird closes.  ";
    let chunks = chunk_text(text);
    assert_eq!(chunks, vec!["First sentence here, long enough to matter. Second one follows it closely! Third closes.".to_string()]);
    for c in &chunks {
        assert_eq!(c.trim(), c);
    }
}
