use aether_seeder::chunk::{chunk_text, safe_truncate, CHUNK_MAX_CHARS, CHUNK_MIN_CHARS};
use aether_seeder::clean::{extract_clean_text, first_match, normalize_arxiv_summary, rss_ids, strip_html, RE_ENTRY_TITLE, RE_SUMMARY};
use aether_seeder::domain::SephirotDomain;
use aether_seeder::header::parse_retry_after_seconds;
use aether_seeder::node::{DedupSet, SeedNode};
use aether_seeder::pipeline::{BatchStep, SourceQueue};
use aether_seeder::ratelimit::{RateLimitState, BACKOFF_BASE_MS, MIN_REQUEST_INTERVAL_MS};
use aether_seeder::sources::{pick_text_url, strip_pg_boilerplate};
use aether_seeder::topics::{arxiv, grokipedia, wikipedia};
use reqwest::header::HeaderValue;

#[test]
fn content_hash_is_stable_for_text_and_domain() {
    let a = SeedNode {
        text: "Quantum entanglement is a phenomenon".to_string(),
        domain: SephirotDomain::Chochmah,
        source: "grokipedia:quantum_entanglement".to_string(),
        confidence_permille: 900,
    };
    let b = SeedNode {
        text: a.text.clone(),
        domain: a.domain,
        source: "different_source".to_string(),
        confidence_permille: 500,
    };
    assert_eq!(a.content_hash(), b.content_hash());
}

#[test]
fn content_hash_differs_per_domain() {
    let a = SeedNode {
        text: "Same text".to_string(),
        domain: SephirotDomain::Chochmah,
        source: "x".to_string(),
        confidence_permille: 1000,
    };
    let b = SeedNode {
        text: a.text.clone(),
        domain: SephirotDomain::Binah,
        source: a.source.clone(),
        confidence_permille: a.confidence_permille,
    };
    assert_ne!(a.content_hash(), b.content_hash());
}

#[test]
fn dedup_set_rejects_repeats() {
    let mut d = DedupSet::default();
    let h = [0u8; 32];
    assert!(d.insert_new(h));
    assert!(!d.insert_new(h));
    assert_eq!(d.len(), 1);
}

#[test]
fn lib_fetch_batch_empty_on_exhausted_worklist() {
    let mut q: SourceQueue<(&'static str, SephirotDomain)> = SourceQueue::new(Vec::new());
    let mut out = Vec::new();
    assert!(matches!(q.poll_batch(&mut out, 0), BatchStep::Ready));
    assert!(out.is_empty());
    let mut out = Vec::new();
    assert!(matches!(q.poll_batch(&mut out, 10), BatchStep::Ready));
    assert!(out.is_empty());
}

#[test]
fn rss_link_regex_extracts_id() {
    let xml = r#"<item>
            <title>Some Paper</title>
            <link>http://arxiv.org/abs/2401.12345v1</link>
            </item>"#;
    let caps = rss_ids(xml).unwrap();
    assert_eq!(caps, vec!["2401.12345"]);
}

#[test]
fn normalize_collapses_whitespace_and_newlines() {
    let s = "Line one\n   has wrapping.\nLine two has  spaces.".to_string();
    assert_eq!(normalize_arxiv_summary(s), "Line one has wrapping. Line two has spaces.");
}

#[test]
fn first_match_extracts_entry_title() {
    let xml = r#"<?xml version="1.0"?><feed>
            <title>arXiv Query</title>
            <entry><title>Attention Is All You Need</title>
            <summary>We propose...</summary></entry>
            </feed>"#;
    assert_eq!(first_match(xml, RE_ENTRY_TITLE).as_deref(), Some("Attention Is All You Need"));
    assert_eq!(first_match(xml, RE_SUMMARY).as_deref(), Some("We propose..."));
}

#[test]
fn safe_truncate_handles_multibyte() {
    let s = "abc—def";
    let truncated = safe_truncate(s, 4);
    assert!(truncated.chars().all(|c| c.is_ascii() || c == '—' || c == 'a' || c == 'b' || c == 'c'));
    assert!(truncated.is_char_boundary(truncated.len()));
}

#[test]
fn topics_has_breadth() {
    assert!(arxiv::SEED_TOPICS.len() >= 40);
}

#[test]
fn parse_retry_after_seconds_handles_valid_integers() {
    let v = HeaderValue::from_static("120");
    assert_eq!(parse_retry_after_seconds(Some(v.as_bytes())), Some(120));
    let v = HeaderValue::from_static("  5  ");
    assert_eq!(parse_retry_after_seconds(Some(v.as_bytes())), Some(5));
}

#[test]
fn parse_retry_after_seconds_none_for_malformed_or_missing() {
    assert_eq!(parse_retry_after_seconds(None), None);
    let v = HeaderValue::from_static("Fri, 31 Dec 2026 23:59:59 GMT");
    assert_eq!(parse_retry_after_seconds(Some(v.as_bytes())), None);
    let v = HeaderValue::from_static("not-a-number");
    assert_eq!(parse_retry_after_seconds(Some(v.as_bytes())), None);
}

#[test]
fn acquire_advances_next_allowed_by_min_interval() {
    let before: u64 = 1_000_000;
    let mut state = RateLimitState::new(before);
    let wait = state.acquire_slot(before);
    assert_eq!(wait, 0);
    let gap = state.next_allowed_ms - before;
    assert!(gap >= MIN_REQUEST_INTERVAL_MS - 500, "gap too small: {:?}", gap);
    assert!(gap <= MIN_REQUEST_INTERVAL_MS + 500, "gap too large: {:?}", gap);
}

#[test]
fn note_throttle_uses_retry_after_when_present() {
    let t0: u64 = 1_000_000;
    let mut state = RateLimitState::new(t0);
    state.note_throttle(t0, Some(7));
    assert_eq!(state.consecutive_throttles, 1);
    assert!(state.next_allowed_ms >= t0 + 7_000);
    assert!(state.next_allowed_ms <= t0 + 8_000);
}

#[test]
fn note_throttle_exponential_backoff_without_retry_after() {
    let t0: u64 = 1_000_000;
    let mut state = RateLimitState::new(t0);
    state.note_throttle(t0, None);
    assert_eq!(state.consecutive_throttles, 1);
    assert!(state.next_allowed_ms >= t0 + BACKOFF_BASE_MS);
    assert!(state.next_allowed_ms <= t0 + BACKOFF_BASE_MS + 500);
    let t1: u64 = t0 + 200;
    state.note_throttle(t1, None);
    assert_eq!(state.consecutive_throttles, 2);
    assert!(state.next_allowed_ms >= t1 + 10_000);
    state.note_success();
    assert_eq!(state.consecutive_throttles, 0);
}

#[test]
fn extract_clean_text_strips_html_and_boilerplate() {
    let html = r#"
            <html><head><title>x</title>
            <style>body{color:red}</style>
            <script>alert(1)</script>
            </head><body>
            <nav>Home Search</nav>
            <header>Banner</header>
            <article>
              <h1>Quantum Computing</h1>
              <p>Quantum computers exploit superposition.</p>
              <p>They use entanglement [1] as a resource.</p>
            </article>
            <footer>(C) 2026</footer>
            </body></html>
        "#;
    let out = extract_clean_text(html, "Quantum_computing").unwrap();
    assert!(out.starts_with("Quantum computing"), "missing headline: {}", out);
    assert!(!out.contains("alert(1)"), "script body leaked");
    assert!(!out.contains("Home Search"), "nav leaked");
    assert!(!out.contains("Banner"), "header leaked");
    assert!(!out.contains("(C) 2026"), "footer leaked");
    assert!(!out.contains("[1]"), "reference number leaked");
    assert!(out.contains("Quantum computers exploit superposition."));
}

#[test]
fn chunk_text_respects_max_chars_and_splits_on_sentence() {
    let long = "Sentence one. Sentence two! Sentence three? ".repeat(50);
    let chunks = chunk_text(&long);
    assert!(chunks.len() > 1, "expected multi-chunk output");
    for c in &chunks {
        assert!(c.len() <= CHUNK_MAX_CHARS + 50, "chunk too big: {} chars", c.len());
        assert!(c.len() >= CHUNK_MIN_CHARS, "chunk too small: {} chars", c.len());
    }
}

#[test]
fn chunk_text_drops_tiny_fragments() {
    let chunks = chunk_text("Hi.");
    assert!(chunks.is_empty(), "expected empty result for sub-min content");
}

#[test]
fn fetch_batch_returns_empty_when_worklist_exhausted() {
    let mut q: SourceQueue<(&'static str, SephirotDomain)> = SourceQueue::new(Vec::new());
    let mut batch = Vec::new();
    assert!(matches!(q.poll_batch(&mut batch, 10), BatchStep::Ready));
    assert!(batch.is_empty());
}

#[test]
fn deduplication_prevents_double_emission() {
    let mut q: SourceQueue<(&'static str, SephirotDomain)> = SourceQueue::new(Vec::new());
    let chunk = "This is a test passage repeated. ".repeat(20);
    let chunks = chunk_text(&chunk);
    assert!(!chunks.is_empty());
    let source = "test:passage".to_string();
    q.ingest_chunks(&chunks, SephirotDomain::Chochmah, &source, 900);
    let mut first = Vec::new();
    assert!(matches!(q.poll_batch(&mut first, 100), BatchStep::Ready));
    q.ingest_chunks(&chunks, SephirotDomain::Chochmah, &source, 900);
    let mut second = Vec::new();
    assert!(matches!(q.poll_batch(&mut second, 100), BatchStep::Ready));
    assert!(!first.is_empty());
    assert!(second.is_empty(), "dedup failed: second pass should be empty");
}

#[test]
fn topics_are_non_empty() {
    assert!(grokipedia::SEED_TOPICS.len() > 50, "expect at least 50 seed topics");
}

#[test]
fn every_topic_has_a_slug() {
    for (slug, _) in grokipedia::SEED_TOPICS {
        assert!(!slug.is_empty(), "empty slug in SEED_TOPICS");
        assert!(!slug.contains(' '), "slug `{}` contains space — should use underscore", slug);
    }
}

#[test]
fn most_sephirot_are_represented() {
    let d = grokipedia::distribution();
    let represented = d.iter().filter(|n| **n > 0).count();
    assert!(represented >= 8, "only {} Sephirot domains have topics: {:?}", represented, d);
}

#[test]
fn pg_header_and_footer_are_stripped() {
    let raw = "PG metadata blah\n\
               *** START OF THE PROJECT GUTENBERG EBOOK FOO ***\n\
               The actual book begins here.\n\
               Chapter one.\n\
               *** END OF THE PROJECT GUTENBERG EBOOK FOO ***\n\
               PG license blurb...";
    let stripped = strip_pg_boilerplate(raw);
    assert!(stripped.contains("The actual book begins here."));
    assert!(!stripped.contains("PG metadata blah"));
    assert!(!stripped.contains("PG license blurb"));
}

#[test]
fn pick_text_url_prefers_utf8() {
    let m = vec![
        ("text/plain".to_string(), "ascii".to_string()),
        ("text/plain; charset=utf-8".to_string(), "utf8".to_string()),
    ];
    assert_eq!(pick_text_url(&m).as_deref(), Some("utf8"));
}

#[test]
fn lib_chunk_text_respects_bounds() {
    let long = "Sentence one. Sentence two. Sentence three. ".repeat(40);
    let chunks = chunk_text(&long);
    assert!(chunks.len() > 1);
    for c in &chunks {
        assert!(c.len() <= CHUNK_MAX_CHARS + 50);
    }
}

#[test]
fn strip_html_handles_tags_and_entities() {
    let html = "<p>Hello &amp; <code>world</code>.</p>\n<pre>x &lt; y</pre>";
    let out = strip_html(html).unwrap();
    assert_eq!(out, "Hello & world . x < y");
}

#[test]
fn chunk_text_respects_bounds() {
    let long = "Sentence one. Sentence two! Sentence three? ".repeat(50);
    let chunks = chunk_text(&long);
    assert!(chunks.len() > 1);
    for c in &chunks {
        assert!(c.len() <= CHUNK_MAX_CHARS + 50);
        assert!(c.len() >= CHUNK_MIN_CHARS);
    }
}

#[test]
fn topics_module_compiles_and_is_non_trivial() {
    assert!(wikipedia::SEED_TOPICS.len() >= 50);
}

#[test]
fn covers_all_ten_sephirot_domains() {
    let d = wikipedia::distribution();
    for (i, count) in d.iter().enumerate() {
        assert!(*count > 0, "domain {i} has no topics");
    }
}

#[test]
fn has_enough_topics() {
    assert!(wikipedia::SEED_TOPICS.len() >= 200, "got {}", wikipedia::SEED_TOPICS.len());
}

#[test]
fn rotated_topics_is_a_permutation() {
    let r = wikipedia::rotated_topics(37);
    assert_eq!(r.len(), wikipedia::SEED_TOPICS.len());
    let mut a: Vec<_> = wikipedia::SEED_TOPICS.iter().map(|(s, _)| *s).collect();
    let mut b: Vec<_> = r.iter().map(|(s, _)| *s).collect();
    a.sort();
    b.sort();
    assert_eq!(a, b);
}

#[test]
fn rotated_topics_with_offset_zero_matches_seed_order() {
    let r = wikipedia::rotated_topics(0);
    for (i, (s, _)) in r.iter().enumerate() {
        assert_eq!(*s, wikipedia::SEED_TOPICS[i].0);
    }
}
