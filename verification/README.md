# aether_seeder

The verified core of a distributed knowledge seeder: worker agents pull
text from knowledge sources (encyclopedia articles, arXiv abstracts,
public-domain books, Q&A sites, web text), chunk it at sentence
boundaries, deduplicate it by content hash, and post batches to an
ingestion service.

`src/` is written in Verus. Every function there carries a contract and
is proved, except five small trusted wrappers around outside code (SHA-256,
three regex operations, collecting characters into a `String`), whose
contracts are assumed and documented where they stand; the laws of the library (no content hash is handed out twice,
rate-limit slots are spaced, backoffs double up to their ceilings, chunks
meet their size bounds, rotations of the topic lists are permutations, …)
are public proof functions next to the code they speak of.

- `domain`, `node`, `digest`: the ten domains, seed nodes, SHA-256 content
  hashes and the dedup set.
- `text`, `strs`, `chunk`, `html`, `clean`: string handling, sentence
  chunking, UTF-8-safe truncation, HTML and Atom/RSS extraction.
- `pipeline`: the per-source queue (worklist, pending nodes, dedup) that
  every source's `fetch_batch` is driven through.
- `sources`, `refill`: what each source keeps of what it fetched, and how
  it queues it.
- `topics`: the curated seed lists, their per-domain counts and rotation.
- `ratelimit`, `header`, `worker`, `swarm`, `placeholder`, `error`: request
  pacing, `Retry-After`, the worker's decisions, source selection and swarm
  totals, the smoke-test source, errors.

`app/` is the command-line program around the library: HTTP, JSON, async
workers and the clock.
