# exl3

The logic of a text-generation engine for quantized language models, verified with Verus: what a
checkpoint must hold, how cache pages and recurrent slots are shared between jobs, how a round
batches prefill, decoding and speculative drafts, and how a grammar or a JSON schema constrains
what is sampled.

- `src/` is the library. `paged` and `cpu_cache` keep the pages, `generator` the jobs and their
  rounds, `filter` the grammars and token masks, `ngram` the hashed embedding tables, `config`,
  `model`, `linear`, `moe` and `needs` what is read from a checkpoint, `infer` the runs of a
  single prompt. `page_laws`, `page_uses`, `generator/laws`, `generator/chain_laws`,
  `filter/laws`, `filter/constants`, `filter/forms` and `filter/schemas` state what holds across
  calls.
- `tests/` runs the library on concrete values.
- `app/` is the host: files, events and the loop that performs on a device what the library
  decides. The device, the tokenizer and the suffix matcher are traits there; so are samplers.

A few functions of `std` and `serde_json` are called through trusted wrappers; each has its own
contract in `src/text.rs`, `src/json.rs`, `src/filter/matcher.rs` and `src/filter/gbnf.rs`.
