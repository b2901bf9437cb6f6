# toad_ops

The operations layer of the toad workspace tooling, written in Verus: the
decisions and tallies behind batch commands, artifact cleaning, disk-usage
reports, dependency analysis, health checks, migration preflights and skill
distribution, each with a contract that Verus proves.

- `src/` is the verified library. Each public function states its result
  exactly; laws that span functions are public proof functions (for example
  `dependencies::lemma_dependents_inverse`, `order::lemma_desc_order_unique`,
  `stats::lemma_tag_hash_optional`, `migration::lemma_self_comparison`).
- `app/` is the unverified shell around it: file-system walks, processes,
  threads, the clock, serialization and the floating-point figures. It
  gathers plain values, hands them to the library, and acts on the answers;
  cleaning, for instance, is driven step by step by `clean::clean_step`.
- `tests/` runs the library on concrete inputs.
