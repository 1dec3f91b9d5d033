# amiss

The decision core of a documentation link checker that compares two snapshots
of a repository, written in Verus: every function states what it returns in
its contract, and Verus proves the code meets it.

## Layout

- `src/text.rs`, `src/bytes.rs`, `src/order.rs`, `src/tree.rs`: characters and
  their UTF-8 widths, byte windows, the byte order of paths with sorted
  listings, and tree listings in path order.
- `src/unicode.rs`: the Unicode services the slug rules call, behind trusted
  wrappers over `unicode-normalization`, `unicode-general-category` and std.
- `src/rst.rs` and `src/rst/`: the reStructuredText reader: blocks, titles,
  directives, target definitions, the references a document makes, and its
  analysis into occurrences and headings.
- `src/anchor.rs` and `src/anchor/`: the heading-anchor rules of each site
  generator, their slugs, and the identities a document publishes.
- `src/correlate.rs` and `src/correlate/`: the comparison labels, the
  correlation of two sides' observations into exact pairs and connected
  components, renamed documents and moved directories.
- `src/evaluate.rs` and `src/evaluate/`: what documents, references and
  comparisons raise, the structural findings aggregated by key across both
  sides, the policy passes over every finding in key order, and fix
  respellings.
- `src/policy.rs` and `src/policy/`: document includes, the comparison of two
  scanner policies, and what an organization floor holds a run to.
- `src/claim.rs` and `src/claim/`: value claims, their grouping, and the
  respelling that would attest a broken one.
- `src/lfs.rs`, `src/declared.rs`, `src/document.rs`, `src/discovery.rs`,
  `src/locale.rs`, `src/projection.rs`, `src/feedback.rs`, `src/external.rs`,
  `src/cache.rs`: LFS pointers, declared ignore files, document
  classification, discovery decisions, the tree walk's decisions and batches,
  locale trees, projections
  and the sink a projection assertion is answered against,
  feedback actions, external controls, and cache row schemas.
- `tests/`: tests over concrete values.

Public proof functions named `lemma_*` state the laws that hold across
functions, such as that correlation puts every observation in exactly one
row, or that a floor only ever tightens a limit.
