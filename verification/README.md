# mysticeti_core

The commit rule of a consensus protocol on an uncertified DAG of blocks, for a committee of
`5f + 1` authorities of which `f` may be faulty. It is written in Rust and verified with Verus.

- `src/types.rs`: blocks, references to blocks, and the status of a leader.
- `src/committee.rs`: stakes, the thresholds `4f + 1`, `2f + 1` and `f + 1`, and who leads.
- `src/block_store.rs`: the known blocks, and whether one is in the causal history of another.
- `src/base_committer.rs`: `BaseCommitter`, the direct and the indirect decision rule.
- `src/universal_committer.rs`: `UniversalCommitter`, which runs several base committers (several
  leaders in a round, a wave for each round) and yields the sequence of decided leaders.
- `src/laws.rs`, `src/sequence_laws.rs`: proofs about the rules and the sequence as a whole. Say that
  faults are tolerated while the authorities that equivocate in the decision round have no more stake
  than `f`.
  - While faults are tolerated, at most one block of a leader has enough support to be directly
    committed, even if the leader equivocates. Then `UniversalCommitter::try_commit` may be called,
    provided that the numbers of the rounds fit.
  - While faults are tolerated, the indirect rule confirms a direct skip, and it confirms a direct
    commit given an anchor with a quorum of the decision round in its causal history. In a DAG where
    each block includes a quorum of the preceding round, every anchor of a later round has
    one.
  - Where the known blocks come with all that they include, a direct skip is final. So is what an
    anchor decides, as long as the votes stay for the blocks that they were for, and so is a direct
    commit if besides faults are tolerated.
  - Different committers elect different leaders, as long as a round has no more leaders than there
    are authorities and the numbers of the rounds fit. Then commits are not repeated.
- `tests/`: scenarios on small DAGs.
