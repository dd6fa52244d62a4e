//! The commit rule of a consensus protocol on an uncertified DAG of blocks.
//!
//! Each authority of the committee proposes one block a round, and each block includes blocks of
//! earlier rounds. The leaders of a round are known from its number alone. The commit rule reads
//! off the DAG which leaders are committed and which are skipped.
//!
//! - [`types`]: blocks, their references, and the status of a leader.
//! - [`committee`]: stakes, thresholds, and the leader election.
//! - [`block_store`]: the known blocks, and the causal order between them.
//! - [`base_committer`]: the direct and the indirect decision rule.
//! - [`universal_committer`]: the sequence of decided leaders that several base committers yield.
//! - [`laws`] and [`sequence_laws`]: what holds of the rules and of the sequence as a whole.
//! - [`dag_laws`], [`rule_laws`] and [`slot_laws`]: what stakes and histories, the rules, and the
//!   sequence are, told by the blocks, what they include, and the stake of their authors. With
//!   them, that what is decided stays decided as the DAG grows.
//! - [`text`]: numbers as text.

pub mod text;
pub mod types;
pub mod committee;
pub mod block_store;
pub mod base_committer;
pub mod universal_committer;
pub mod laws;
pub mod dag_laws;
pub mod rule_laws;
pub mod sequence_laws;
pub mod slot_laws;
