//! The sequence of decided leaders.

use std::sync::Arc;

use mysticeti_core::block_store::BlockStore;
use mysticeti_core::committee::Committee;
use mysticeti_core::types::{BlockReference, LeaderStatus, StatementBlock};
use mysticeti_core::universal_committer::UniversalCommitterBuilder;

/// Fully connected rounds of six authorities, up to the round `stop`.
fn full_dag(stop: u64) -> BlockStore {
    let mut store = BlockStore::new();
    for round in 0..=stop {
        for authority in 0..6 {
            let includes = if round == 0 {
                Vec::new()
            } else {
                (0..6).map(|parent| BlockReference::new_test(parent, round - 1)).collect()
            };
            let reference = BlockReference::new_test(authority, round);
            store.add_block(Arc::new(StatementBlock::new(reference, includes)));
        }
    }
    store
}

fn slots(sequence: &[LeaderStatus]) -> Vec<(u64, u64)> {
    sequence.iter().map(|status| (status.round(), status.authority())).collect()
}

fn committee() -> Arc<Committee> {
    Arc::new(Committee::new(vec![1; 6]))
}

#[test]
fn one_leader_in_each_wave() {
    let committer = UniversalCommitterBuilder::new(committee(), full_dag(12)).build();
    let sequence = committer.try_commit(BlockReference::new_test(0, 0));
    // The first wave is led by the genesis, which is not committed.
    assert_eq!(slots(&sequence), vec![(3, 3), (6, 0), (9, 3)]);
}

#[test]
fn a_longer_wave() {
    let committer = UniversalCommitterBuilder::new(committee(), full_dag(12))
        .with_wave_length(4)
        .build();
    let sequence = committer.try_commit(BlockReference::new_test(0, 0));
    assert_eq!(slots(&sequence), vec![(4, 4), (8, 2)]);
}

#[test]
fn leaders_come_round_by_round() {
    let committer = UniversalCommitterBuilder::new(committee(), full_dag(4))
        .with_number_of_leaders(2)
        .with_pipeline(true)
        .build();
    let sequence = committer.try_commit(BlockReference::new_test(0, 0));
    assert_eq!(slots(&sequence), vec![(1, 1), (1, 2), (2, 2), (2, 3)]);
}

#[test]
fn the_sequence_resumes_after_any_decided_leader() {
    let committer = UniversalCommitterBuilder::new(committee(), full_dag(8))
        .with_number_of_leaders(3)
        .with_pipeline(true)
        .build();
    let all = committer.try_commit(BlockReference::new_test(0, 0));
    assert_eq!(all.len(), 18);
    for (i, last) in all.iter().enumerate() {
        let last = BlockReference::new_test(last.authority(), last.round());
        let rest = committer.try_commit(last);
        assert_eq!(slots(&rest), slots(&all[i + 1..]));
    }
}

#[test]
fn nothing_is_decided_beyond_the_dag() {
    let committer = UniversalCommitterBuilder::new(committee(), full_dag(8))
        .with_pipeline(true)
        .build();
    assert!(committer.try_commit(BlockReference::new_test(0, 100)).is_empty());
    let committer = UniversalCommitterBuilder::new(committee(), BlockStore::new()).build();
    assert!(committer.try_commit(BlockReference::new_test(0, 0)).is_empty());
}

#[test]
fn no_leaders_no_sequence() {
    let committer = UniversalCommitterBuilder::new(committee(), full_dag(8))
        .with_number_of_leaders(0)
        .build();
    assert!(committer.try_commit(BlockReference::new_test(0, 0)).is_empty());
}

#[test]
fn an_equivocating_leader_is_committed() {
    let mut store = full_dag(4);
    let second = BlockReference { authority: 1, round: 1, digest: 1 };
    store.add_block(Arc::new(StatementBlock::new(second, Vec::new())));
    let committer = UniversalCommitterBuilder::new(committee(), store)
        .with_number_of_leaders(2)
        .with_pipeline(true)
        .build();
    let sequence = committer.try_commit(BlockReference::new_test(0, 0));
    assert_eq!(slots(&sequence), vec![(1, 1), (1, 2), (2, 2), (2, 3)]);
    match &sequence[0] {
        LeaderStatus::Commit(block) => {
            assert_eq!(*block.reference(), BlockReference::new_test(1, 1));
        }
        _ => panic!("Expected a committed leader"),
    }
}
