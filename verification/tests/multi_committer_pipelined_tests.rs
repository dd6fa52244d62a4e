//! Scenarios of a multi-leader, pipelined committer.

use std::sync::Arc;

use mysticeti_core::base_committer::DEFAULT_WAVE_LENGTH;
use mysticeti_core::block_store::BlockStore;
use mysticeti_core::committee::Committee;
use mysticeti_core::types::{
    AuthorityIndex, BlockReference, Data, LeaderStatus, RoundNumber, StatementBlock,
};
use mysticeti_core::universal_committer::UniversalCommitterBuilder;

/// A committee of `n` authorities with the same stake.
fn committee(n: usize) -> Arc<Committee> {
    Arc::new(Committee::new(vec![1; n]))
}

fn authorities(committee: &Committee) -> impl Iterator<Item = AuthorityIndex> {
    0..committee.len() as AuthorityIndex
}

struct TestBlockWriter {
    block_store: BlockStore,
}

impl TestBlockWriter {
    fn new(_committee: &Committee) -> Self {
        Self { block_store: BlockStore::new() }
    }

    fn add_block(&mut self, block: Data<StatementBlock>) {
        self.block_store.add_block(block);
    }

    fn into_block_store(self) -> BlockStore {
        self.block_store
    }
}

/// Adds one block for each (authority, parents) pair, and returns their references.
fn build_dag_layer(
    connections: Vec<(AuthorityIndex, Vec<BlockReference>)>,
    block_writer: &mut TestBlockWriter,
) -> Vec<BlockReference> {
    let mut references = Vec::new();
    for (authority, parents) in connections {
        let round = parents.first().unwrap().round + 1;
        let reference = BlockReference::new_test(authority, round);
        block_writer.add_block(Arc::new(StatementBlock::new(reference, parents)));
        references.push(reference);
    }
    references
}

/// Adds fully connected rounds after `start`, or after the genesis, up to the round `stop`.
fn build_dag(
    committee: &Committee,
    block_writer: &mut TestBlockWriter,
    start: Option<Vec<BlockReference>>,
    stop: RoundNumber,
) -> Vec<BlockReference> {
    let mut includes = match start {
        Some(start) => {
            assert!(!start.is_empty());
            start
        }
        None => authorities(committee)
            .map(|authority| {
                let block = StatementBlock::new_genesis(authority);
                let reference = *block.reference();
                block_writer.add_block(block);
                reference
            })
            .collect(),
    };
    let starting_round = includes.first().unwrap().round + 1;
    for _round in starting_round..=stop {
        let connections = authorities(committee).map(|a| (a, includes.clone())).collect();
        includes = build_dag_layer(connections, block_writer);
    }
    includes
}

/// Commit the leaders of the first round.
#[test]
fn direct_commit() {
    let committee = committee(6);
    let wave_length = DEFAULT_WAVE_LENGTH;
    for number_of_leaders in 1..committee.len() {
        let mut block_writer = TestBlockWriter::new(&committee);
        build_dag(&committee, &mut block_writer, None, wave_length);

        let committer = UniversalCommitterBuilder::new(committee.clone(), block_writer.into_block_store())
        .with_wave_length(wave_length)
        .with_number_of_leaders(number_of_leaders)
        .with_pipeline(true)
        .build();

        let last_committed = BlockReference::new_test(0, 0);
        let sequence = committer.try_commit(last_committed);

        assert_eq!(sequence.len(), number_of_leaders);
        for (i, leader) in sequence.iter().enumerate() {
            if let LeaderStatus::Commit(block) = leader {
                let num_leaders_u64 = number_of_leaders as u64;
                let i_u64 = i as u64;
                let leader_offset = i_u64 % num_leaders_u64 + 1;
                let leader_round = i_u64 / num_leaders_u64;
                let expected = committee.elect_leader(leader_offset + leader_round);
                assert_eq!(block.author(), expected);
            } else {
                panic!("Expected a committed leader")
            };
        }
    }
}

/// Ensure idempotent replies.
#[test]
fn idempotence() {
    let committee = committee(6);
    let wave_length = DEFAULT_WAVE_LENGTH;
    for number_of_leaders in 1..committee.len() {
        let mut block_writer = TestBlockWriter::new(&committee);
        build_dag(&committee, &mut block_writer, None, wave_length);

        let committer = UniversalCommitterBuilder::new(committee.clone(), block_writer.into_block_store())
        .with_wave_length(wave_length)
        .with_number_of_leaders(number_of_leaders)
        .with_pipeline(true)
        .build();

        // Commit block(s).
        let last_committed = BlockReference::new_test(0, 0);
        let committed = committer.try_commit(last_committed);

        // Ensure we don't commit them again.
        let last = committed.into_iter().last().unwrap();
        let last_committed = BlockReference::new_test(last.authority(), last.round());
        let sequence = committer.try_commit(last_committed);
        assert!(sequence.is_empty());
    }
}

/// Commit rounds one by one as the dag progresses in ideal conditions.
#[test]
fn multiple_direct_commit() {
    let committee = committee(6);
    let wave_length = DEFAULT_WAVE_LENGTH;
    let number_of_leaders = committee.quorum_threshold() as usize;

    let mut last_committed = BlockReference::new_test(0, 0);
    for n in 1..=10 {
        let enough_blocks = wave_length + n - 1;
        let mut block_writer = TestBlockWriter::new(&committee);
        build_dag(&committee, &mut block_writer, None, enough_blocks);

        let committer = UniversalCommitterBuilder::new(committee.clone(), block_writer.into_block_store())
        .with_wave_length(wave_length)
        .with_number_of_leaders(number_of_leaders)
        .with_pipeline(true)
        .build();

        let sequence = committer.try_commit(last_committed);
        assert_eq!(sequence.len(), number_of_leaders);

        for (i, leader) in sequence.iter().enumerate() {
            if let LeaderStatus::Commit(block) = leader {
                let num_leaders_u64 = number_of_leaders as u64;
                let i_u64 = i as u64 + (n as u64 - 1) * num_leaders_u64;
                let leader_offset = i_u64 % num_leaders_u64 + 1;
                let leader_round = i_u64 / num_leaders_u64;
                let expected = committee.elect_leader(leader_offset + leader_round);
                assert_eq!(block.author(), expected);
            } else {
                panic!("Expected a committed leader")
            };
        }

        let last = sequence.iter().last().unwrap();
        last_committed = BlockReference::new_test(last.authority(), last.round());
    }
}

/// Commit the leaders of the first wave assuming the very first leader is already committed.
#[test]
fn direct_commit_partial_round() {
    let committee = committee(6);
    let wave_length = DEFAULT_WAVE_LENGTH;
    let number_of_leaders = committee.quorum_threshold() as usize;

    let first_leader_round = 1;
    let first_leader = committee.elect_leader(first_leader_round);
    let last_committed = BlockReference::new_test(first_leader, first_leader_round);

    let enough_blocks = wave_length;
    let mut block_writer = TestBlockWriter::new(&committee);
    build_dag(&committee, &mut block_writer, None, enough_blocks);

    let committer = UniversalCommitterBuilder::new(committee.clone(), block_writer.into_block_store())
    .with_wave_length(wave_length)
    .with_number_of_leaders(number_of_leaders)
    .with_pipeline(true)
    .build();

    let sequence = committer.try_commit(last_committed);

    assert_eq!(sequence.len(), number_of_leaders - 1);
    for (i, leader) in sequence.iter().enumerate() {
        if let LeaderStatus::Commit(block) = leader {
            let num_leaders_u64 = number_of_leaders as u64;
            let i_u64 = i as u64 + 1;
            let leader_offset = i_u64 % num_leaders_u64 + 1;
            let leader_round = i_u64 / num_leaders_u64;
            let expected = committee.elect_leader(leader_offset + leader_round);
            assert_eq!(block.author(), expected);
        } else {
            panic!("Expected a committed leader")
        };
    }
}

/// Commit 10 waves in a row (calling the committer after adding them).
#[test]
fn direct_commit_late_call() {
    let committee = committee(6);
    let wave_length = DEFAULT_WAVE_LENGTH;
    let number_of_leaders = committee.quorum_threshold() as usize;

    let n = 10;
    let enough_blocks = wave_length + n - 1;
    let mut block_writer = TestBlockWriter::new(&committee);
    build_dag(&committee, &mut block_writer, None, enough_blocks);

    let committer = UniversalCommitterBuilder::new(committee.clone(), block_writer.into_block_store())
    .with_wave_length(wave_length)
    .with_number_of_leaders(number_of_leaders)
    .with_pipeline(true)
    .build();

    let last_committed = BlockReference::new_test(0, 0);
    let sequence = committer.try_commit(last_committed);

    assert_eq!(sequence.len(), number_of_leaders * n as usize);
    for (i, leader) in sequence.iter().enumerate() {
        if let LeaderStatus::Commit(block) = leader {
            let num_leaders_u64 = number_of_leaders as u64;
            let i_u64 = i as u64;
            let leader_offset = i_u64 % num_leaders_u64 + 1;
            let leader_round = i_u64 / num_leaders_u64;
            let expected = committee.elect_leader(leader_offset + leader_round);
            assert_eq!(block.author(), expected);
        } else {
            panic!("Expected a committed leader")
        };
    }
}

/// Do not commit anything if we are still in the first wave.
#[test]
fn no_genesis_commit() {
    let committee = committee(6);
    let wave_length = DEFAULT_WAVE_LENGTH;
    let number_of_leaders = committee.quorum_threshold() as usize;

    let first_commit_round = wave_length - 1;
    for r in 0..first_commit_round {
        let mut block_writer = TestBlockWriter::new(&committee);
        build_dag(&committee, &mut block_writer, None, r);

        let committer = UniversalCommitterBuilder::new(committee.clone(), block_writer.into_block_store())
        .with_wave_length(wave_length)
        .with_number_of_leaders(number_of_leaders)
        .with_pipeline(true)
        .build();

        let last_committed = BlockReference::new_test(0, 0);
        let sequence = committer.try_commit(last_committed);
        assert!(sequence.is_empty());
    }
}

/// We directly skip the leader if it has enough blame.
#[test]
fn direct_skip() {
    let committee = committee(6);
    let wave_length = DEFAULT_WAVE_LENGTH;
    let number_of_leaders = committee.quorum_threshold() as usize;

    let mut block_writer = TestBlockWriter::new(&committee);

    // Add enough blocks to reach the decision round of wave 1 (but without its leader).
    let leader_round_1 = 1;
    let leader_1 = committee.elect_leader(leader_round_1);

    let genesis: Vec<_> = authorities(&committee)
        .map(|authority| *StatementBlock::new_genesis(authority).reference())
        .collect();
    let connections = authorities(&committee)
        .filter(|&authority| authority != leader_1)
        .map(|authority| (authority, genesis.clone()));
    let references = build_dag_layer(connections.collect(), &mut block_writer);

    // Add enough blocks to reach the decision round of the first leader.
    let decision_round_1 = wave_length;
    build_dag(
        &committee,
        &mut block_writer,
        Some(references),
        decision_round_1,
    );

    // Ensure the omitted leader is skipped and the others are committed.
    let committer = UniversalCommitterBuilder::new(committee.clone(), block_writer.into_block_store())
    .with_wave_length(wave_length)
    .with_number_of_leaders(number_of_leaders)
    .with_pipeline(true)
    .build();

    let last_committed = BlockReference::new_test(0, 0);
    let sequence = committer.try_commit(last_committed);

    assert_eq!(sequence.len(), number_of_leaders);
    for (i, leader) in sequence.iter().enumerate() {
        let num_leaders_u64 = number_of_leaders as u64;
        let i_u64 = i as u64;
        let leader_offset = i_u64 % num_leaders_u64 + 1;
        let leader_round = i_u64 / num_leaders_u64;
        let expected_leader = committee.elect_leader(leader_round + leader_offset);
        if i == 0 {
            if let LeaderStatus::Skip(leader, round) = sequence[i] {
                assert_eq!(leader, expected_leader);
                assert_eq!(round, leader_round_1);
            } else {
                panic!("Expected to directly skip the leader");
            }
        } else {
            if let LeaderStatus::Commit(block) = leader {
                assert_eq!(block.author(), expected_leader);
            } else {
                panic!("Expected a committed leader")
            }
        }
    }
}

/// Indirect-commit the first leader.
#[test]
fn indirect_commit() {
    let committee = committee(6);
    let wave_length = DEFAULT_WAVE_LENGTH;
    let number_of_leaders = committee.quorum_threshold() as usize;

    let mut block_writer = TestBlockWriter::new(&committee);

    // Add enough blocks to reach the leaders of wave 1.
    let leader_round_1 = 1;
    let references_0 = build_dag(&committee, &mut block_writer, None, leader_round_1);

    // Filter out the 1st leader of wave 1.
    let references_without_leader_1: Vec<_> = references_0
        .iter()
        .cloned()
        .filter(|x| x.authority != committee.elect_leader(leader_round_1))
        .collect();

    // Only 1 validator supports the 1st leader.
    let mut references_1 = Vec::new();

    let connections_with_leader_1 = authorities(&committee)
        .take(1)
        .map(|authority| (authority, references_0.clone()))
        .collect();
    references_1.extend(build_dag_layer(
        connections_with_leader_1,
        &mut block_writer,
    ));

    let connections_without_leader_1 = authorities(&committee)
        .skip(1)
        .map(|authority| (authority, references_without_leader_1.clone()))
        .collect();
    references_1.extend(build_dag_layer(
        connections_without_leader_1,
        &mut block_writer,
    ));

    // Filter out the authority which supported the 1st leader.
    let references_without_booster_1: Vec<_> = references_1
        .iter()
        .cloned()
        .filter(|x| x.authority != authorities(&committee).next().unwrap())
        .collect();

    // 2f+1 validators support the 1st leader in the next round (the decision round).
    let mut references_2 = Vec::new();

    let connections_with_booster_1 = authorities(&committee)
        .take(committee.indirect_threshold() as usize)
        .map(|authority| (authority, references_1.clone()))
        .collect();
    references_2.extend(build_dag_layer(
        connections_with_booster_1,
        &mut block_writer,
    ));

    let connections_without_booster_1 = authorities(&committee)
        .skip(committee.indirect_threshold() as usize)
        .map(|authority| (authority, references_without_booster_1.clone()))
        .collect();
    references_2.extend(build_dag_layer(
        connections_without_booster_1,
        &mut block_writer,
    ));

    // Add enough blocks to decide the leaders of round 5.
    let decision_round_2 = wave_length + 4;
    build_dag(
        &committee,
        &mut block_writer,
        Some(references_2),
        decision_round_2,
    );

    // Ensure we commit the 1st leader.
    let committer = UniversalCommitterBuilder::new(committee.clone(), block_writer.into_block_store())
    .with_wave_length(wave_length)
    .with_number_of_leaders(number_of_leaders)
    .with_pipeline(true)
    .build();

    let last_committed = BlockReference::new_test(0, 0);
    let sequence = committer.try_commit(last_committed);
    assert_eq!(sequence.len(), 5 * number_of_leaders);

    let leader = committee.elect_leader(leader_round_1);
    if let LeaderStatus::Commit(ref block) = sequence[0] {
        assert_eq!(block.author(), leader);
    } else {
        panic!("Expected a committed leader")
    };
}

/// Commit the leaders of round 1, skip the first leader of round 2, and commit the leaders of rounds 3, 4, and 5.
#[test]
fn indirect_skip() {
    let committee = committee(6);
    let wave_length = DEFAULT_WAVE_LENGTH;
    let number_of_leaders = committee.quorum_threshold() as usize;

    let mut block_writer = TestBlockWriter::new(&committee);

    // Add enough blocks to reach the leaders of round 2.
    let leader_round_2 = 2;
    let references_0 = build_dag(&committee, &mut block_writer, None, leader_round_2);

    // Filter out the first leader of round 2.
    let leader_2 = committee.elect_leader(leader_round_2);
    let references_without_leader_2: Vec<_> = references_0
        .iter()
        .cloned()
        .filter(|x| x.authority != leader_2)
        .collect();

    // Only 1 validator supports that leader.
    let mut references_1 = Vec::new();

    let connections_with_leader_2 = authorities(&committee)
        .take(1)
        .map(|authority| (authority, references_0.clone()))
        .collect();
    references_1.extend(build_dag_layer(
        connections_with_leader_2,
        &mut block_writer,
    ));

    let connections_without_leader_2 = authorities(&committee)
        .skip(1)
        .map(|authority| (authority, references_without_leader_2.clone()))
        .collect();
    references_1.extend(build_dag_layer(
        connections_without_leader_2,
        &mut block_writer,
    ));

    // Filter out the authority which supported that leader.
    let references_without_booster_2: Vec<_> = references_1
        .iter()
        .cloned()
        .filter(|x| x.authority != authorities(&committee).next().unwrap())
        .collect();

    // f+1 validators support that leader in the next round (the decision round).
    let mut references_2 = Vec::new();

    let connections_with_booster_2 = authorities(&committee)
        .take(committee.validity_threshold() as usize)
        .map(|authority| (authority, references_1.clone()))
        .collect();
    references_2.extend(build_dag_layer(
        connections_with_booster_2,
        &mut block_writer,
    ));

    let connections_without_booster_2 = authorities(&committee)
        .skip(committee.validity_threshold() as usize)
        .map(|authority| (authority, references_without_booster_2.clone()))
        .collect();
    references_2.extend(build_dag_layer(
        connections_without_booster_2,
        &mut block_writer,
    ));

    // Add enough blocks to decide the 5th round (the anchor of round 2).
    let decision_round_3 = 4 + wave_length;
    build_dag(
        &committee,
        &mut block_writer,
        Some(references_2),
        decision_round_3,
    );

    // Ensure we commit the leaders of rounds 1, 3, 4, and 5
    let committer = UniversalCommitterBuilder::new(committee.clone(), block_writer.into_block_store())
    .with_wave_length(wave_length)
    .with_number_of_leaders(number_of_leaders)
    .with_pipeline(true)
    .build();

    let last_committed = BlockReference::new_test(0, 0);
    let sequence = committer.try_commit(last_committed);

    assert_eq!(sequence.len(), 5 * number_of_leaders);
    for (i, leader) in sequence.iter().enumerate() {
        let num_leaders_u64 = number_of_leaders as u64;
        let i_u64 = i as u64;
        let leader_offset = i_u64 % num_leaders_u64 + 1;
        let leader_round = i_u64 / num_leaders_u64;
        let expected_leader = committee.elect_leader(leader_round + leader_offset);
        if i == num_leaders_u64 as usize {
            if let LeaderStatus::Skip(leader, round) = sequence[i] {
                assert_eq!(leader, expected_leader);
                assert_eq!(round, leader_round_2);
            } else {
                panic!("Expected to directly skip the leader");
            }
        } else {
            if let LeaderStatus::Commit(block) = leader {
                assert_eq!(block.author(), expected_leader);
            } else {
                panic!("Expected a committed leader")
            }
        }
    }
}

/// If the first leader does not have enough support nor blame, we commit nothing.
#[test]
fn undecided() {
    let committee = committee(6);
    let wave_length = DEFAULT_WAVE_LENGTH;
    let number_of_leaders = committee.quorum_threshold() as usize;

    let mut block_writer = TestBlockWriter::new(&committee);

    // Add enough blocks to reach the leaders of round 1.
    let leader_round_1 = 1;
    let references_0 = build_dag(&committee, &mut block_writer, None, leader_round_1);

    // Filter out the 1st leader of round 1.
    let references_without_leader_1: Vec<_> = references_0
        .iter()
        .cloned()
        .filter(|x| x.authority != committee.elect_leader(leader_round_1))
        .collect();

    // Only 1 validator supports the 1st leader in the next round (the booster round).
    let mut references_1 = Vec::new();

    let connections_with_leader_1 = authorities(&committee)
        .take(1)
        .map(|authority| (authority, references_0.clone()))
        .collect();
    references_1.extend(build_dag_layer(
        connections_with_leader_1,
        &mut block_writer,
    ));

    let connections_without_leader_1 = authorities(&committee)
        .skip(1)
        .map(|authority| (authority, references_without_leader_1.clone()))
        .collect();
    references_1.extend(build_dag_layer(
        connections_without_leader_1,
        &mut block_writer,
    ));

    // Filter out the authority which supported the 1st leader.
    let references_without_booster_1: Vec<_> = references_1
        .iter()
        .cloned()
        .filter(|x| x.authority != authorities(&committee).next().unwrap())
        .collect();

    // f+1 validators support the 1st leader in the next round (the decision round).
    let mut references_2 = Vec::new();

    let connections_with_booster_1 = authorities(&committee)
        .take(committee.validity_threshold() as usize)
        .map(|authority| (authority, references_1.clone()))
        .collect();
    references_2.extend(build_dag_layer(
        connections_with_booster_1,
        &mut block_writer,
    ));

    let connections_without_booster_1 = authorities(&committee)
        .skip(committee.validity_threshold() as usize)
        .map(|authority| (authority, references_without_booster_1.clone()))
        .collect();
    references_2.extend(build_dag_layer(
        connections_without_booster_1,
        &mut block_writer,
    ));

    // Ensure no blocks are committed.
    let committer = UniversalCommitterBuilder::new(committee.clone(), block_writer.into_block_store())
    .with_wave_length(wave_length)
    .with_number_of_leaders(number_of_leaders)
    .with_pipeline(true)
    .build();

    let last_committed = BlockReference::new_test(0, 0);
    let sequence = committer.try_commit(last_committed);
    assert!(sequence.is_empty());
}
