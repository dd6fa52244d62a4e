//! The rules of one committer.

use std::sync::Arc;

use mysticeti_core::base_committer::{
    BaseCommitter, BaseCommitterOptions, DEFAULT_WAVE_LENGTH, MINIMUM_WAVE_LENGTH,
};
use mysticeti_core::block_store::BlockStore;
use mysticeti_core::committee::Committee;
use mysticeti_core::types::{
    AuthorityIndex, BlockReference, Data, LeaderStatus, RoundNumber, StatementBlock,
};
use mysticeti_core::universal_committer::UniversalCommitterBuilder;

const SIZE: u64 = 6;
/// The leader of round 1.
const LEADER: u64 = 1;

fn committee() -> Arc<Committee> {
    Arc::new(Committee::new(vec![1; SIZE as usize]))
}

fn block(authority: AuthorityIndex, round: RoundNumber, parents: &[u64]) -> Data<StatementBlock> {
    let includes = parents
        .iter()
        .map(|parent| BlockReference::new_test(*parent, round - 1))
        .collect();
    Arc::new(StatementBlock::new(BlockReference::new_test(authority, round), includes))
}

fn everyone() -> Vec<u64> {
    (0..SIZE).collect()
}

fn everyone_but(authority: u64) -> Vec<u64> {
    (0..SIZE).filter(|a| *a != authority).collect()
}

/// Rounds 0 to 3. Only authority 0 votes for the leader, in round 2, and only the first `supports`
/// authorities include that vote, in round 3.
fn dag(supports: u64) -> BlockStore {
    let mut store = BlockStore::new();
    for authority in 0..SIZE {
        store.add_block(StatementBlock::new_genesis(authority));
    }
    for authority in 0..SIZE {
        store.add_block(block(authority, 1, &everyone()));
    }
    for authority in 0..SIZE {
        let parents = if authority == 0 { everyone() } else { everyone_but(LEADER) };
        store.add_block(block(authority, 2, &parents));
    }
    for authority in 0..SIZE {
        let parents = if authority < supports { everyone() } else { everyone_but(0) };
        store.add_block(block(authority, 3, &parents));
    }
    store
}

fn add_full_round(store: &mut BlockStore, round: RoundNumber) {
    for authority in 0..SIZE {
        store.add_block(block(authority, round, &everyone()));
    }
}

fn pipelined(store: BlockStore) -> BaseCommitter {
    BaseCommitter::new(committee(), store).with_options(BaseCommitterOptions {
        wave_length: 3,
        leader_offset: 0,
        round_offset: 1,
    })
}

fn committed_reference(status: &LeaderStatus) -> Option<BlockReference> {
    match status {
        LeaderStatus::Commit(block) => Some(*block.reference()),
        _ => None,
    }
}

fn is_skip(status: &LeaderStatus) -> bool {
    matches!(status, LeaderStatus::Skip(LEADER, 1))
}

fn is_undecided(status: &LeaderStatus) -> bool {
    matches!(status, LeaderStatus::Undecided(LEADER, 1))
}

#[test]
fn default_options() {
    let options = BaseCommitterOptions::default();
    assert_eq!(options.wave_length, 3);
    assert_eq!(options.leader_offset, 0);
    assert_eq!(options.round_offset, 0);
    assert_eq!(DEFAULT_WAVE_LENGTH, 3);
    assert_eq!(MINIMUM_WAVE_LENGTH, 3);
}

#[test]
fn rounds_of_the_waves() {
    let committer = BaseCommitter::new(committee(), BlockStore::new());
    assert_eq!(committer.wave_number(0), 0);
    assert_eq!(committer.wave_number(2), 0);
    assert_eq!(committer.wave_number(3), 1);
    assert_eq!(committer.wave_number(11), 3);
    assert_eq!(committer.leader_round(4), 12);
    assert_eq!(committer.voting_round(4), 13);
    assert_eq!(committer.decision_round(4), 14);

    let committer = committer.with_options(BaseCommitterOptions {
        wave_length: 5,
        leader_offset: 7,
        round_offset: 2,
    });
    assert_eq!(committer.wave_number(1), 0);
    assert_eq!(committer.wave_number(2), 0);
    assert_eq!(committer.wave_number(6), 0);
    assert_eq!(committer.wave_number(7), 1);
    assert_eq!(committer.leader_round(1), 7);
    assert_eq!(committer.voting_round(1), 8);
    assert_eq!(committer.decision_round(1), 11);
}

#[test]
fn waves_follow_each_other() {
    let committer = pipelined(BlockStore::new());
    for wave in 0..10 {
        assert_eq!(committer.wave_number(committer.leader_round(wave)), wave);
        assert_eq!(committer.wave_number(committer.voting_round(wave)), wave);
        assert_eq!(committer.wave_number(committer.decision_round(wave)), wave);
        assert_eq!(committer.leader_round(wave + 1), committer.decision_round(wave) + 1);
    }
}

#[test]
fn decision_round_at_the_end_of_the_numbers() {
    let committer = BaseCommitter::new(committee(), BlockStore::new());
    let wave = u64::MAX / 3 - 1;
    assert_eq!(committer.decision_round(wave), u64::MAX - 1);
}

#[test]
fn name_of_a_committer() {
    let committer = BaseCommitter::new(committee(), BlockStore::new());
    assert_eq!(committer.to_string(), "Committer-L0-R0");
    let committer = committer.with_options(BaseCommitterOptions {
        wave_length: 3,
        leader_offset: 12,
        round_offset: u64::MAX,
    });
    assert_eq!(committer.to_string(), "Committer-L12-R18446744073709551615");
}

#[test]
fn leaders_take_turns() {
    let mut store = dag(6);
    for round in 4..=8 {
        add_full_round(&mut store, round);
    }
    let committer = pipelined(store);
    assert_eq!(committer.elect_leader(0), None);
    assert_eq!(committer.elect_leader(1), Some(1));
    assert_eq!(committer.elect_leader(2), None);
    assert_eq!(committer.elect_leader(3), None);
    assert_eq!(committer.elect_leader(4), Some(4));
    // The decision round of the next wave is not reached.
    assert_eq!(committer.elect_leader(7), None);
}

#[test]
fn leader_offsets_elect_different_leaders() {
    let mut elected = Vec::new();
    for leader_offset in 0..SIZE {
        let committer = BaseCommitter::new(committee(), dag(6)).with_options(
            BaseCommitterOptions { wave_length: 3, leader_offset, round_offset: 1 },
        );
        elected.push(committer.elect_leader(1).unwrap());
    }
    assert_eq!(elected, vec![1, 2, 3, 4, 5, 0]);
    // An offset of the size of the committee stands for the same leader.
    let committer = BaseCommitter::new(committee(), dag(6)).with_options(BaseCommitterOptions {
        wave_length: 3,
        leader_offset: SIZE,
        round_offset: 1,
    });
    assert_eq!(committer.elect_leader(1), Some(1));
}

#[test]
fn one_stage_of_a_pipeline_leads_each_round() {
    let mut store = dag(6);
    for round in 4..=9 {
        add_full_round(&mut store, round);
    }
    for round in 0..=7 {
        let leading: Vec<u64> = (0..3)
            .filter(|round_offset| {
                BaseCommitter::new(committee(), store.clone())
                    .with_options(BaseCommitterOptions {
                        wave_length: 3,
                        leader_offset: 0,
                        round_offset: *round_offset,
                    })
                    .elect_leader(round)
                    .is_some()
            })
            .collect();
        assert_eq!(leading, vec![round % 3]);
    }
}

#[test]
fn direct_rule_needs_a_quorum() {
    let proposal = Some(BlockReference::new_test(LEADER, 1));
    for supports in 0..=SIZE {
        let status = pipelined(dag(supports)).try_direct_decide(LEADER, 1);
        match supports {
            0 | 1 => assert!(is_skip(&status)),
            2 | 3 | 4 => assert!(is_undecided(&status)),
            _ => assert_eq!(committed_reference(&status), proposal),
        }
    }
}

#[test]
fn direct_rule_is_idempotent() {
    let committer = pipelined(dag(5));
    let first = committer.try_direct_decide(LEADER, 1);
    let second = committer.try_direct_decide(LEADER, 1);
    assert!(first.is_decided());
    assert_eq!(committed_reference(&first), committed_reference(&second));
}

#[test]
fn support_and_blame_are_counted_in_the_given_rounds() {
    let committer = pipelined(dag(4));
    let proposal = block(LEADER, 1, &everyone());
    assert!(!committer.enough_leader_support(2, 3, &proposal));
    assert!(!committer.enough_leader_blame(2, 3, LEADER));
    // In the voting round itself, only the votes are supports: there is one.
    assert!(!committer.enough_leader_support(2, 2, &proposal));
    assert!(committer.enough_leader_blame(2, 2, LEADER));
    // Everybody voted for authority 2.
    assert!(committer.enough_leader_support(2, 2, &block(2, 1, &everyone())));
    assert!(!committer.enough_leader_blame(2, 2, 2));
}

#[test]
fn support_without_a_proposal_is_undecided() {
    let mut store = BlockStore::new();
    for authority in everyone_but(LEADER) {
        store.add_block(block(authority, 1, &everyone()));
    }
    add_full_round(&mut store, 2);
    add_full_round(&mut store, 3);
    let committer = pipelined(store);
    assert!(is_undecided(&committer.try_direct_decide(LEADER, 1)));
    assert!(is_skip(&committer.decide_leader_from_anchor(&block(0, 4, &everyone()), LEADER, 1)));
}

#[test]
fn an_equivocating_supporter_counts_once() {
    let mut store = dag(4);
    // Authority 0 produces a second block for the decision round, which supports the leader too.
    let reference = BlockReference { authority: 0, round: 3, digest: 1 };
    let includes = vec![BlockReference::new_test(0, 2)];
    store.add_block(Arc::new(StatementBlock::new(reference, includes)));
    assert!(is_undecided(&pipelined(store).try_direct_decide(LEADER, 1)));
}

#[test]
fn anchor_needs_an_indirect_quorum() {
    let proposal = Some(BlockReference::new_test(LEADER, 1));
    for supports in 0..=SIZE {
        let mut store = dag(supports);
        add_full_round(&mut store, 4);
        let anchor = block(4, 4, &everyone());
        let status = pipelined(store).decide_leader_from_anchor(&anchor, LEADER, 1);
        if supports < 3 {
            assert!(is_skip(&status));
        } else {
            assert_eq!(committed_reference(&status), proposal);
        }
    }
}

#[test]
fn anchor_sees_only_its_causal_history() {
    // Three supports, by the authorities 0, 1 and 2, of which the anchor includes two.
    let mut store = dag(3);
    let anchor = block(4, 4, &[1, 2, 3, 4, 5]);
    store.add_block(anchor.clone());
    let committer = pipelined(store);
    let proposal = block(LEADER, 1, &everyone());
    assert!(!committer.enough_anchored_support(&anchor, 2, 3, &proposal));
    assert!(is_skip(&committer.decide_leader_from_anchor(&anchor, LEADER, 1)));
    let anchor = block(5, 4, &[0, 1, 2, 3, 4]);
    assert!(committer.enough_anchored_support(&anchor, 2, 3, &proposal));
}

#[test]
fn indirect_rule_takes_the_first_anchor() {
    let mut store = dag(3);
    add_full_round(&mut store, 4);
    let committer = pipelined(store);
    let anchor = block(4, 4, &everyone());
    let blind_anchor = block(5, 4, &[3, 4, 5]);
    let proposal = Some(BlockReference::new_test(LEADER, 1));

    // No leader to decide from.
    assert!(is_undecided(&committer.try_indirect_decide(LEADER, 1, [].iter())));
    // A committed leader, but less than a wave later.
    let leaders = [LeaderStatus::Commit(block(3, 3, &everyone()))];
    assert!(is_undecided(&committer.try_indirect_decide(LEADER, 1, leaders.iter())));
    // Skipped leaders, and those that are too early, are passed over.
    let leaders = [
        LeaderStatus::Undecided(2, 2),
        LeaderStatus::Commit(block(3, 3, &everyone())),
        LeaderStatus::Skip(3, 4),
        LeaderStatus::Commit(anchor.clone()),
        LeaderStatus::Commit(blind_anchor.clone()),
    ];
    let status = committer.try_indirect_decide(LEADER, 1, leaders.iter());
    assert_eq!(committed_reference(&status), proposal);
    // The first anchor decides.
    let leaders = [LeaderStatus::Commit(blind_anchor), LeaderStatus::Commit(anchor.clone())];
    assert!(is_skip(&committer.try_indirect_decide(LEADER, 1, leaders.iter())));
    // An undecided leader stops the search.
    let leaders = [LeaderStatus::Undecided(3, 4), LeaderStatus::Commit(anchor)];
    assert!(is_undecided(&committer.try_indirect_decide(LEADER, 1, leaders.iter())));
}

#[test]
fn indirect_rule_at_the_end_of_the_numbers() {
    let committer = pipelined(dag(6));
    let leaders = [LeaderStatus::Commit(block(0, u64::MAX, &everyone()))];
    let status = committer.try_indirect_decide(LEADER, u64::MAX, leaders.iter());
    assert!(matches!(status, LeaderStatus::Undecided(LEADER, u64::MAX)));
}

#[test]
fn the_rules_agree() {
    for supports in 0..=SIZE {
        let mut store = dag(supports);
        add_full_round(&mut store, 4);
        let committer = pipelined(store);
        let direct = committer.try_direct_decide(LEADER, 1);
        if direct.is_decided() {
            for authority in 0..SIZE {
                let anchor = block(authority, 4, &everyone_but(authority));
                let indirect = committer.decide_leader_from_anchor(&anchor, LEADER, 1);
                assert_eq!(committed_reference(&direct), committed_reference(&indirect));
                assert_eq!(is_skip(&direct), is_skip(&indirect));
            }
        }
    }
}

#[test]
fn decisions_are_final() {
    for supports in 0..=SIZE {
        let mut store = dag(supports);
        add_full_round(&mut store, 4);
        let anchor = block(4, 4, &everyone());
        let committer = pipelined(store.clone());
        let direct = committer.try_direct_decide(LEADER, 1);
        let indirect = committer.decide_leader_from_anchor(&anchor, LEADER, 1);

        add_full_round(&mut store, 5);
        add_full_round(&mut store, 6);
        let committer = pipelined(store);
        let later = committer.try_direct_decide(LEADER, 1);
        if direct.is_decided() {
            assert_eq!(committed_reference(&direct), committed_reference(&later));
            assert_eq!(is_skip(&direct), is_skip(&later));
        }
        let later = committer.decide_leader_from_anchor(&anchor, LEADER, 1);
        assert_eq!(committed_reference(&indirect), committed_reference(&later));
    }
}

#[test]
fn status_names_the_leader() {
    let commit = LeaderStatus::Commit(block(4, 7, &everyone()));
    assert_eq!((commit.authority(), commit.round(), commit.is_decided()), (4, 7, true));
    let skip = LeaderStatus::Skip(2, 9);
    assert_eq!((skip.authority(), skip.round(), skip.is_decided()), (2, 9, true));
    let undecided = LeaderStatus::Undecided(3, 8);
    assert_eq!((undecided.authority(), undecided.round(), undecided.is_decided()), (3, 8, false));
    assert_eq!(commit.clone().round(), 7);
}

/// What the equivocating leader proposes besides `BlockReference::new_test(LEADER, 1)`.
const SECOND: BlockReference = BlockReference { authority: LEADER, round: 1, digest: 1 };

/// Round 2, by authority: which proposals of the leader each block includes.
type Votes = [&'static [BlockReference]; SIZE as usize];

const FIRST: BlockReference = BlockReference { authority: LEADER, round: 1, digest: 0 };

/// Rounds 0 to 3 with two proposals of the leader. The blocks of round 3 include what `parents`
/// gives for their authority.
fn equivocating_dag(votes: Votes, parents: fn(u64) -> Vec<u64>) -> BlockStore {
    let mut store = BlockStore::new();
    for authority in 0..SIZE {
        store.add_block(StatementBlock::new_genesis(authority));
    }
    // The second proposal comes first in the store.
    let genesis = (0..5).map(|authority| BlockReference::new_test(authority, 0)).collect();
    store.add_block(Arc::new(StatementBlock::new(SECOND, genesis)));
    for authority in 0..SIZE {
        store.add_block(block(authority, 1, &everyone()));
    }
    for authority in 0..SIZE {
        let mut includes: Vec<BlockReference> = everyone_but(LEADER)
            .iter()
            .map(|parent| BlockReference::new_test(*parent, 1))
            .collect();
        includes.extend(votes[authority as usize]);
        let reference = BlockReference::new_test(authority, 2);
        store.add_block(Arc::new(StatementBlock::new(reference, includes)));
    }
    for authority in 0..SIZE {
        store.add_block(block(authority, 3, &parents(authority)));
    }
    store
}

fn proposal(reference: BlockReference) -> Data<StatementBlock> {
    Arc::new(StatementBlock::new(reference, Vec::new()))
}

#[test]
fn direct_rule_commits_the_supported_block_of_an_equivocating_leader() {
    // Nobody includes the second proposal.
    let committer = pipelined(equivocating_dag([&[FIRST]; 6], |_| everyone()));
    let status = committer.try_direct_decide(LEADER, 1);
    assert_eq!(committed_reference(&status), Some(FIRST));
    assert!(committer.enough_leader_support(2, 3, &proposal(FIRST)));
    assert!(!committer.enough_leader_support(2, 3, &proposal(SECOND)));
    // Nobody includes the first one.
    let committer = pipelined(equivocating_dag([&[SECOND]; 6], |_| everyone()));
    let status = committer.try_direct_decide(LEADER, 1);
    assert_eq!(committed_reference(&status), Some(SECOND));
}

#[test]
fn direct_rule_commits_the_block_that_leads_the_votes() {
    // The leader votes for its second proposal, the others for the first one.
    let votes: Votes = [&[FIRST], &[SECOND], &[FIRST], &[FIRST], &[FIRST], &[FIRST]];
    let committer = pipelined(equivocating_dag(votes, |_| everyone()));
    let status = committer.try_direct_decide(LEADER, 1);
    assert_eq!(committed_reference(&status), Some(FIRST));
    assert!(!committer.enough_leader_support(2, 3, &proposal(SECOND)));
    assert!(!committer.enough_leader_blame(2, 3, LEADER));
}

#[test]
fn one_vote_commits_the_block_of_an_equivocating_leader_that_it_includes() {
    let votes: Votes = [&[FIRST], &[], &[], &[], &[], &[]];
    let committer = pipelined(equivocating_dag(votes, |_| everyone()));
    let status = committer.try_direct_decide(LEADER, 1);
    assert_eq!(committed_reference(&status), Some(FIRST));
}

#[test]
fn a_tie_supports_neither_block() {
    let votes: Votes = [&[FIRST], &[SECOND], &[FIRST], &[SECOND], &[FIRST], &[SECOND]];
    let committer = pipelined(equivocating_dag(votes, |_| everyone()));
    assert!(is_undecided(&committer.try_direct_decide(LEADER, 1)));
    let anchor = block(4, 4, &everyone());
    assert!(is_skip(&committer.decide_leader_from_anchor(&anchor, LEADER, 1)));
    // Votes for both proposals do not tell either.
    let votes: Votes = [&[FIRST, SECOND]; 6];
    let committer = pipelined(equivocating_dag(votes, |_| everyone()));
    assert!(is_undecided(&committer.try_direct_decide(LEADER, 1)));
}

#[test]
fn a_vote_for_another_round_is_for_a_sole_proposal_only() {
    // The votes include the genesis block of the leader, and none of its proposals.
    const GENESIS: BlockReference = BlockReference { authority: LEADER, round: 0, digest: 0 };
    let committer = pipelined(equivocating_dag([&[GENESIS]; 6], |_| everyone()));
    assert!(is_undecided(&committer.try_direct_decide(LEADER, 1)));

    let mut store = BlockStore::new();
    add_full_round(&mut store, 1);
    for authority in 0..SIZE {
        let reference = BlockReference::new_test(authority, 2);
        store.add_block(Arc::new(StatementBlock::new(reference, vec![GENESIS])));
    }
    add_full_round(&mut store, 3);
    let status = pipelined(store).try_direct_decide(LEADER, 1);
    assert_eq!(committed_reference(&status), Some(FIRST));
}

#[test]
fn indirect_rule_commits_the_supported_block_of_an_equivocating_leader() {
    // One vote for the second proposal, which three blocks of the decision round include.
    let votes: Votes = [&[SECOND], &[], &[], &[], &[], &[]];
    let committer = pipelined(equivocating_dag(votes, |authority| {
        if authority < 3 {
            everyone()
        } else {
            everyone_but(0)
        }
    }));
    assert!(is_undecided(&committer.try_direct_decide(LEADER, 1)));
    let anchor = block(4, 4, &everyone());
    let status = committer.decide_leader_from_anchor(&anchor, LEADER, 1);
    assert_eq!(committed_reference(&status), Some(SECOND));
    let leaders = [LeaderStatus::Commit(anchor)];
    let status = committer.try_indirect_decide(LEADER, 1, leaders.iter());
    assert_eq!(committed_reference(&status), Some(SECOND));
    // An anchor that sees two of the three skips.
    let anchor = block(4, 4, &everyone_but(0));
    assert!(is_skip(&committer.decide_leader_from_anchor(&anchor, LEADER, 1)));
}

#[test]
fn the_rules_agree_on_an_equivocating_leader() {
    let votes: Votes = [&[FIRST], &[SECOND], &[FIRST], &[FIRST], &[FIRST], &[FIRST]];
    let committer = pipelined(equivocating_dag(votes, everyone_but));
    let status = committer.try_direct_decide(LEADER, 1);
    assert_eq!(committed_reference(&status), Some(FIRST));
    for authority in 0..SIZE {
        let anchor = block(authority, 4, &everyone_but(authority));
        let status = committer.decide_leader_from_anchor(&anchor, LEADER, 1);
        assert_eq!(committed_reference(&status), Some(FIRST));
    }
}

/// One vote for each proposal of the leader, by the authorities 0 and 2. Each block of round 3
/// includes one of the two votes, half of them the one and half of them the other.
fn split_dag() -> BlockStore {
    let votes: Votes = [&[FIRST], &[], &[SECOND], &[], &[], &[]];
    equivocating_dag(votes, |authority| {
        if authority < 3 {
            everyone_but(2)
        } else {
            everyone_but(0)
        }
    })
}

#[test]
fn split_votes_can_give_two_blocks_an_indirect_quorum() {
    let committer = pipelined(split_dag());
    assert!(is_undecided(&committer.try_direct_decide(LEADER, 1)));
    let anchor = block(4, 4, &everyone());
    assert!(committer.enough_anchored_support(&anchor, 2, 3, &proposal(FIRST)));
    assert!(committer.enough_anchored_support(&anchor, 2, 3, &proposal(SECOND)));
    // Not more than one of them is ever supported enough for the direct rule.
    assert!(!committer.enough_leader_support(2, 3, &proposal(FIRST)));
    assert!(!committer.enough_leader_support(2, 3, &proposal(SECOND)));
}

#[test]
fn split_votes_skip_the_leader() {
    let committer = pipelined(split_dag());
    let anchor = block(4, 4, &everyone());
    let status = committer.decide_leader_from_anchor(&anchor, LEADER, 1);
    assert!(matches!(status, LeaderStatus::Skip(LEADER, 1)));
    let leaders = [LeaderStatus::Commit(anchor)];
    let status = committer.try_indirect_decide(LEADER, 1, leaders.iter());
    assert!(matches!(status, LeaderStatus::Skip(LEADER, 1)));
    // An anchor that sees enough support for one block only commits that one.
    let anchor = block(4, 4, &[0, 1, 2, 3]);
    let status = committer.decide_leader_from_anchor(&anchor, LEADER, 1);
    assert_eq!(committed_reference(&status), Some(FIRST));
    let anchor = block(4, 4, &[2, 3, 4, 5]);
    let status = committer.decide_leader_from_anchor(&anchor, LEADER, 1);
    assert_eq!(committed_reference(&status), Some(SECOND));
}

#[test]
fn split_votes_do_not_stop_the_sequence() {
    let mut store = split_dag();
    for round in 4..=6 {
        add_full_round(&mut store, round);
    }
    let committer = UniversalCommitterBuilder::new(committee(), store).with_pipeline(true).build();
    let sequence = committer.try_commit(BlockReference::new_test(0, 0));
    let slots: Vec<(u64, u64)> =
        sequence.iter().map(|status| (status.round(), status.authority())).collect();
    assert_eq!(slots, vec![(1, 1), (2, 2), (3, 3), (4, 4)]);
    assert!(is_skip(&sequence[0]));
    for status in &sequence[1..] {
        assert!(committed_reference(status).is_some());
    }
}

#[test]
fn skipped_and_early_leaders_do_not_matter() {
    let mut store = dag(3);
    add_full_round(&mut store, 4);
    let committer = pipelined(store);
    let proposal = Some(BlockReference::new_test(LEADER, 1));
    let anchor = LeaderStatus::Commit(block(4, 4, &everyone()));
    let passed_over = [
        LeaderStatus::Skip(3, 4),
        LeaderStatus::Skip(5, 9),
        LeaderStatus::Skip(2, 2),
        LeaderStatus::Undecided(3, 3),
        LeaderStatus::Commit(block(3, 3, &everyone())),
    ];
    for status in &passed_over {
        let lists = [
            vec![status.clone(), anchor.clone()],
            vec![anchor.clone(), status.clone()],
            vec![status.clone(), anchor.clone(), status.clone()],
        ];
        for leaders in &lists {
            let status = committer.try_indirect_decide(LEADER, 1, leaders.iter());
            assert_eq!(committed_reference(&status), proposal);
        }
        let leaders = [status.clone()];
        assert!(is_undecided(&committer.try_indirect_decide(LEADER, 1, leaders.iter())));
    }
}

#[test]
fn a_larger_history_keeps_the_commit() {
    let mut store = dag(3);
    let anchor = block(4, 4, &[0, 1, 2]);
    store.add_block(anchor.clone());
    for authority in everyone_but(4) {
        store.add_block(block(authority, 4, &[3, 4, 5]));
    }
    add_full_round(&mut store, 5);
    let committer = pipelined(store);
    let status = committer.decide_leader_from_anchor(&anchor, LEADER, 1);
    assert_eq!(committed_reference(&status), Some(FIRST));
    assert!(is_skip(&committer.decide_leader_from_anchor(&block(0, 4, &[3, 4, 5]), LEADER, 1)));
    let status = committer.decide_leader_from_anchor(&block(3, 5, &everyone()), LEADER, 1);
    assert_eq!(committed_reference(&status), Some(FIRST));
}

#[test]
fn a_late_second_proposal_changes_nothing() {
    let mut store = dag(5);
    add_full_round(&mut store, 4);
    let anchor = block(4, 4, &everyone());
    store.add_block(proposal(SECOND));
    let committer = pipelined(store);
    let status = committer.try_direct_decide(LEADER, 1);
    assert_eq!(committed_reference(&status), Some(FIRST));
    let status = committer.decide_leader_from_anchor(&anchor, LEADER, 1);
    assert_eq!(committed_reference(&status), Some(FIRST));
}
