//! The committee, the blocks and the block store.

use std::sync::Arc;

use mysticeti_core::block_store::BlockStore;
use mysticeti_core::committee::{
    Committee, IndirectQuorumThreshold, QuorumThreshold, StakeAggregator,
};
use mysticeti_core::text::append_decimal;
use mysticeti_core::types::{BlockReference, Data, StatementBlock};

fn block(reference: BlockReference, includes: &[BlockReference]) -> Data<StatementBlock> {
    Arc::new(StatementBlock::new(reference, includes.to_vec()))
}

fn name(authority: u64, round: u64) -> BlockReference {
    BlockReference::new_test(authority, round)
}

#[test]
fn thresholds() {
    // One faulty authority out of six.
    let committee = Committee::new(vec![1; 6]);
    assert_eq!(committee.len(), 6);
    assert_eq!(committee.quorum_threshold(), 5);
    assert_eq!(committee.indirect_threshold(), 3);
    assert_eq!(committee.validity_threshold(), 2);
    // Two faulty authorities out of eleven.
    let committee = Committee::new(vec![1; 11]);
    assert_eq!(committee.quorum_threshold(), 9);
    assert_eq!(committee.indirect_threshold(), 5);
    assert_eq!(committee.validity_threshold(), 3);
    // Unequal stakes.
    let committee = Committee::new(vec![10, 20, 30, 40]);
    assert_eq!(committee.quorum_threshold(), 81);
    assert!(!committee.is_quorum(80));
    assert!(committee.is_quorum(81));
    assert!(!committee.is_indirect_quorum(40));
    assert!(committee.is_indirect_quorum(41));
}

#[test]
fn largest_total_stake() {
    let committee = Committee::new(vec![u64::MAX - 1, 1]);
    assert_eq!(committee.quorum_threshold(), 14757395258967641293);
    assert!(committee.is_quorum(u64::MAX));
    assert!(!committee.is_quorum(14757395258967641292));
}

#[test]
fn stakes_and_turns() {
    let committee = Committee::new(vec![10, 20, 30]);
    assert_eq!(committee.get_stake(0), 10);
    assert_eq!(committee.get_stake(2), 30);
    assert_eq!(committee.get_stake(3), 0);
    assert_eq!(committee.get_stake(u64::MAX), 0);
    assert_eq!(committee.elect_leader(0), 0);
    assert_eq!(committee.elect_leader(5), 2);
    assert_eq!(committee.elect_leader(6), 0);
}

#[test]
fn aggregators_count_each_authority_once() {
    let committee = Committee::new(vec![1; 6]);
    let mut quorum: StakeAggregator<QuorumThreshold> = StakeAggregator::new();
    for authority in [0, 1, 1, 2, 9, 3, 0] {
        assert!(!quorum.add(authority, &committee));
    }
    assert!(quorum.add(5, &committee));
    assert!(quorum.add(9, &committee));

    let mut indirect: StakeAggregator<IndirectQuorumThreshold> = StakeAggregator::new();
    assert!(!indirect.add(4, &committee));
    assert!(!indirect.add(4, &committee));
    assert!(!indirect.add(2, &committee));
    assert_eq!(indirect.stake(&committee), 2);
    assert!(indirect.add(1, &committee));
    assert_eq!(indirect.stake(&committee), 3);
}

#[test]
fn blocks() {
    let reference = BlockReference { authority: 3, round: 8, digest: 5 };
    let block = block(reference, &[name(1, 7), name(2, 6)]);
    assert_eq!(*block.reference(), reference);
    assert_eq!(block.author(), 3);
    assert_eq!(block.round(), 8);
    assert_eq!(block.includes().len(), 2);
    assert!(block.names(1));
    assert!(block.names(2));
    assert!(!block.names(3));
    assert!(block.includes_block(&name(2, 6)));
    assert!(!block.includes_block(&name(2, 7)));
    let genesis = StatementBlock::new_genesis(4);
    assert_eq!(*genesis.reference(), name(4, 0));
    assert!(genesis.includes().is_empty());
}

#[test]
fn block_store() {
    let mut store = BlockStore::new();
    assert_eq!(store.highest_round(), 0);
    store.add_block(block(name(0, 4), &[]));
    store.add_block(block(name(1, 9), &[]));
    store.add_block(block(name(2, 4), &[]));
    let twin = BlockReference { authority: 0, round: 4, digest: 1 };
    store.add_block(block(twin, &[]));
    // A block with a known reference is not added again.
    store.add_block(block(name(0, 4), &[name(5, 3)]));
    assert_eq!(store.highest_round(), 9);
    let found: Vec<BlockReference> =
        store.get_blocks_by_round(4).iter().map(|block| *block.reference()).collect();
    assert_eq!(found, vec![name(0, 4), name(2, 4), twin]);
    assert!(store.get_blocks_by_round(5).is_empty());
    let found: Vec<BlockReference> = store
        .get_blocks_at_authority_round(0, 4)
        .iter()
        .map(|block| *block.reference())
        .collect();
    assert_eq!(found, vec![name(0, 4), twin]);
    assert!(store.get_blocks_at_authority_round(0, 4)[0].includes().is_empty());
    assert!(store.get_blocks_at_authority_round(1, 4).is_empty());
    let others = store.get_rivals(&block(twin, &[]));
    assert_eq!(others.len(), 1);
    assert_eq!(*others[0].reference(), name(0, 4));
    assert!(store.get_rivals(&block(name(2, 4), &[])).is_empty());
    assert_eq!(store.clone().get_blocks_by_round(4).len(), 3);
}

#[test]
fn links() {
    let a = block(name(0, 1), &[]);
    let b = block(name(1, 1), &[]);
    let c = block(name(0, 2), &[name(0, 1)]);
    // A link may pass over rounds.
    let d = block(name(0, 4), &[name(0, 2), name(1, 1)]);
    let e = block(name(1, 4), &[name(0, 3)]);
    let mut store = BlockStore::new();
    for block in [&a, &b, &c, &d, &e] {
        store.add_block(block.clone());
    }
    assert!(store.linked(&a, &a));
    assert!(store.linked(&c, &a));
    assert!(!store.linked(&c, &b));
    assert!(store.linked(&d, &c));
    assert!(store.linked(&d, &b));
    assert!(store.linked(&d, &a));
    assert!(!store.linked(&a, &d));
    assert!(!store.linked(&d, &e));
    assert!(!store.linked(&e, &a));
    // A block outside of the store links to what it includes.
    let f = block(name(2, 5), &[name(0, 4)]);
    assert!(store.linked(&f, &d));
    assert!(store.linked(&f, &a));
    assert!(!store.linked(&f, &e));
}

#[test]
fn links_are_transitive() {
    let mut store = BlockStore::new();
    let mut all = Vec::new();
    for round in 0..5 {
        for authority in 0..3 {
            let includes: Vec<BlockReference> =
                if round == 0 { Vec::new() } else { vec![name((authority + 1) % 3, round - 1)] };
            let block = block(name(authority, round), &includes);
            store.add_block(block.clone());
            all.push(block);
        }
    }
    for x in &all {
        for y in &all {
            assert!(!store.linked(x, y) || x.reference() == y.reference() || y.round() < x.round());
            for z in &all {
                assert!(!store.linked(x, y) || !store.linked(y, z) || store.linked(x, z));
            }
        }
    }
}

#[test]
fn decimal_digits() {
    for n in [0, 9, 10, 99, 100, 1234567890, u64::MAX] {
        let mut text = String::from("n=");
        append_decimal(&mut text, n);
        assert_eq!(text, format!("n={}", n));
    }
}
