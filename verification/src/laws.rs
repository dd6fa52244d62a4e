//! What holds of the commit rule as a whole.

use crate::base_committer::{authors, CommitterView, MINIMUM_WAVE_LENGTH};
use crate::block_store::{
    blocks_by_round, distinct_references, has_reference, highest_round, linked, rivals,
};
use crate::committee::{
    is_quorum, is_validity_quorum, lemma_stake_of_at_most_total, lemma_stake_of_is_monotone,
    lemma_stake_of_nobody, lemma_stake_of_union, stake_of, total_stake,
};
use crate::types::{AuthorityIndex, BlockReference, BlockView, RoundNumber, Stake, StatusView};
use vstd::arithmetic::div_mod::{
    lemma_fundamental_div_mod, lemma_fundamental_div_mod_converse, lemma_mod_bound,
    lemma_mod_decreases, lemma_mod_equivalence,
};
use vstd::prelude::*;

verus! {

/// Every round from the first wave on lies between the leader round and the decision round of the
/// wave in which it belongs, both included.
pub proof fn law_round_lies_in_its_wave(committer: CommitterView, round: RoundNumber)
    requires
        committer.options.wave_length >= MINIMUM_WAVE_LENGTH,
        round >= committer.options.round_offset,
    ensures
        committer.wave_number(round) >= 0,
        committer.leader_round(committer.wave_number(round)) <= round <= committer.decision_round(
            committer.wave_number(round),
        ),
{
    let length = committer.options.wave_length as int;
    let since = round - committer.options.round_offset;
    lemma_fundamental_div_mod(since, length);
    lemma_mod_bound(since, length);
    assert(length * (since / length) == (since / length) * length) by (nonlinear_arith);
    assert(since / length >= 0) by (nonlinear_arith)
        requires
            since >= 0,
            length > 0,
    ;
}

/// The leader round, the voting round and the decision round of a wave follow each other, belong
/// in that wave, and the next wave starts right after.
pub proof fn law_waves_follow_each_other(committer: CommitterView, wave: int)
    requires
        committer.options.wave_length >= MINIMUM_WAVE_LENGTH,
        wave >= 0,
        committer.decision_round(wave) <= RoundNumber::MAX,
    ensures
        0 <= committer.leader_round(wave) < committer.voting_round(wave)
            < committer.decision_round(wave),
        committer.wave_number(committer.leader_round(wave) as RoundNumber) == wave,
        committer.wave_number(committer.voting_round(wave) as RoundNumber) == wave,
        committer.wave_number(committer.decision_round(wave) as RoundNumber) == wave,
        committer.leader_round(wave + 1) == committer.decision_round(wave) + 1,
{
    let length = committer.options.wave_length as int;
    let offset = committer.options.round_offset as int;
    assert(wave * length >= 0) by (nonlinear_arith)
        requires
            wave >= 0,
            length >= 0,
    ;
    assert((wave + 1) * length == wave * length + length) by (nonlinear_arith);
    lemma_fundamental_div_mod_converse(wave * length, length, wave, 0);
    lemma_fundamental_div_mod_converse(wave * length + 1, length, wave, 1);
    lemma_fundamental_div_mod_converse(wave * length + length - 1, length, wave, length - 1);
}

/// Committers with different leader offsets elect different leaders for the same round. Offsets
/// that differ by a multiple of the size of the committee stand for the same leader.
pub proof fn law_leader_offsets_elect_different_leaders(
    a: CommitterView,
    b: CommitterView,
    round: RoundNumber,
)
    requires
        a.stakes == b.stakes,
        a.stakes.len() > 0,
        a.options.leader_offset as int % a.stakes.len() as int != b.options.leader_offset as int
            % a.stakes.len() as int,
        round + a.options.leader_offset <= RoundNumber::MAX,
        round + b.options.leader_offset <= RoundNumber::MAX,
        a.elect_leader(round) is Some,
        b.elect_leader(round) is Some,
    ensures
        a.elect_leader(round) != b.elect_leader(round),
{
    let len = a.stakes.len() as int;
    let x = a.options.leader_offset as int;
    let y = b.options.leader_offset as int;
    lemma_mod_equivalence(x, y, len);
    lemma_mod_equivalence(round + x, round + y, len);
    lemma_mod_decreases((round + x) as nat, len as nat);
    lemma_mod_decreases((round + y) as nat, len as nat);
    lemma_mod_bound(round + x, len);
    lemma_mod_bound(round + y, len);
}

/// Committers of a pipeline, with different round offsets below the wave length, never lead the
/// same round.
pub proof fn law_round_offsets_lead_different_rounds(
    a: CommitterView,
    b: CommitterView,
    round: RoundNumber,
)
    requires
        a.options.wave_length == b.options.wave_length,
        a.options.round_offset < a.options.wave_length,
        b.options.round_offset < b.options.wave_length,
        a.options.round_offset != b.options.round_offset,
    ensures
        a.elect_leader(round) is None || b.elect_leader(round) is None,
{
    if a.has_leader(round) && b.has_leader(round) {
        lemma_leader_round_offset(a, round);
        lemma_leader_round_offset(b, round);
    }
}

/// The committers of a pipeline leave out no round: each round whose wave the DAG has completed is
/// led by the committer whose round offset is the remainder of the round by the wave length.
pub proof fn law_pipeline_leads_every_round(committer: CommitterView, round: RoundNumber)
    requires
        committer.options.wave_length >= MINIMUM_WAVE_LENGTH,
        committer.options.round_offset == round as int % committer.options.wave_length as int,
        round + committer.options.wave_length - 1 <= highest_round(committer.blocks),
    ensures
        committer.elect_leader(round) is Some,
{
    let length = committer.options.wave_length as int;
    lemma_fundamental_div_mod(round as int, length);
    lemma_mod_bound(round as int, length);
    let wave = round as int / length;
    assert(length * wave == wave * length) by (nonlinear_arith);
    lemma_fundamental_div_mod_converse(wave * length, length, wave, 0);
    lemma_mod_decreases(round as nat, length as nat);
}

/// A leader round leaves the round offset as remainder by the wave length.
proof fn lemma_leader_round_offset(committer: CommitterView, round: RoundNumber)
    requires
        committer.options.round_offset < committer.options.wave_length,
        committer.has_leader(round),
    ensures
        round as int % committer.options.wave_length as int == committer.options.round_offset,
{
    lemma_fundamental_div_mod_converse(
        round as int,
        committer.options.wave_length as int,
        committer.wave_number(round),
        committer.options.round_offset as int,
    );
}

/// The authorities with more than one of the `blocks`.
pub open spec fn equivocators(blocks: Seq<BlockView>) -> Set<AuthorityIndex> {
    Set::new(
        |authority: AuthorityIndex|
            exists|i: int, j: int|
                0 <= i < j < blocks.len() && #[trigger] blocks[i].authority() == authority
                    && #[trigger] blocks[j].authority() == authority,
    )
}

/// The authorities that produced more than one block for `round` have no more stake than the `f`
/// faulty authorities that the committee tolerates.
pub open spec fn faults_are_tolerated(committer: CommitterView, round: RoundNumber) -> bool {
    !is_validity_quorum(
        committer.stakes,
        stake_of(committer.stakes, equivocators(blocks_by_round(committer.blocks, round))),
    )
}

/// The authorities with a block of `round` in the causal history of `anchor`.
pub open spec fn reached(committer: CommitterView, anchor: BlockView, round: RoundNumber) -> Set<
    AuthorityIndex,
> {
    authors(
        blocks_by_round(committer.blocks, round),
        |block: BlockView| linked(committer.blocks, anchor, block),
    )
}

/// An authority with a block that has one property and a block that has another one has a block
/// with both, or more than one block.
proof fn lemma_authors_of_both(
    blocks: Seq<BlockView>,
    p: spec_fn(BlockView) -> bool,
    q: spec_fn(BlockView) -> bool,
    both: spec_fn(BlockView) -> bool,
)
    requires
        forall|block: BlockView| #[trigger] p(block) && q(block) ==> both(block),
    ensures
        authors(blocks, p).intersect(authors(blocks, q)).subset_of(
            authors(blocks, both).union(equivocators(blocks)),
        ),
{
    assert forall|a: AuthorityIndex|
        authors(blocks, p).contains(a) && authors(blocks, q).contains(a) implies authors(
        blocks,
        both,
    ).contains(a) || equivocators(blocks).contains(a) by {
        let i = choose|i: int|
            0 <= i < blocks.len() && p(#[trigger] blocks[i]) && blocks[i].authority() == a;
        let j = choose|j: int|
            0 <= j < blocks.len() && q(#[trigger] blocks[j]) && blocks[j].authority() == a;
        if i < j {
            assert(blocks[i].authority() == a && blocks[j].authority() == a);
        } else if j < i {
            assert(blocks[j].authority() == a && blocks[i].authority() == a);
        } else {
            assert(both(blocks[i]));
        }
    }
}

/// Two properties that hold of blocks of so much stake hold together of blocks of at least what
/// exceeds the total, but for the stake of the equivocators.
proof fn lemma_stake_of_both(
    stakes: Seq<Stake>,
    blocks: Seq<BlockView>,
    p: spec_fn(BlockView) -> bool,
    q: spec_fn(BlockView) -> bool,
    both: spec_fn(BlockView) -> bool,
)
    requires
        forall|block: BlockView| #[trigger] p(block) && q(block) ==> both(block),
    ensures
        stake_of(stakes, authors(blocks, p)) + stake_of(stakes, authors(blocks, q)) <= total_stake(
            stakes,
        ) + stake_of(stakes, authors(blocks, both)) + stake_of(stakes, equivocators(blocks)),
{
    let a = authors(blocks, p);
    let b = authors(blocks, q);
    let c = authors(blocks, both);
    let e = equivocators(blocks);
    lemma_authors_of_both(blocks, p, q, both);
    lemma_stake_of_union(stakes, a, b);
    lemma_stake_of_at_most_total(stakes, a.union(b));
    lemma_stake_of_is_monotone(stakes, a.intersect(b), c.union(e));
    lemma_stake_of_union(stakes, c, e);
}

/// What a filter keeps.
proof fn lemma_kept(blocks: Seq<BlockView>, property: spec_fn(BlockView) -> bool, block: BlockView)
    ensures
        blocks.filter(property).contains(block) <==> blocks.contains(block) && property(block),
{
    if blocks.contains(block) && property(block) {
        blocks.lemma_filter_contains(property, blocks.index_of(block));
    }
    if blocks.filter(property).contains(block) {
        blocks.lemma_filter_contains_rev(property, block);
        let i = choose|i: int|
            0 <= i < blocks.filter(property).len() && blocks.filter(property)[i] == block;
        blocks.lemma_filter_pred(property, i);
    }
}

/// A filter keeps the references distinct.
proof fn lemma_kept_are_distinct(blocks: Seq<BlockView>, property: spec_fn(BlockView) -> bool)
    requires
        distinct_references(blocks),
    ensures
        distinct_references(blocks.filter(property)),
    decreases blocks.len(),
{
    reveal(Seq::filter);
    if blocks.len() > 0 {
        let rest = blocks.drop_last();
        let kept = rest.filter(property);
        lemma_kept_are_distinct(rest, property);
        if property(blocks.last()) {
            let all = blocks.filter(property);
            assert forall|i: int, j: int| 0 <= i < j < all.len() implies #[trigger] all[i].reference
                != #[trigger] all[j].reference by {
                assert(all[i] == kept[i]);
                if j < kept.len() {
                    assert(all[j] == kept[j]);
                } else {
                    assert(kept.contains(kept[i]));
                    lemma_kept(rest, property, kept[i]);
                    let k = choose|k: int| 0 <= k < rest.len() && rest[k] == kept[i];
                    assert(blocks[k].reference != blocks[blocks.len() - 1].reference);
                }
            }
        }
    }
}

/// The blocks of a round are the blocks that are in that round.
pub(crate) proof fn lemma_in_round(blocks: Seq<BlockView>, round: RoundNumber, block: BlockView)
    ensures
        blocks_by_round(blocks, round).contains(block) <==> blocks.contains(block) && block.round()
            == round,
{
    lemma_kept(blocks, |block: BlockView| block.round() == round, block);
}

/// The rivals of a block are the blocks that are its rivals.
pub(crate) proof fn lemma_among_rivals(blocks: Seq<BlockView>, block: BlockView, other: BlockView)
    ensures
        rivals(blocks, block).contains(other) <==> blocks.contains(other) && other.rivals(block),
{
    lemma_kept(blocks, |other: BlockView| other.rivals(block), other);
}

/// The proposals of a leader are its blocks in the leader round, each with its own reference.
pub(crate) proof fn lemma_among_proposals(
    committer: CommitterView,
    leader: AuthorityIndex,
    leader_round: RoundNumber,
    block: BlockView,
)
    ensures
        committer.proposals(leader, leader_round).contains(block) <==> committer.blocks.contains(
            block,
        ) && block.authority() == leader && block.round() == leader_round,
        distinct_references(committer.blocks) ==> distinct_references(
            committer.proposals(leader, leader_round),
        ),
{
    let proposed = |block: BlockView| block.authority() == leader && block.round() == leader_round;
    lemma_kept(committer.blocks, proposed, block);
    if distinct_references(committer.blocks) {
        lemma_kept_are_distinct(committer.blocks, proposed);
    }
}

/// What the direct rule may commit: the proposals with enough support.
pub(crate) proof fn lemma_among_directly_supported(
    committer: CommitterView,
    leader: AuthorityIndex,
    leader_round: RoundNumber,
    block: BlockView,
)
    ensures
        committer.directly_supported(leader, leader_round).contains(block)
            <==> committer.blocks.contains(block) && block.authority() == leader && block.round()
            == leader_round && committer.enough_support(
            committer.voting_round_of(leader_round),
            committer.decision_round_of(leader_round),
            block,
        ),
        distinct_references(committer.blocks) ==> distinct_references(
            committer.directly_supported(leader, leader_round),
        ),
{
    let supported = |proposal: BlockView|
        committer.enough_support(
            committer.voting_round_of(leader_round),
            committer.decision_round_of(leader_round),
            proposal,
        );
    lemma_among_proposals(committer, leader, leader_round, block);
    lemma_kept(committer.proposals(leader, leader_round), supported, block);
    if distinct_references(committer.blocks) {
        lemma_kept_are_distinct(committer.proposals(leader, leader_round), supported);
    }
}

/// What the indirect rule may commit: the proposals with enough support in the causal history of
/// the anchor.
pub(crate) proof fn lemma_among_indirectly_supported(
    committer: CommitterView,
    anchor: BlockView,
    leader: AuthorityIndex,
    leader_round: RoundNumber,
    block: BlockView,
)
    ensures
        committer.indirectly_supported(anchor, leader, leader_round).contains(block)
            <==> committer.blocks.contains(block) && block.authority() == leader && block.round()
            == leader_round && committer.enough_anchored_support(
            anchor,
            committer.voting_round_of(leader_round),
            committer.decision_round_of(leader_round),
            block,
        ),
        distinct_references(committer.blocks) ==> distinct_references(
            committer.indirectly_supported(anchor, leader, leader_round),
        ),
{
    let supported = |proposal: BlockView|
        committer.enough_anchored_support(
            anchor,
            committer.voting_round_of(leader_round),
            committer.decision_round_of(leader_round),
            proposal,
        );
    lemma_among_proposals(committer, leader, leader_round, block);
    lemma_kept(committer.proposals(leader, leader_round), supported, block);
    if distinct_references(committer.blocks) {
        lemma_kept_are_distinct(committer.proposals(leader, leader_round), supported);
    }
}

/// Of blocks that all have the same reference, though the references are distinct, there is at
/// most one.
pub(crate) proof fn lemma_at_most_one(blocks: Seq<BlockView>)
    requires
        distinct_references(blocks),
        forall|a: BlockView, b: BlockView| #[trigger]
            blocks.contains(a) && #[trigger] blocks.contains(b) ==> a.reference == b.reference,
    ensures
        blocks.len() <= 1,
{
    if blocks.len() > 1 {
        assert(blocks.contains(blocks[0]) && blocks.contains(blocks[1]));
        assert(blocks[0].reference != blocks[1].reference);
    }
}

/// Where a proposal has a vote in the causal history of a block, here is one.
proof fn lemma_some_vote(
    committer: CommitterView,
    block: BlockView,
    voting_round: RoundNumber,
    proposal: BlockView,
) -> (vote: BlockView)
    requires
        committer.vote_stake(block, voting_round, proposal) is Some,
    ensures
        blocks_by_round(committer.blocks, voting_round).contains(vote),
        committer.votes_for(vote, proposal),
        linked(committer.blocks, block, vote),
{
    let voters = committer.voters(block, voting_round, proposal);
    let candidates = blocks_by_round(committer.blocks, voting_round);
    assert(exists|a: AuthorityIndex| voters.contains(a)) by {
        if forall|a: AuthorityIndex| !voters.contains(a) {
            assert(voters =~= Set::<AuthorityIndex>::empty());
        }
    }
    let a = choose|a: AuthorityIndex| voters.contains(a);
    let i = choose|i: int|
        0 <= i < candidates.len() && committer.votes_for(#[trigger] candidates[i], proposal)
            && linked(committer.blocks, block, candidates[i]) && candidates[i].authority() == a;
    candidates[i]
}

/// A vote in the causal history of a block counts.
proof fn lemma_vote_counts(
    committer: CommitterView,
    block: BlockView,
    voting_round: RoundNumber,
    proposal: BlockView,
    vote: BlockView,
)
    requires
        blocks_by_round(committer.blocks, voting_round).contains(vote),
        committer.votes_for(vote, proposal),
        linked(committer.blocks, block, vote),
    ensures
        committer.vote_stake(block, voting_round, proposal) is Some,
{
    let candidates = blocks_by_round(committer.blocks, voting_round);
    let i = choose|i: int| 0 <= i < candidates.len() && candidates[i] == vote;
    assert(committer.votes_for(candidates[i], proposal));
    assert(committer.voters(block, voting_round, proposal).contains(vote.authority()));
}

/// A block that supports what the leader proposed has a vote for the leader in its causal history.
pub proof fn law_supports_back_the_leader(
    committer: CommitterView,
    block: BlockView,
    voting_round: RoundNumber,
    proposal: BlockView,
)
    requires
        committer.supports(block, voting_round, proposal),
    ensures
        committer.backs(block, voting_round, proposal.authority()),
{
    let vote = lemma_some_vote(committer, block, voting_round, proposal);
    let candidates = blocks_by_round(committer.blocks, voting_round);
    let i = choose|i: int| 0 <= i < candidates.len() && candidates[i] == vote;
    assert(candidates[i].names(proposal.authority()));
}

/// Where the leader made one proposal, a block supports it if and only if it has a vote for the
/// leader in its causal history. So each block either blames the leader or supports its proposal.
pub proof fn law_one_proposal_gets_every_vote(
    committer: CommitterView,
    block: BlockView,
    voting_round: RoundNumber,
    proposal: BlockView,
)
    requires
        rivals(committer.blocks, proposal).len() == 0,
    ensures
        committer.supports(block, voting_round, proposal) == committer.backs(
            block,
            voting_round,
            proposal.authority(),
        ),
{
    let candidates = blocks_by_round(committer.blocks, voting_round);
    if committer.supports(block, voting_round, proposal) {
        law_supports_back_the_leader(committer, block, voting_round, proposal);
    }
    if committer.backs(block, voting_round, proposal.authority()) {
        let i = choose|i: int|
            0 <= i < candidates.len() && #[trigger] candidates[i].names(proposal.authority())
                && linked(committer.blocks, block, candidates[i]);
        lemma_vote_counts(committer, block, voting_round, proposal, candidates[i]);
    }
}

/// A block does not support two proposals of a leader.
pub proof fn law_blocks_support_one_proposal(
    committer: CommitterView,
    block: BlockView,
    voting_round: RoundNumber,
    proposal: BlockView,
    other: BlockView,
)
    requires
        committer.blocks.contains(proposal),
        committer.blocks.contains(other),
        other.rivals(proposal),
    ensures
        !(committer.supports(block, voting_round, proposal) && committer.supports(
            block,
            voting_round,
            other,
        )),
{
    lemma_among_rivals(committer.blocks, proposal, other);
    lemma_among_rivals(committer.blocks, other, proposal);
    let others = rivals(committer.blocks, proposal);
    let k = choose|k: int| 0 <= k < others.len() && others[k] == other;
    let back = rivals(committer.blocks, other);
    let j = choose|j: int| 0 <= j < back.len() && back[j] == proposal;
    assert(committer.vote_stake(block, voting_round, others[k]) == committer.vote_stake(
        block,
        voting_round,
        other,
    ));
    assert(committer.vote_stake(block, voting_round, back[j]) == committer.vote_stake(
        block,
        voting_round,
        proposal,
    ));
}

/// In the voting round itself, a block has a vote for the leader if and only if it includes a block
/// of the leader.
pub proof fn law_votes_include_the_leader(
    committer: CommitterView,
    block: BlockView,
    leader: AuthorityIndex,
)
    requires
        distinct_references(committer.blocks),
        committer.blocks.contains(block),
    ensures
        committer.backs(block, block.round(), leader) == block.names(leader),
{
    let candidates = blocks_by_round(committer.blocks, block.round());
    lemma_in_round(committer.blocks, block.round(), block);
    if block.names(leader) {
        let i = choose|i: int| 0 <= i < candidates.len() && candidates[i] == block;
        assert(candidates[i].names(leader));
    }
    if committer.backs(block, block.round(), leader) {
        let i = choose|i: int|
            0 <= i < candidates.len() && #[trigger] candidates[i].names(leader) && linked(
                committer.blocks,
                block,
                candidates[i],
            );
        assert(candidates.contains(candidates[i]));
        lemma_in_round(committer.blocks, block.round(), candidates[i]);
        lemma_same_reference(committer.blocks, block, candidates[i]);
    }
}

/// As long as the faults in the decision round are tolerated, no proposal has enough support to be
/// directly committed while its leader has enough blame to be directly skipped.
pub proof fn law_direct_rules_exclude_each_other(
    committer: CommitterView,
    voting_round: RoundNumber,
    decision_round: RoundNumber,
    proposal: BlockView,
)
    requires
        faults_are_tolerated(committer, decision_round),
    ensures
        !(committer.enough_support(voting_round, decision_round, proposal)
            && committer.enough_blame(voting_round, decision_round, proposal.authority())),
{
    let blocks = blocks_by_round(committer.blocks, decision_round);
    let p = |block: BlockView| committer.supports(block, voting_round, proposal);
    let q = |block: BlockView| !committer.backs(block, voting_round, proposal.authority());
    let none = |block: BlockView| false;
    assert forall|block: BlockView| #[trigger] p(block) && q(block) implies none(block) by {
        law_supports_back_the_leader(committer, block, voting_round, proposal);
    }
    lemma_stake_of_both(committer.stakes, blocks, p, q, none);
    assert(authors(blocks, none) =~= Set::<AuthorityIndex>::empty());
    lemma_stake_of_nobody(committer.stakes);
    assert(authors(blocks, p) =~= committer.supporters(voting_round, decision_round, proposal));
    assert(authors(blocks, q) =~= committer.blamers(
        voting_round,
        decision_round,
        proposal.authority(),
    ));
}

/// As long as the faults in the decision round are tolerated, no anchor commits a proposal of a
/// leader that has enough blame to be directly skipped.
pub proof fn law_direct_skip_excludes_indirect_commit(
    committer: CommitterView,
    anchor: BlockView,
    voting_round: RoundNumber,
    decision_round: RoundNumber,
    proposal: BlockView,
)
    requires
        faults_are_tolerated(committer, decision_round),
        committer.enough_blame(voting_round, decision_round, proposal.authority()),
    ensures
        !committer.enough_anchored_support(anchor, voting_round, decision_round, proposal),
{
    let blocks = blocks_by_round(committer.blocks, decision_round);
    let p = |block: BlockView|
        linked(committer.blocks, anchor, block) && committer.supports(
            block,
            voting_round,
            proposal,
        );
    let q = |block: BlockView| !committer.backs(block, voting_round, proposal.authority());
    let none = |block: BlockView| false;
    assert forall|block: BlockView| #[trigger] p(block) && q(block) implies none(block) by {
        law_supports_back_the_leader(committer, block, voting_round, proposal);
    }
    lemma_stake_of_both(committer.stakes, blocks, p, q, none);
    assert(authors(blocks, none) =~= Set::<AuthorityIndex>::empty());
    lemma_stake_of_nobody(committer.stakes);
    assert(authors(blocks, p) =~= committer.anchored_supporters(
        anchor,
        voting_round,
        decision_round,
        proposal,
    ));
    assert(authors(blocks, q) =~= committer.blamers(
        voting_round,
        decision_round,
        proposal.authority(),
    ));
}

/// As long as the faults in the decision round are tolerated, every anchor with a quorum of the
/// decision round in its causal history finds enough support for a proposal that has enough support
/// to be directly committed.
pub proof fn law_direct_commit_implies_indirect_commit(
    committer: CommitterView,
    anchor: BlockView,
    voting_round: RoundNumber,
    decision_round: RoundNumber,
    proposal: BlockView,
)
    requires
        faults_are_tolerated(committer, decision_round),
        is_quorum(
            committer.stakes,
            stake_of(committer.stakes, reached(committer, anchor, decision_round)),
        ),
        committer.enough_support(voting_round, decision_round, proposal),
    ensures
        committer.enough_anchored_support(anchor, voting_round, decision_round, proposal),
{
    let blocks = blocks_by_round(committer.blocks, decision_round);
    let p = |block: BlockView| committer.supports(block, voting_round, proposal);
    let q = |block: BlockView| linked(committer.blocks, anchor, block);
    let both = |block: BlockView|
        linked(committer.blocks, anchor, block) && committer.supports(
            block,
            voting_round,
            proposal,
        );
    lemma_stake_of_both(committer.stakes, blocks, p, q, both);
    assert(authors(blocks, p) =~= committer.supporters(voting_round, decision_round, proposal));
    assert(authors(blocks, q) =~= reached(committer, anchor, decision_round));
    assert(authors(blocks, both) =~= committer.anchored_supporters(
        anchor,
        voting_round,
        decision_round,
        proposal,
    ));
}

/// As long as the faults in the decision round are tolerated, at most one proposal of a leader has
/// enough support to be directly committed, and then no anchor finds enough support for another
/// one.
pub proof fn law_at_most_one_proposal_has_enough_support(
    committer: CommitterView,
    anchor: BlockView,
    voting_round: RoundNumber,
    decision_round: RoundNumber,
    proposal: BlockView,
    other: BlockView,
)
    requires
        faults_are_tolerated(committer, decision_round),
        committer.blocks.contains(proposal),
        committer.blocks.contains(other),
        other.rivals(proposal),
        committer.enough_support(voting_round, decision_round, proposal),
    ensures
        !committer.enough_support(voting_round, decision_round, other),
        !committer.enough_anchored_support(anchor, voting_round, decision_round, other),
{
    let blocks = blocks_by_round(committer.blocks, decision_round);
    let p = |block: BlockView| committer.supports(block, voting_round, proposal);
    let q = |block: BlockView| committer.supports(block, voting_round, other);
    let r = |block: BlockView|
        linked(committer.blocks, anchor, block) && committer.supports(block, voting_round, other);
    let none = |block: BlockView| false;
    assert forall|block: BlockView| #[trigger] p(block) implies !q(block) by {
        law_blocks_support_one_proposal(committer, block, voting_round, proposal, other);
    }
    lemma_stake_of_both(committer.stakes, blocks, p, q, none);
    lemma_stake_of_both(committer.stakes, blocks, p, r, none);
    assert(authors(blocks, none) =~= Set::<AuthorityIndex>::empty());
    lemma_stake_of_nobody(committer.stakes);
    assert(authors(blocks, p) =~= committer.supporters(voting_round, decision_round, proposal));
    assert(authors(blocks, q) =~= committer.supporters(voting_round, decision_round, other));
    assert(authors(blocks, r) =~= committer.anchored_supporters(
        anchor,
        voting_round,
        decision_round,
        other,
    ));
}

/// As long as the faults in the decision round are tolerated, the direct rule does not find two
/// proposals to commit, however many the leader made.
pub proof fn law_direct_rule_is_undisputed(
    committer: CommitterView,
    leader: AuthorityIndex,
    leader_round: RoundNumber,
)
    requires
        distinct_references(committer.blocks),
        faults_are_tolerated(committer, committer.decision_round_of(leader_round)),
    ensures
        committer.directly_undisputed(leader, leader_round),
        committer.directly_supported(leader, leader_round).len() <= 1,
{
    let supported = committer.directly_supported(leader, leader_round);
    assert forall|a: BlockView, b: BlockView| #[trigger]
        supported.contains(a) && #[trigger] supported.contains(b) implies a.reference
        == b.reference by {
        lemma_among_directly_supported(committer, leader, leader_round, a);
        lemma_among_directly_supported(committer, leader, leader_round, b);
        if a.reference != b.reference {
            law_at_most_one_proposal_has_enough_support(
                committer,
                a,
                committer.voting_round_of(leader_round),
                committer.decision_round_of(leader_round),
                a,
                b,
            );
        }
    }
    if supported.len() > 0 {
        lemma_among_directly_supported(committer, leader, leader_round, supported[0]);
        lemma_at_most_one(supported);
    }
}

/// The votes for a leader are split: there are votes for two of its proposals.
pub open spec fn votes_are_split(
    committer: CommitterView,
    leader: AuthorityIndex,
    leader_round: RoundNumber,
) -> bool {
    exists|proposal: BlockView, other: BlockView, vote: BlockView, other_vote: BlockView|
        {
            let proposals = committer.proposals(leader, leader_round);
            let votes = blocks_by_round(
                committer.blocks,
                committer.voting_round_of(leader_round),
            );
            &&& proposals.contains(proposal) && proposals.contains(other)
            &&& proposal.reference != other.reference
            &&& votes.contains(vote) && votes.contains(other_vote)
            &&& #[trigger] committer.votes_for(vote, proposal)
            &&& #[trigger] committer.votes_for(other_vote, other)
        }
}

/// A proposal with enough support in the causal history of an anchor has a vote.
proof fn lemma_supported_has_vote(
    committer: CommitterView,
    anchor: BlockView,
    voting_round: RoundNumber,
    decision_round: RoundNumber,
    proposal: BlockView,
) -> (vote: BlockView)
    requires
        committer.enough_anchored_support(anchor, voting_round, decision_round, proposal),
    ensures
        blocks_by_round(committer.blocks, voting_round).contains(vote),
        committer.votes_for(vote, proposal),
{
    let supporters = committer.anchored_supporters(anchor, voting_round, decision_round, proposal);
    let blocks = blocks_by_round(committer.blocks, decision_round);
    lemma_stake_of_nobody(committer.stakes);
    assert(exists|a: AuthorityIndex| supporters.contains(a)) by {
        if forall|a: AuthorityIndex| !supporters.contains(a) {
            assert(supporters =~= Set::<AuthorityIndex>::empty());
        }
    }
    let a = choose|a: AuthorityIndex| supporters.contains(a);
    let i = choose|i: int|
        0 <= i < blocks.len() && linked(committer.blocks, anchor, #[trigger] blocks[i])
            && committer.supports(blocks[i], voting_round, proposal) && blocks[i].authority() == a;
    lemma_some_vote(committer, blocks[i], voting_round, proposal)
}

/// As long as the votes for a leader are not split, no anchor finds enough support for two proposals,
/// however many the leader made.
pub proof fn law_indirect_rule_is_undisputed(
    committer: CommitterView,
    anchor: BlockView,
    leader: AuthorityIndex,
    leader_round: RoundNumber,
)
    requires
        distinct_references(committer.blocks),
        !votes_are_split(committer, leader, leader_round),
    ensures
        committer.indirectly_undisputed(anchor, leader, leader_round),
{
    let voting_round = committer.voting_round_of(leader_round);
    let decision_round = committer.decision_round_of(leader_round);
    let supported = committer.indirectly_supported(anchor, leader, leader_round);
    assert forall|a: BlockView, b: BlockView| #[trigger]
        supported.contains(a) && #[trigger] supported.contains(b) implies a.reference
        == b.reference by {
        lemma_among_indirectly_supported(committer, anchor, leader, leader_round, a);
        lemma_among_indirectly_supported(committer, anchor, leader, leader_round, b);
        lemma_among_proposals(committer, leader, leader_round, a);
        lemma_among_proposals(committer, leader, leader_round, b);
        let vote = lemma_supported_has_vote(committer, anchor, voting_round, decision_round, a);
        let other_vote = lemma_supported_has_vote(
            committer,
            anchor,
            voting_round,
            decision_round,
            b,
        );
        assert(committer.votes_for(vote, a) && committer.votes_for(other_vote, b));
    }
    if supported.len() > 0 {
        lemma_among_indirectly_supported(committer, anchor, leader, leader_round, supported[0]);
        lemma_at_most_one(supported);
    }
}

/// Both rules speak of the leader that they are asked about: the status names it and its round,
/// and what is committed is a block of the DAG that the leader proposed for that round.
pub proof fn law_status_is_of_the_leader(
    committer: CommitterView,
    leader: AuthorityIndex,
    leader_round: RoundNumber,
    later: Seq<StatusView>,
)
    ensures
        committer.direct_status(leader, leader_round).authority() == leader,
        committer.direct_status(leader, leader_round).round() == leader_round,
        committer.direct_status(leader, leader_round) matches StatusView::Commit(block)
            ==> committer.blocks.contains(block),
        committer.indirect_status(leader, leader_round, later).authority() == leader,
        committer.indirect_status(leader, leader_round, later).round() == leader_round,
        committer.indirect_status(leader, leader_round, later) matches StatusView::Commit(block)
            ==> committer.blocks.contains(block),
{
    let supported = committer.directly_supported(leader, leader_round);
    if supported.len() > 0 {
        assert(supported.contains(supported[0]));
        lemma_among_directly_supported(committer, leader, leader_round, supported[0]);
    }
    if let Some(anchor) = committer.anchor(leader_round, later) {
        let supported = committer.indirectly_supported(anchor, leader, leader_round);
        if supported.len() > 0 {
            assert(supported.contains(supported[0]));
            lemma_among_indirectly_supported(
                committer,
                anchor,
                leader,
                leader_round,
                supported[0],
            );
        }
    }
}

/// A later leader bears on the anchor of a leader: it leads a round at least one wave later, and it
/// is not skipped.
pub open spec fn bears_on_anchor(
    committer: CommitterView,
    leader_round: RoundNumber,
    status: StatusView,
) -> bool {
    status.round() >= leader_round + committer.options.wave_length && !(status is Skip)
}

/// The anchor is the first of the later leaders that bear on it, if that one is committed.
pub proof fn law_anchor_is_the_first_bearing_leader(
    committer: CommitterView,
    leader_round: RoundNumber,
    leaders: Seq<StatusView>,
)
    ensures
        ({
            let bearing = leaders.filter(
                |status: StatusView| bears_on_anchor(committer, leader_round, status),
            );
            committer.anchor(leader_round, leaders) == if bearing.len() > 0 && bearing[0] is Commit {
                Some(bearing[0]->Commit_0)
            } else {
                None
            }
        }),
    decreases leaders.len(),
{
    let bears = |status: StatusView| bears_on_anchor(committer, leader_round, status);
    if leaders.len() == 0 {
        reveal(Seq::filter);
    } else {
        let first = seq![leaders[0]];
        assert(leaders =~= first + leaders.drop_first());
        Seq::filter_distributes_over_add(first, leaders.drop_first(), bears);
        assert(first.drop_last() =~= Seq::<StatusView>::empty());
        reveal_with_fuel(Seq::filter, 2);
        law_anchor_is_the_first_bearing_leader(committer, leader_round, leaders.drop_first());
    }
}

/// Only the later leaders that bear on the anchor matter for the indirect rule: skipped leaders, and
/// those of rounds less than a wave later, can come and go without changing what it decides.
pub proof fn law_only_bearing_leaders_matter(
    committer: CommitterView,
    leader: AuthorityIndex,
    leader_round: RoundNumber,
    leaders: Seq<StatusView>,
    others: Seq<StatusView>,
)
    requires
        leaders.filter(|status: StatusView| bears_on_anchor(committer, leader_round, status))
            == others.filter(
            |status: StatusView| bears_on_anchor(committer, leader_round, status),
        ),
    ensures
        committer.indirect_status(leader, leader_round, leaders) == committer.indirect_status(
            leader,
            leader_round,
            others,
        ),
{
    law_anchor_is_the_first_bearing_leader(committer, leader_round, leaders);
    law_anchor_is_the_first_bearing_leader(committer, leader_round, others);
}

/// As long as the faults in the decision round are tolerated, the direct rule commits the proposal
/// that has enough support, whatever else the leader proposed.
pub proof fn law_supported_proposal_is_directly_committed(
    committer: CommitterView,
    leader_round: RoundNumber,
    proposal: BlockView,
)
    requires
        distinct_references(committer.blocks),
        faults_are_tolerated(committer, committer.decision_round_of(leader_round)),
        committer.blocks.contains(proposal),
        proposal.round() == leader_round,
        committer.enough_support(
            committer.voting_round_of(leader_round),
            committer.decision_round_of(leader_round),
            proposal,
        ),
    ensures
        committer.direct_status(proposal.authority(), leader_round) == StatusView::Commit(proposal),
{
    let leader = proposal.authority();
    law_direct_rules_exclude_each_other(
        committer,
        committer.voting_round_of(leader_round),
        committer.decision_round_of(leader_round),
        proposal,
    );
    law_direct_rule_is_undisputed(committer, leader, leader_round);
    lemma_among_directly_supported(committer, leader, leader_round, proposal);
}

/// An anchor commits the proposal that has enough support in its causal history, whatever else the
/// leader proposed without such support.
pub proof fn law_supported_proposal_is_indirectly_committed(
    committer: CommitterView,
    anchor: BlockView,
    leader_round: RoundNumber,
    proposal: BlockView,
)
    requires
        committer.blocks.contains(proposal),
        proposal.round() == leader_round,
        committer.enough_anchored_support(
            anchor,
            committer.voting_round_of(leader_round),
            committer.decision_round_of(leader_round),
            proposal,
        ),
        committer.indirectly_undisputed(anchor, proposal.authority(), leader_round),
    ensures
        committer.status_from_anchor(anchor, proposal.authority(), leader_round)
            == StatusView::Commit(proposal),
{
    lemma_among_indirectly_supported(
        committer,
        anchor,
        proposal.authority(),
        leader_round,
        proposal,
    );
}

/// The two rules agree: as long as the faults in the decision round are tolerated, what the direct
/// rule decides is what the indirect rule decides, without dispute. An anchor that is to confirm a
/// commit has a quorum of the decision round in its causal history.
pub proof fn law_rules_agree(
    committer: CommitterView,
    anchor: BlockView,
    leader: AuthorityIndex,
    leader_round: RoundNumber,
)
    requires
        distinct_references(committer.blocks),
        faults_are_tolerated(committer, committer.decision_round_of(leader_round)),
        committer.direct_status(leader, leader_round).is_decided(),
        committer.direct_status(leader, leader_round) is Commit ==> is_quorum(
            committer.stakes,
            stake_of(
                committer.stakes,
                reached(committer, anchor, committer.decision_round_of(leader_round)),
            ),
        ),
    ensures
        committer.indirectly_undisputed(anchor, leader, leader_round),
        committer.status_from_anchor(anchor, leader, leader_round) == committer.direct_status(
            leader,
            leader_round,
        ),
{
    let voting_round = committer.voting_round_of(leader_round);
    let decision_round = committer.decision_round_of(leader_round);
    let supported = committer.indirectly_supported(anchor, leader, leader_round);
    if committer.directly_skipped(leader, leader_round) {
        if supported.len() > 0 {
            assert(supported.contains(supported[0]));
            lemma_among_indirectly_supported(
                committer,
                anchor,
                leader,
                leader_round,
                supported[0],
            );
            law_direct_skip_excludes_indirect_commit(
                committer,
                anchor,
                voting_round,
                decision_round,
                supported[0],
            );
        }
    } else {
        let proposal = committer.directly_supported(leader, leader_round)[0];
        assert(committer.directly_supported(leader, leader_round).contains(proposal));
        lemma_among_directly_supported(committer, leader, leader_round, proposal);
        law_direct_commit_implies_indirect_commit(
            committer,
            anchor,
            voting_round,
            decision_round,
            proposal,
        );
        lemma_among_indirectly_supported(committer, anchor, leader, leader_round, proposal);
        assert forall|a: BlockView| #[trigger] supported.contains(a) implies a.reference
            == proposal.reference by {
            lemma_among_indirectly_supported(committer, anchor, leader, leader_round, a);
            if a.reference != proposal.reference {
                law_at_most_one_proposal_has_enough_support(
                    committer,
                    anchor,
                    voting_round,
                    decision_round,
                    proposal,
                    a,
                );
            }
        }
        lemma_at_most_one(supported);
    }
}

/// An anchor with a larger causal history does not turn a commit into a skip: where an anchor
/// commits a proposal, so does every anchor that has it in its causal history, unless that one
/// finds enough support for two proposals.
pub proof fn law_larger_history_keeps_the_commit(
    committer: CommitterView,
    anchor: BlockView,
    later_anchor: BlockView,
    leader: AuthorityIndex,
    leader_round: RoundNumber,
)
    requires
        distinct_references(committer.blocks),
        committer.blocks.contains(anchor),
        later_anchor.reference == anchor.reference ==> later_anchor == anchor,
        linked(committer.blocks, later_anchor, anchor),
        committer.status_from_anchor(anchor, leader, leader_round) is Commit,
        committer.indirectly_undisputed(later_anchor, leader, leader_round),
    ensures
        committer.status_from_anchor(later_anchor, leader, leader_round)
            == committer.status_from_anchor(anchor, leader, leader_round),
{
    let voting_round = committer.voting_round_of(leader_round);
    let decision_round = committer.decision_round_of(leader_round);
    let blocks = blocks_by_round(committer.blocks, decision_round);
    let proposal = committer.indirectly_supported(anchor, leader, leader_round)[0];
    assert(committer.indirectly_supported(anchor, leader, leader_round).contains(proposal));
    lemma_among_indirectly_supported(committer, anchor, leader, leader_round, proposal);
    let before = committer.anchored_supporters(anchor, voting_round, decision_round, proposal);
    let after = committer.anchored_supporters(
        later_anchor,
        voting_round,
        decision_round,
        proposal,
    );
    assert forall|a: AuthorityIndex| before.contains(a) implies after.contains(a) by {
        let i = choose|i: int|
            0 <= i < blocks.len() && linked(committer.blocks, anchor, #[trigger] blocks[i])
                && committer.supports(blocks[i], voting_round, proposal) && blocks[i].authority()
                == a;
        assert(blocks.contains(blocks[i]));
        lemma_in_round(committer.blocks, decision_round, blocks[i]);
        law_links_are_transitive(committer.blocks, later_anchor, anchor, blocks[i]);
        assert(linked(committer.blocks, later_anchor, blocks[i]));
    }
    lemma_stake_of_is_monotone(committer.stakes, before, after);
    lemma_among_indirectly_supported(committer, later_anchor, leader, leader_round, proposal);
}

/// A link leads to the block itself or to a lower round.
pub proof fn law_links_lead_to_lower_rounds(
    blocks: Seq<BlockView>,
    later: BlockView,
    earlier: BlockView,
)
    requires
        linked(blocks, later, earlier),
    ensures
        later.reference == earlier.reference || earlier.round() < later.round(),
{
}

/// The causal history of a block of the causal history is part of it.
pub proof fn law_links_are_transitive(
    blocks: Seq<BlockView>,
    later: BlockView,
    middle: BlockView,
    earlier: BlockView,
)
    requires
        distinct_references(blocks),
        later.reference == middle.reference ==> later == middle,
        blocks.contains(middle),
        blocks.contains(earlier),
        linked(blocks, later, middle),
        linked(blocks, middle, earlier),
    ensures
        linked(blocks, later, earlier),
    decreases middle.round() - earlier.round(),
{
    if later == middle {
    } else if middle.reference == earlier.reference {
        lemma_same_reference(blocks, middle, earlier);
    } else {
        let m = blocks.index_of(middle);
        if middle.includes.contains(earlier.reference) {
            assert(earlier.round() < blocks[m].round() < later.round());
        } else {
            let i = choose|i: int|
                0 <= i < blocks.len() && earlier.round() < #[trigger] blocks[i].round()
                    < middle.round() && blocks[i].includes.contains(earlier.reference) && linked(
                    blocks,
                    middle,
                    blocks[i],
                );
            law_links_are_transitive(blocks, later, middle, blocks[i]);
        }
    }
}

/// A block is known by its reference.
pub(crate) proof fn lemma_same_reference(blocks: Seq<BlockView>, a: BlockView, b: BlockView)
    requires
        distinct_references(blocks),
        blocks.contains(a),
        blocks.contains(b),
        a.reference == b.reference,
    ensures
        a == b,
{
    let i = choose|i: int| 0 <= i < blocks.len() && blocks[i] == a;
    let j = choose|j: int| 0 <= j < blocks.len() && blocks[j] == b;
    assert(blocks[i].reference == blocks[j].reference);
}

/// The authorities of the preceding round of which `block` includes a block.
pub open spec fn parents(committer: CommitterView, block: BlockView) -> Set<AuthorityIndex> {
    authors(
        blocks_by_round(committer.blocks, (block.round() - 1) as RoundNumber),
        |parent: BlockView| block.includes.contains(parent.reference),
    )
}

/// Each block after the genesis includes blocks of a quorum of the preceding round.
pub open spec fn well_connected(committer: CommitterView) -> bool {
    forall|i: int|
        0 <= i < committer.blocks.len() && (#[trigger] committer.blocks[i]).round() > 0
            ==> is_quorum(
            committer.stakes,
            stake_of(committer.stakes, parents(committer, committer.blocks[i])),
        )
}

/// In a well connected DAG, every block has a quorum of each lower round in its causal history.
pub proof fn law_anchors_reach_a_quorum(
    committer: CommitterView,
    anchor: BlockView,
    round: RoundNumber,
)
    requires
        distinct_references(committer.blocks),
        well_connected(committer),
        committer.blocks.contains(anchor),
        round < anchor.round(),
    ensures
        is_quorum(committer.stakes, stake_of(committer.stakes, reached(committer, anchor, round))),
    decreases anchor.round(),
{
    let i = choose|i: int| 0 <= i < committer.blocks.len() && committer.blocks[i] == anchor;
    assert(committer.blocks[i].round() > 0);
    let below = (anchor.round() - 1) as RoundNumber;
    let blocks = blocks_by_round(committer.blocks, below);
    let included = parents(committer, anchor);
    if round == below {
        assert forall|a: AuthorityIndex| included.contains(a) implies reached(
            committer,
            anchor,
            round,
        ).contains(a) by {
            let j = choose|j: int|
                0 <= j < blocks.len() && anchor.includes.contains(
                    (#[trigger] blocks[j]).reference,
                ) && blocks[j].authority() == a;
            lemma_in_round(committer.blocks, below, blocks[j]);
            assert(linked(committer.blocks, anchor, blocks[j]));
        }
        lemma_stake_of_is_monotone(
            committer.stakes,
            included,
            reached(committer, anchor, round),
        );
    } else {
        lemma_stake_of_nobody(committer.stakes);
        assert(exists|a: AuthorityIndex| included.contains(a)) by {
            if forall|a: AuthorityIndex| !included.contains(a) {
                assert(included =~= Set::<AuthorityIndex>::empty());
            }
        }
        let a = choose|a: AuthorityIndex| included.contains(a);
        let j = choose|j: int|
            0 <= j < blocks.len() && anchor.includes.contains((#[trigger] blocks[j]).reference)
                && blocks[j].authority() == a;
        let parent = blocks[j];
        lemma_in_round(committer.blocks, below, parent);
        law_anchors_reach_a_quorum(committer, parent, round);
        let ancestors = blocks_by_round(committer.blocks, round);
        assert forall|b: AuthorityIndex| reached(committer, parent, round).contains(b) implies
            reached(committer, anchor, round).contains(b) by {
            let k = choose|k: int|
                0 <= k < ancestors.len() && linked(
                    committer.blocks,
                    parent,
                    #[trigger] ancestors[k],
                ) && ancestors[k].authority() == b;
            lemma_in_round(committer.blocks, round, ancestors[k]);
            law_links_are_transitive(committer.blocks, anchor, parent, ancestors[k]);
            assert(linked(committer.blocks, anchor, ancestors[k]));
        }
        lemma_stake_of_is_monotone(
            committer.stakes,
            reached(committer, parent, round),
            reached(committer, anchor, round),
        );
    }
}

/// Every block that one of the blocks includes is there.
pub open spec fn complete(blocks: Seq<BlockView>) -> bool {
    forall|i: int, k: int|
        0 <= i < blocks.len() && 0 <= k < blocks[i].includes.len() ==> has_reference(
            blocks,
            #[trigger] blocks[i].includes[k],
        )
}

/// The DAG of `after` has all the blocks of that of `before`, in any order, and more. That of
/// `before` has what its blocks include.
pub open spec fn grows(before: CommitterView, after: CommitterView) -> bool {
    &&& after.stakes == before.stakes
    &&& after.options == before.options
    &&& forall|i: int|
        0 <= i < before.blocks.len() ==> after.blocks.contains(#[trigger] before.blocks[i])
    &&& complete(before.blocks)
    &&& distinct_references(after.blocks)
}

/// Each vote for the leader includes what the leader proposed for the leader round, and not only
/// blocks of the leader in other rounds.
pub open spec fn votes_include_proposals(
    committer: CommitterView,
    leader: AuthorityIndex,
    leader_round: RoundNumber,
) -> bool {
    forall|vote: BlockView|
        blocks_by_round(committer.blocks, committer.voting_round_of(leader_round)).contains(vote)
            && #[trigger] vote.names(leader) ==> exists|proposal: BlockView|
            committer.proposals(leader, leader_round).contains(proposal)
                && vote.includes.contains(#[trigger] proposal.reference)
}

/// The votes for the leader stay for what they were for: there is no new proposal, or the votes
/// include the old ones.
pub open spec fn votes_stay(
    before: CommitterView,
    after: CommitterView,
    leader: AuthorityIndex,
    leader_round: RoundNumber,
) -> bool {
    ||| forall|proposal: BlockView| #[trigger]
        after.proposals(leader, leader_round).contains(proposal) ==> before.blocks.contains(
            proposal,
        )
    ||| votes_include_proposals(before, leader, leader_round)
}

/// A block that was there before is there after.
pub(crate) proof fn lemma_old_is_there(before: CommitterView, after: CommitterView, a: BlockView)
    requires
        grows(before, after),
        before.blocks.contains(a),
    ensures
        after.blocks.contains(a),
{
    let i = choose|i: int| 0 <= i < before.blocks.len() && before.blocks[i] == a;
    assert(after.blocks.contains(before.blocks[i]));
}

/// A block of which the reference was there is an old block.
proof fn lemma_old_reference(before: CommitterView, after: CommitterView, a: BlockView)
    requires
        grows(before, after),
        after.blocks.contains(a),
        has_reference(before.blocks, a.reference),
    ensures
        before.blocks.contains(a),
{
    let j = choose|j: int|
        0 <= j < before.blocks.len() && #[trigger] before.blocks[j].reference == a.reference;
    assert(before.blocks.contains(before.blocks[j]));
    lemma_old_is_there(before, after, before.blocks[j]);
    lemma_same_reference(after.blocks, before.blocks[j], a);
}

/// What a block includes is there.
proof fn lemma_includes_are_there(blocks: Seq<BlockView>, a: BlockView, reference: BlockReference)
    requires
        complete(blocks),
        blocks.contains(a),
        a.includes.contains(reference),
    ensures
        has_reference(blocks, reference),
{
    let i = choose|i: int| 0 <= i < blocks.len() && blocks[i] == a;
    let k = choose|k: int| 0 <= k < a.includes.len() && a.includes[k] == reference;
    assert(has_reference(blocks, blocks[i].includes[k]));
}

/// More blocks only add links.
proof fn lemma_links_stay(before: CommitterView, after: CommitterView, a: BlockView, b: BlockView)
    requires
        grows(before, after),
        linked(before.blocks, a, b),
    ensures
        linked(after.blocks, a, b),
    decreases a.round() - b.round(),
{
    if a.reference != b.reference && !(b.round() < a.round() && a.includes.contains(b.reference)) {
        let i = choose|i: int|
            0 <= i < before.blocks.len() && b.round() < #[trigger] before.blocks[i].round()
                < a.round() && before.blocks[i].includes.contains(b.reference) && linked(
                before.blocks,
                a,
                before.blocks[i],
            );
        let middle = before.blocks[i];
        lemma_links_stay(before, after, a, middle);
        assert(after.blocks.contains(middle));
        let j = choose|j: int| 0 <= j < after.blocks.len() && after.blocks[j] == middle;
        assert(b.round() < after.blocks[j].round() < a.round());
    }
}

/// More blocks add no links from a block that was there.
proof fn lemma_no_new_links(before: CommitterView, after: CommitterView, a: BlockView, b: BlockView)
    requires
        grows(before, after),
        before.blocks.contains(a),
        linked(after.blocks, a, b),
    ensures
        has_reference(before.blocks, b.reference),
        linked(before.blocks, a, b),
    decreases a.round() - b.round(),
{
    if a.reference == b.reference {
        let i = choose|i: int| 0 <= i < before.blocks.len() && before.blocks[i] == a;
        assert(before.blocks[i].reference == b.reference);
    } else if b.round() < a.round() && a.includes.contains(b.reference) {
        lemma_includes_are_there(before.blocks, a, b.reference);
    } else {
        let i = choose|i: int|
            0 <= i < after.blocks.len() && b.round() < #[trigger] after.blocks[i].round()
                < a.round() && after.blocks[i].includes.contains(b.reference) && linked(
                after.blocks,
                a,
                after.blocks[i],
            );
        let middle = after.blocks[i];
        lemma_no_new_links(before, after, a, middle);
        assert(after.blocks.contains(middle));
        lemma_old_reference(before, after, middle);
        let j = choose|j: int| 0 <= j < before.blocks.len() && before.blocks[j] == middle;
        lemma_includes_are_there(before.blocks, middle, b.reference);
        assert(b.round() < before.blocks[j].round() < a.round());
    }
}

/// A block that an old block links to is an old block.
proof fn lemma_linked_is_old(before: CommitterView, after: CommitterView, a: BlockView, b: BlockView)
    requires
        grows(before, after),
        before.blocks.contains(a),
        after.blocks.contains(b),
        linked(after.blocks, a, b),
    ensures
        before.blocks.contains(b),
{
    lemma_no_new_links(before, after, a, b);
    lemma_old_reference(before, after, b);
}

/// The authorities of the old blocks with a property are among those of all blocks.
proof fn lemma_authors_stay(
    before: CommitterView,
    after: CommitterView,
    round: RoundNumber,
    p: spec_fn(BlockView) -> bool,
    q: spec_fn(BlockView) -> bool,
)
    requires
        grows(before, after),
        forall|block: BlockView|
            before.blocks.contains(block) && block.round() == round && #[trigger] p(block) ==> q(
                block,
            ),
    ensures
        authors(blocks_by_round(before.blocks, round), p).subset_of(
            authors(blocks_by_round(after.blocks, round), q),
        ),
{
    let old_blocks = blocks_by_round(before.blocks, round);
    let blocks = blocks_by_round(after.blocks, round);
    assert forall|a: AuthorityIndex| authors(old_blocks, p).contains(a) implies authors(
        blocks,
        q,
    ).contains(a) by {
        let i = choose|i: int|
            0 <= i < old_blocks.len() && p(#[trigger] old_blocks[i]) && old_blocks[i].authority()
                == a;
        let block = old_blocks[i];
        assert(old_blocks.contains(block));
        lemma_in_round(before.blocks, round, block);
        lemma_old_is_there(before, after, block);
        lemma_in_round(after.blocks, round, block);
        let j = choose|j: int| 0 <= j < blocks.len() && blocks[j] == block;
        assert(q(blocks[j]));
    }
}

/// Where only old blocks have a property, their authorities stay the same.
proof fn lemma_authors_are_the_same(
    before: CommitterView,
    after: CommitterView,
    round: RoundNumber,
    p: spec_fn(BlockView) -> bool,
    q: spec_fn(BlockView) -> bool,
)
    requires
        grows(before, after),
        forall|block: BlockView|
            before.blocks.contains(block) && block.round() == round ==> #[trigger] p(block) == q(
                block,
            ),
        forall|block: BlockView|
            after.blocks.contains(block) && block.round() == round && #[trigger] q(block)
                ==> before.blocks.contains(block),
    ensures
        authors(blocks_by_round(before.blocks, round), p) == authors(
            blocks_by_round(after.blocks, round),
            q,
        ),
{
    let old_blocks = blocks_by_round(before.blocks, round);
    let blocks = blocks_by_round(after.blocks, round);
    lemma_authors_stay(before, after, round, p, q);
    assert forall|a: AuthorityIndex| authors(blocks, q).contains(a) implies authors(
        old_blocks,
        p,
    ).contains(a) by {
        let i = choose|i: int|
            0 <= i < blocks.len() && q(#[trigger] blocks[i]) && blocks[i].authority() == a;
        let block = blocks[i];
        assert(blocks.contains(block));
        lemma_in_round(after.blocks, round, block);
        assert(before.blocks.contains(block));
        lemma_in_round(before.blocks, round, block);
        let j = choose|j: int| 0 <= j < old_blocks.len() && old_blocks[j] == block;
        assert(p(old_blocks[j]) == q(old_blocks[j]));
    }
    assert(authors(old_blocks, p) =~= authors(blocks, q));
}

/// Whether a block has a vote for the leader in its causal history does not change.
proof fn lemma_backing_stays(
    before: CommitterView,
    after: CommitterView,
    block: BlockView,
    voting_round: RoundNumber,
    leader: AuthorityIndex,
)
    requires
        grows(before, after),
        before.blocks.contains(block),
    ensures
        after.backs(block, voting_round, leader) == before.backs(block, voting_round, leader),
{
    let old_votes = blocks_by_round(before.blocks, voting_round);
    let votes = blocks_by_round(after.blocks, voting_round);
    if before.backs(block, voting_round, leader) {
        let i = choose|i: int|
            0 <= i < old_votes.len() && #[trigger] old_votes[i].names(leader) && linked(
                before.blocks,
                block,
                old_votes[i],
            );
        let vote = old_votes[i];
        assert(old_votes.contains(vote));
        lemma_in_round(before.blocks, voting_round, vote);
        lemma_old_is_there(before, after, vote);
        lemma_links_stay(before, after, block, vote);
        lemma_in_round(after.blocks, voting_round, vote);
        let j = choose|j: int| 0 <= j < votes.len() && votes[j] == vote;
        assert(votes[j].names(leader));
    }
    if after.backs(block, voting_round, leader) {
        let i = choose|i: int|
            0 <= i < votes.len() && #[trigger] votes[i].names(leader) && linked(
                after.blocks,
                block,
                votes[i],
            );
        let vote = votes[i];
        assert(votes.contains(vote));
        lemma_in_round(after.blocks, voting_round, vote);
        lemma_linked_is_old(before, after, block, vote);
        lemma_no_new_links(before, after, block, vote);
        lemma_in_round(before.blocks, voting_round, vote);
        let j = choose|j: int| 0 <= j < old_votes.len() && old_votes[j] == vote;
        assert(old_votes[j].names(leader));
    }
}

/// What an old vote is for does not change: an old proposal, and no new one.
proof fn lemma_votes_stay(
    before: CommitterView,
    after: CommitterView,
    leader_round: RoundNumber,
    proposal: BlockView,
    vote: BlockView,
)
    requires
        grows(before, after),
        votes_stay(before, after, proposal.authority(), leader_round),
        after.blocks.contains(proposal),
        proposal.round() == leader_round,
        before.blocks.contains(vote),
        vote.round() == before.voting_round_of(leader_round),
    ensures
        before.blocks.contains(proposal) ==> after.votes_for(vote, proposal) == before.votes_for(
            vote,
            proposal,
        ),
        !before.blocks.contains(proposal) ==> !after.votes_for(vote, proposal),
{
    let leader = proposal.authority();
    let old_others = rivals(before.blocks, proposal);
    let others = rivals(after.blocks, proposal);
    lemma_among_proposals(after, leader, leader_round, proposal);
    lemma_in_round(before.blocks, before.voting_round_of(leader_round), vote);
    if old_others.len() > 0 {
        assert(old_others.contains(old_others[0]));
        lemma_among_rivals(before.blocks, proposal, old_others[0]);
        lemma_old_is_there(before, after, old_others[0]);
        lemma_among_rivals(after.blocks, proposal, old_others[0]);
        assert(others.len() > 0);
    }
    if before.blocks.contains(proposal) {
        if old_others.len() == 0 && others.len() > 0 && vote.names(leader) {
            let new = others[0];
            assert(others.contains(new));
            lemma_among_rivals(after.blocks, proposal, new);
            lemma_among_proposals(after, leader, leader_round, new);
            if before.blocks.contains(new) {
                lemma_among_rivals(before.blocks, proposal, new);
                assert(false);
            }
            let old_proposal = choose|p: BlockView|
                before.proposals(leader, leader_round).contains(p) && vote.includes.contains(
                    #[trigger] p.reference,
                );
            lemma_among_proposals(before, leader, leader_round, old_proposal);
            lemma_among_rivals(before.blocks, proposal, old_proposal);
            assert(old_proposal.reference == proposal.reference);
        }
    } else if after.votes_for(vote, proposal) {
        if vote.includes.contains(proposal.reference) {
            lemma_includes_are_there(before.blocks, vote, proposal.reference);
            lemma_old_reference(before, after, proposal);
        } else {
            let old_proposal = choose|p: BlockView|
                before.proposals(leader, leader_round).contains(p) && vote.includes.contains(
                    #[trigger] p.reference,
                );
            lemma_among_proposals(before, leader, leader_round, old_proposal);
            lemma_old_is_there(before, after, old_proposal);
            lemma_among_rivals(after.blocks, proposal, old_proposal);
            assert(others.len() > 0);
        }
    }
}

/// The votes in the causal history of an old block do not change, and there are none for a new
/// proposal.
proof fn lemma_vote_stake_stays(
    before: CommitterView,
    after: CommitterView,
    block: BlockView,
    leader_round: RoundNumber,
    proposal: BlockView,
)
    requires
        grows(before, after),
        votes_stay(before, after, proposal.authority(), leader_round),
        after.blocks.contains(proposal),
        proposal.round() == leader_round,
        before.blocks.contains(block),
    ensures
        before.blocks.contains(proposal) ==> after.vote_stake(
            block,
            before.voting_round_of(leader_round),
            proposal,
        ) == before.vote_stake(block, before.voting_round_of(leader_round), proposal),
        !before.blocks.contains(proposal) ==> after.vote_stake(
            block,
            before.voting_round_of(leader_round),
            proposal,
        ) is None,
{
    let voting_round = before.voting_round_of(leader_round);
    let p = |vote: BlockView|
        before.votes_for(vote, proposal) && linked(before.blocks, block, vote);
    let q = |vote: BlockView| after.votes_for(vote, proposal) && linked(after.blocks, block, vote);
    if before.blocks.contains(proposal) {
        assert forall|vote: BlockView|
            before.blocks.contains(vote) && vote.round() == voting_round implies #[trigger] p(vote)
            == q(vote) by {
            lemma_votes_stay(before, after, leader_round, proposal, vote);
            if linked(before.blocks, block, vote) {
                lemma_links_stay(before, after, block, vote);
            }
            if linked(after.blocks, block, vote) {
                lemma_no_new_links(before, after, block, vote);
            }
        }
        assert forall|vote: BlockView|
            after.blocks.contains(vote) && vote.round() == voting_round && #[trigger] q(
                vote,
            ) implies before.blocks.contains(vote) by {
            lemma_linked_is_old(before, after, block, vote);
        }
        lemma_authors_are_the_same(before, after, voting_round, p, q);
        assert(before.voters(block, voting_round, proposal) =~= authors(
            blocks_by_round(before.blocks, voting_round),
            p,
        ));
        assert(after.voters(block, voting_round, proposal) =~= authors(
            blocks_by_round(after.blocks, voting_round),
            q,
        ));
    } else if after.vote_stake(block, voting_round, proposal) is Some {
        let vote = lemma_some_vote(after, block, voting_round, proposal);
        lemma_in_round(after.blocks, voting_round, vote);
        lemma_linked_is_old(before, after, block, vote);
        lemma_votes_stay(before, after, leader_round, proposal, vote);
    }
}

/// What an old block supports does not change: an old proposal, and no new one.
proof fn lemma_support_stays(
    before: CommitterView,
    after: CommitterView,
    block: BlockView,
    leader_round: RoundNumber,
    proposal: BlockView,
)
    requires
        grows(before, after),
        votes_stay(before, after, proposal.authority(), leader_round),
        after.blocks.contains(proposal),
        proposal.round() == leader_round,
        before.blocks.contains(block),
    ensures
        before.blocks.contains(proposal) ==> after.supports(
            block,
            before.voting_round_of(leader_round),
            proposal,
        ) == before.supports(block, before.voting_round_of(leader_round), proposal),
        !before.blocks.contains(proposal) ==> !after.supports(
            block,
            before.voting_round_of(leader_round),
            proposal,
        ),
{
    let voting_round = before.voting_round_of(leader_round);
    let old_others = rivals(before.blocks, proposal);
    let others = rivals(after.blocks, proposal);
    lemma_vote_stake_stays(before, after, block, leader_round, proposal);
    if before.blocks.contains(proposal) {
        if before.supports(block, voting_round, proposal) {
            assert forall|k: int| 0 <= k < others.len() implies (after.vote_stake(
                block,
                voting_round,
                #[trigger] others[k],
            ) matches Some(stake) ==> stake < after.vote_stake(block, voting_round, proposal)->0) by {
                let other = others[k];
                assert(others.contains(other));
                lemma_among_rivals(after.blocks, proposal, other);
                lemma_vote_stake_stays(before, after, block, leader_round, other);
                if before.blocks.contains(other) {
                    lemma_among_rivals(before.blocks, proposal, other);
                    let j = choose|j: int| 0 <= j < old_others.len() && old_others[j] == other;
                    assert(before.vote_stake(block, voting_round, old_others[j])
                        == before.vote_stake(block, voting_round, other));
                }
            }
        }
        if after.supports(block, voting_round, proposal) {
            assert forall|k: int| 0 <= k < old_others.len() implies (before.vote_stake(
                block,
                voting_round,
                #[trigger] old_others[k],
            ) matches Some(stake) ==> stake < before.vote_stake(
                block,
                voting_round,
                proposal,
            )->0) by {
                let other = old_others[k];
                assert(old_others.contains(other));
                lemma_among_rivals(before.blocks, proposal, other);
                lemma_old_is_there(before, after, other);
                lemma_vote_stake_stays(before, after, block, leader_round, other);
                lemma_among_rivals(after.blocks, proposal, other);
                let j = choose|j: int| 0 <= j < others.len() && others[j] == other;
                assert(after.vote_stake(block, voting_round, others[j]) == after.vote_stake(
                    block,
                    voting_round,
                    other,
                ));
            }
        }
    }
}

/// A direct skip is final: more blocks do not change it.
pub proof fn law_direct_skips_are_final(
    before: CommitterView,
    after: CommitterView,
    leader: AuthorityIndex,
    leader_round: RoundNumber,
)
    requires
        grows(before, after),
        before.direct_status(leader, leader_round) is Skip,
    ensures
        after.direct_status(leader, leader_round) == before.direct_status(leader, leader_round),
{
    let voting_round = before.voting_round_of(leader_round);
    let decision_round = before.decision_round_of(leader_round);
    let p = |block: BlockView| !before.backs(block, voting_round, leader);
    let q = |block: BlockView| !after.backs(block, voting_round, leader);
    assert forall|block: BlockView|
        before.blocks.contains(block) && block.round() == decision_round && #[trigger] p(
            block,
        ) implies q(block) by {
        lemma_backing_stays(before, after, block, voting_round, leader);
    }
    lemma_authors_stay(before, after, decision_round, p, q);
    lemma_stake_of_is_monotone(
        before.stakes,
        authors(blocks_by_round(before.blocks, decision_round), p),
        authors(blocks_by_round(after.blocks, decision_round), q),
    );
    assert(before.blamers(voting_round, decision_round, leader) =~= authors(
        blocks_by_round(before.blocks, decision_round),
        p,
    ));
    assert(after.blamers(voting_round, decision_round, leader) =~= authors(
        blocks_by_round(after.blocks, decision_round),
        q,
    ));
}

/// A direct commit is final: more blocks do not change it, as long as the faults in the decision
/// round are tolerated and the votes stay for what they were for.
pub proof fn law_direct_commits_are_final(
    before: CommitterView,
    after: CommitterView,
    leader: AuthorityIndex,
    leader_round: RoundNumber,
)
    requires
        grows(before, after),
        before.direct_status(leader, leader_round) is Commit,
        faults_are_tolerated(after, after.decision_round_of(leader_round)),
        votes_stay(before, after, leader, leader_round),
    ensures
        after.direct_status(leader, leader_round) == before.direct_status(leader, leader_round),
{
    let voting_round = before.voting_round_of(leader_round);
    let decision_round = before.decision_round_of(leader_round);
    let proposal = before.directly_supported(leader, leader_round)[0];
    assert(before.directly_supported(leader, leader_round).contains(proposal));
    lemma_among_directly_supported(before, leader, leader_round, proposal);
    lemma_old_is_there(before, after, proposal);
    let p = |block: BlockView| before.supports(block, voting_round, proposal);
    let q = |block: BlockView| after.supports(block, voting_round, proposal);
    assert forall|block: BlockView|
        before.blocks.contains(block) && block.round() == decision_round && #[trigger] p(
            block,
        ) implies q(block) by {
        lemma_support_stays(before, after, block, leader_round, proposal);
    }
    lemma_authors_stay(before, after, decision_round, p, q);
    lemma_stake_of_is_monotone(
        before.stakes,
        authors(blocks_by_round(before.blocks, decision_round), p),
        authors(blocks_by_round(after.blocks, decision_round), q),
    );
    assert(before.supporters(voting_round, decision_round, proposal) =~= authors(
        blocks_by_round(before.blocks, decision_round),
        p,
    ));
    assert(after.supporters(voting_round, decision_round, proposal) =~= authors(
        blocks_by_round(after.blocks, decision_round),
        q,
    ));
    law_supported_proposal_is_directly_committed(after, leader_round, proposal);
}

/// What an anchor decides is final: more blocks do not change it, as long as the votes stay for what
/// they were for. It is not disputed later unless it was disputed before.
pub proof fn law_indirect_decisions_are_final(
    before: CommitterView,
    after: CommitterView,
    anchor: BlockView,
    leader: AuthorityIndex,
    leader_round: RoundNumber,
)
    requires
        grows(before, after),
        distinct_references(before.blocks),
        before.blocks.contains(anchor),
        votes_stay(before, after, leader, leader_round),
    ensures
        after.indirectly_undisputed(anchor, leader, leader_round) == before.indirectly_undisputed(
            anchor,
            leader,
            leader_round,
        ),
        after.status_from_anchor(anchor, leader, leader_round) == before.status_from_anchor(
            anchor,
            leader,
            leader_round,
        ),
{
    let old_supported = before.indirectly_supported(anchor, leader, leader_round);
    let supported = after.indirectly_supported(anchor, leader, leader_round);
    assert forall|proposal: BlockView| #[trigger]
        supported.contains(proposal) implies old_supported.contains(proposal) by {
        lemma_among_indirectly_supported(after, anchor, leader, leader_round, proposal);
        lemma_anchored_support_stays(before, after, anchor, leader_round, proposal);
        lemma_among_indirectly_supported(before, anchor, leader, leader_round, proposal);
    }
    assert forall|proposal: BlockView| #[trigger]
        old_supported.contains(proposal) implies supported.contains(proposal) by {
        lemma_among_indirectly_supported(before, anchor, leader, leader_round, proposal);
        lemma_old_is_there(before, after, proposal);
        lemma_anchored_support_stays(before, after, anchor, leader_round, proposal);
        lemma_among_indirectly_supported(after, anchor, leader, leader_round, proposal);
    }
    lemma_among_indirectly_supported(before, anchor, leader, leader_round, anchor);
    lemma_among_indirectly_supported(after, anchor, leader, leader_round, anchor);
    lemma_same_dispute(old_supported, supported);
    lemma_same_dispute(supported, old_supported);
}

/// Of two sequences that hold the same blocks, if the first has at most one, so has the second, and
/// then it is the same.
proof fn lemma_same_dispute(a: Seq<BlockView>, b: Seq<BlockView>)
    requires
        distinct_references(b),
        forall|block: BlockView| #[trigger] a.contains(block) ==> b.contains(block),
        forall|block: BlockView| #[trigger] b.contains(block) ==> a.contains(block),
    ensures
        a.len() <= 1 ==> b =~= a,
{
    if a.len() <= 1 {
        assert forall|x: BlockView, y: BlockView| #[trigger]
            b.contains(x) && #[trigger] b.contains(y) implies x.reference == y.reference by {
            assert(a.contains(x) && a.contains(y));
        }
        lemma_at_most_one(b);
        if a.len() > 0 {
            assert(a.contains(a[0]));
        }
        if b.len() > 0 {
            assert(b.contains(b[0]));
        }
    }
}

/// The support of a proposal in the causal history of an old anchor does not change, and there is
/// not enough for a new proposal.
proof fn lemma_anchored_support_stays(
    before: CommitterView,
    after: CommitterView,
    anchor: BlockView,
    leader_round: RoundNumber,
    proposal: BlockView,
)
    requires
        grows(before, after),
        before.blocks.contains(anchor),
        after.blocks.contains(proposal),
        proposal.round() == leader_round,
        votes_stay(before, after, proposal.authority(), leader_round),
    ensures
        after.enough_anchored_support(
            anchor,
            before.voting_round_of(leader_round),
            before.decision_round_of(leader_round),
            proposal,
        ) == (before.blocks.contains(proposal) && before.enough_anchored_support(
            anchor,
            before.voting_round_of(leader_round),
            before.decision_round_of(leader_round),
            proposal,
        )),
{
    let voting_round = before.voting_round_of(leader_round);
    let decision_round = before.decision_round_of(leader_round);
    let old = before.blocks.contains(proposal);
    let p = |block: BlockView|
        old && linked(before.blocks, anchor, block) && before.supports(
            block,
            voting_round,
            proposal,
        );
    let q = |block: BlockView|
        linked(after.blocks, anchor, block) && after.supports(block, voting_round, proposal);
    assert forall|block: BlockView|
        before.blocks.contains(block) && block.round() == decision_round implies #[trigger] p(block)
        == q(block) by {
        lemma_support_stays(before, after, block, leader_round, proposal);
        if linked(before.blocks, anchor, block) {
            lemma_links_stay(before, after, anchor, block);
        }
        if linked(after.blocks, anchor, block) {
            lemma_no_new_links(before, after, anchor, block);
        }
    }
    assert forall|block: BlockView|
        after.blocks.contains(block) && block.round() == decision_round && #[trigger] q(
            block,
        ) implies before.blocks.contains(block) by {
        lemma_linked_is_old(before, after, anchor, block);
    }
    lemma_authors_are_the_same(before, after, decision_round, p, q);
    assert(after.anchored_supporters(anchor, voting_round, decision_round, proposal) =~= authors(
        blocks_by_round(after.blocks, decision_round),
        q,
    ));
    if old {
        assert(before.anchored_supporters(anchor, voting_round, decision_round, proposal)
            =~= authors(blocks_by_round(before.blocks, decision_round), p));
    } else {
        assert(authors(blocks_by_round(before.blocks, decision_round), p) =~= Set::<
            AuthorityIndex,
        >::empty());
        lemma_stake_of_nobody(before.stakes);
    }
}

} // verus!
