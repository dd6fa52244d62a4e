//! What the rules of one committer decide, told by the stakes and the blocks alone.
//!
//! The laws describe the outcome of each rule by which blocks there are, what they include, and how
//! much stake their authors have. They say when a leader is elected, committed, skipped or left
//! undecided, and when not.

use crate::base_committer::{authors, BaseCommitterOptions, CommitterView, MINIMUM_WAVE_LENGTH};
use crate::block_store::{blocks_by_round, distinct_references, linked, rivals};
use crate::committee::{
    lemma_stake_of_at_most_total, lemma_stake_of_nobody, lemma_stake_of_union, stake_of, total_stake,
};
use crate::dag_laws::{in_history, law_highest_round_is_the_highest, law_links_are_chains};
use crate::laws::{
    lemma_among_directly_supported, lemma_among_indirectly_supported, lemma_among_rivals,
    lemma_at_most_one, lemma_in_round, lemma_same_reference,
};
use crate::text::{decimal, law_decimal_stands_for_the_number, number_of};
use crate::types::{AuthorityIndex, BlockView, RoundNumber, Stake, StatusView};
use vstd::arithmetic::div_mod::{
    lemma_fundamental_div_mod, lemma_fundamental_div_mod_converse, lemma_mod_decreases,
};
use vstd::prelude::*;

verus! {

/// `first` is the first round of the wave in which `round` belongs. The waves follow each other
/// from the round offset on, each of the wave length; what comes before belongs in the first one.
pub open spec fn starts_wave_of(
    options: BaseCommitterOptions,
    first: RoundNumber,
    round: RoundNumber,
) -> bool {
    &&& first >= options.round_offset
    &&& (first - options.round_offset) % (options.wave_length as int) == 0
    &&& if round < options.round_offset {
        first == options.round_offset
    } else {
        first <= round < first + options.wave_length
    }
}

/// A wave starts with its leader round, votes in the next round, and decides in its last round.
pub proof fn law_waves_have_three_stages(
    committer: CommitterView,
    first: RoundNumber,
    round: RoundNumber,
)
    requires
        committer.options.wave_length >= MINIMUM_WAVE_LENGTH,
        starts_wave_of(committer.options, first, round),
    ensures
        committer.wave_number(round) >= 0,
        committer.leader_round(committer.wave_number(round)) == first,
        committer.voting_round(committer.wave_number(round)) == first + 1,
        committer.decision_round(committer.wave_number(round)) == first
            + committer.options.wave_length - 1,
        committer.wave_fits(round) <==> first + committer.options.wave_length - 1
            <= RoundNumber::MAX,
{
    let length = committer.options.wave_length as int;
    let start = first - committer.options.round_offset;
    let wave = start / length;
    lemma_fundamental_div_mod(start, length);
    assert(start == wave * length) by (nonlinear_arith)
        requires
            start == length * wave,
    ;
    if round < committer.options.round_offset {
        lemma_fundamental_div_mod_converse(0, length, 0, 0);
        assert(wave == 0);
    } else {
        lemma_fundamental_div_mod_converse(
            round - committer.options.round_offset,
            length,
            wave,
            round - first,
        );
    }
    assert(wave >= 0) by (nonlinear_arith)
        requires
            start == wave * length,
            start >= 0,
            length > 0,
    ;
}

/// Waves are counted from 0 in the order of the rounds: the first one starts at the round offset,
/// and each starts right after the preceding one.
pub proof fn law_waves_are_counted(committer: CommitterView, wave: int)
    ensures
        committer.leader_round(0) == committer.options.round_offset,
        committer.leader_round(wave + 1) == committer.leader_round(wave)
            + committer.options.wave_length,
        committer.voting_round(wave) == committer.leader_round(wave) + 1,
        committer.decision_round(wave) == committer.leader_round(wave + 1) - 1,
{
    let length = committer.options.wave_length as int;
    assert((wave + 1) * length == wave * length + length) by (nonlinear_arith);
}

/// A round has a leader if and only if it is the first round of a wave and some block is in the
/// last round of that wave or above.
pub proof fn law_leaders_are_elected_after_their_wave(
    committer: CommitterView,
    round: RoundNumber,
)
    requires
        committer.options.wave_length >= MINIMUM_WAVE_LENGTH,
    ensures
        committer.elect_leader(round) is Some <==> {
            &&& starts_wave_of(committer.options, round, round)
            &&& exists|i: int|
                0 <= i < committer.blocks.len() && #[trigger] committer.blocks[i].reference.round
                    >= round + committer.options.wave_length - 1
        },
        committer.has_leader(round) <==> committer.elect_leader(round) is Some,
{
    let length = committer.options.wave_length as int;
    let wave = committer.wave_number(round);
    law_highest_round_is_the_highest(committer.blocks);
    if starts_wave_of(committer.options, round, round) {
        law_waves_have_three_stages(committer, round, round);
    }
    if committer.leader_round(wave) == round {
        if round < committer.options.round_offset {
            lemma_fundamental_div_mod_converse(0, length, 0, 0);
            assert(0 * length == 0);
        } else {
            lemma_fundamental_div_mod_converse(
                round - committer.options.round_offset,
                length,
                wave,
                0,
            );
        }
        assert(starts_wave_of(committer.options, round, round));
    }
}

/// The leader of a round is the authority whose turn it is: starting with authority 0, as many
/// steps round the committee as the round and the leader offset say.
pub proof fn law_leader_is_by_turns(committer: CommitterView, round: RoundNumber, turns: int)
    requires
        committer.stakes.len() > 0,
        round + committer.options.leader_offset <= RoundNumber::MAX,
        0 <= round + committer.options.leader_offset - turns * committer.stakes.len()
            < committer.stakes.len(),
    ensures
        committer.elect_leader(round) matches Some(leader) ==> {
            &&& leader < committer.stakes.len()
            &&& leader == round + committer.options.leader_offset - turns * committer.stakes.len()
        },
{
    let n = committer.stakes.len() as int;
    let x = round + committer.options.leader_offset;
    lemma_fundamental_div_mod_converse(x, n, turns, x - turns * n);
    lemma_mod_decreases(x as nat, n as nat);
}

/// `vote` is a block of the voting round that includes some block of the leader.
pub open spec fn is_vote(
    vote: BlockView,
    voting_round: RoundNumber,
    leader: AuthorityIndex,
) -> bool {
    vote.reference.round == voting_round && exists|k: int|
        0 <= k < vote.includes.len() && #[trigger] vote.includes[k].authority == leader
}

/// There is a vote for the leader in the causal history of `block`.
pub open spec fn hears_vote(
    blocks: Seq<BlockView>,
    block: BlockView,
    voting_round: RoundNumber,
    leader: AuthorityIndex,
) -> bool {
    exists|vote: BlockView| #[trigger]
        blocks.contains(vote) && is_vote(vote, voting_round, leader) && in_history(
            blocks,
            block,
            vote,
        )
}

/// The authorities with a block of the decision round that hears no vote for the leader.
pub open spec fn blaming(
    blocks: Seq<BlockView>,
    voting_round: RoundNumber,
    decision_round: RoundNumber,
    leader: AuthorityIndex,
) -> Set<AuthorityIndex> {
    Set::new(
        |authority: AuthorityIndex|
            exists|block: BlockView| #[trigger]
                blocks.contains(block) && block.reference.round == decision_round
                    && block.reference.authority == authority && !hears_vote(
                    blocks,
                    block,
                    voting_round,
                    leader,
                ),
    )
}

/// The authorities with a block of the decision round that hears a vote for the leader.
pub open spec fn hearing(
    blocks: Seq<BlockView>,
    voting_round: RoundNumber,
    decision_round: RoundNumber,
    leader: AuthorityIndex,
) -> Set<AuthorityIndex> {
    Set::new(
        |authority: AuthorityIndex|
            exists|block: BlockView| #[trigger]
                blocks.contains(block) && block.reference.round == decision_round
                    && block.reference.authority == authority && hears_vote(
                    blocks,
                    block,
                    voting_round,
                    leader,
                ),
    )
}

/// The authorities with a block of the decision round that hears a vote for the leader and is in
/// the causal history of `anchor`.
pub open spec fn hearing_below(
    blocks: Seq<BlockView>,
    anchor: BlockView,
    voting_round: RoundNumber,
    decision_round: RoundNumber,
    leader: AuthorityIndex,
) -> Set<AuthorityIndex> {
    Set::new(
        |authority: AuthorityIndex|
            exists|block: BlockView| #[trigger]
                blocks.contains(block) && block.reference.round == decision_round
                    && block.reference.authority == authority && in_history(blocks, anchor, block)
                    && hears_vote(blocks, block, voting_round, leader),
    )
}

/// The two are different blocks that one authority made for one round.
pub open spec fn compete(a: BlockView, b: BlockView) -> bool {
    &&& a.reference.authority == b.reference.authority
    &&& a.reference.round == b.reference.round
    &&& a.reference.digest != b.reference.digest
}

/// The authority of `proposal` made no other block for its round.
pub open spec fn is_sole(blocks: Seq<BlockView>, proposal: BlockView) -> bool {
    forall|other: BlockView| #[trigger] blocks.contains(other) ==> !compete(other, proposal)
}

/// The authorities with a vote for `proposal` in the causal history of `block`: a vote for its
/// authority that includes it, where that authority proposed something else too.
pub open spec fn voting_for(
    blocks: Seq<BlockView>,
    block: BlockView,
    voting_round: RoundNumber,
    proposal: BlockView,
) -> Set<AuthorityIndex> {
    Set::new(
        |authority: AuthorityIndex|
            exists|vote: BlockView| #[trigger]
                blocks.contains(vote) && vote.reference.authority == authority && is_vote(
                    vote,
                    voting_round,
                    proposal.reference.authority,
                ) && (is_sole(blocks, proposal) || vote.includes.contains(proposal.reference))
                    && in_history(blocks, block, vote),
    )
}

/// Of the proposals that have votes in the causal history of `block`, `proposal` is the one with
/// the most stake.
pub open spec fn prefers(
    stakes: Seq<Stake>,
    blocks: Seq<BlockView>,
    block: BlockView,
    voting_round: RoundNumber,
    proposal: BlockView,
) -> bool {
    let votes = voting_for(blocks, block, voting_round, proposal);
    &&& exists|authority: AuthorityIndex| votes.contains(authority)
    &&& forall|other: BlockView, authority: AuthorityIndex| #[trigger]
        blocks.contains(other) && compete(other, proposal) && #[trigger] voting_for(
            blocks,
            block,
            voting_round,
            other,
        ).contains(authority) ==> stake_of(
            stakes,
            voting_for(blocks, block, voting_round, other),
        ) < stake_of(stakes, votes)
}

/// The authorities with a block of the decision round that prefers `proposal`.
pub open spec fn preferring(
    stakes: Seq<Stake>,
    blocks: Seq<BlockView>,
    voting_round: RoundNumber,
    decision_round: RoundNumber,
    proposal: BlockView,
) -> Set<AuthorityIndex> {
    Set::new(
        |authority: AuthorityIndex|
            exists|block: BlockView| #[trigger]
                blocks.contains(block) && block.reference.round == decision_round
                    && block.reference.authority == authority && prefers(
                    stakes,
                    blocks,
                    block,
                    voting_round,
                    proposal,
                ),
    )
}

/// The authorities with a block of the decision round that prefers `proposal` and is in the causal
/// history of `anchor`.
pub open spec fn preferring_below(
    stakes: Seq<Stake>,
    blocks: Seq<BlockView>,
    anchor: BlockView,
    voting_round: RoundNumber,
    decision_round: RoundNumber,
    proposal: BlockView,
) -> Set<AuthorityIndex> {
    Set::new(
        |authority: AuthorityIndex|
            exists|block: BlockView| #[trigger]
                blocks.contains(block) && block.reference.round == decision_round
                    && block.reference.authority == authority && in_history(blocks, anchor, block)
                    && prefers(stakes, blocks, block, voting_round, proposal),
    )
}

/// The authors of the blocks of a round with a property, from the property told otherwise.
proof fn lemma_authors_in_round(
    blocks: Seq<BlockView>,
    round: RoundNumber,
    p: spec_fn(BlockView) -> bool,
    q: spec_fn(BlockView) -> bool,
    told: Set<AuthorityIndex>,
)
    requires
        forall|block: BlockView| #[trigger] p(block) == q(block),
        forall|authority: AuthorityIndex| #[trigger]
            told.contains(authority) <==> exists|block: BlockView| #[trigger]
                blocks.contains(block) && block.reference.round == round
                    && block.reference.authority == authority && q(block),
    ensures
        authors(blocks_by_round(blocks, round), p) == told,
{
    let kept = blocks_by_round(blocks, round);
    assert forall|a: AuthorityIndex| authors(kept, p).contains(a) implies told.contains(a) by {
        let i = choose|i: int|
            0 <= i < kept.len() && p(#[trigger] kept[i]) && kept[i].authority() == a;
        assert(kept.contains(kept[i]));
        lemma_in_round(blocks, round, kept[i]);
        assert(q(kept[i]));
    }
    assert forall|a: AuthorityIndex| told.contains(a) implies authors(kept, p).contains(a) by {
        let block = choose|block: BlockView| #[trigger]
            blocks.contains(block) && block.reference.round == round && block.reference.authority
                == a && q(block);
        lemma_in_round(blocks, round, block);
        let i = choose|i: int| 0 <= i < kept.len() && kept[i] == block;
        assert(p(kept[i]));
    }
    assert(authors(kept, p) =~= told);
}

proof fn lemma_hears(
    committer: CommitterView,
    block: BlockView,
    voting_round: RoundNumber,
    leader: AuthorityIndex,
)
    ensures
        committer.backs(block, voting_round, leader) == hears_vote(
            committer.blocks,
            block,
            voting_round,
            leader,
        ),
{
    let candidates = blocks_by_round(committer.blocks, voting_round);
    if committer.backs(block, voting_round, leader) {
        let i = choose|i: int|
            0 <= i < candidates.len() && #[trigger] candidates[i].names(leader) && linked(
                committer.blocks,
                block,
                candidates[i],
            );
        assert(candidates.contains(candidates[i]));
        lemma_in_round(committer.blocks, voting_round, candidates[i]);
        law_links_are_chains(committer.blocks, block, candidates[i]);
        assert(is_vote(candidates[i], voting_round, leader));
    }
    if hears_vote(committer.blocks, block, voting_round, leader) {
        let vote = choose|vote: BlockView| #[trigger]
            committer.blocks.contains(vote) && is_vote(vote, voting_round, leader) && in_history(
                committer.blocks,
                block,
                vote,
            );
        lemma_in_round(committer.blocks, voting_round, vote);
        law_links_are_chains(committer.blocks, block, vote);
        let i = choose|i: int| 0 <= i < candidates.len() && candidates[i] == vote;
        assert(candidates[i].names(leader));
    }
}

proof fn lemma_sole(blocks: Seq<BlockView>, proposal: BlockView)
    ensures
        is_sole(blocks, proposal) <==> rivals(blocks, proposal).len() == 0,
{
    let others = rivals(blocks, proposal);
    if others.len() > 0 {
        assert(others.contains(others[0]));
        lemma_among_rivals(blocks, proposal, others[0]);
        assert(compete(others[0], proposal));
    }
    if !is_sole(blocks, proposal) {
        let other = choose|other: BlockView| #[trigger]
            blocks.contains(other) && compete(other, proposal);
        lemma_among_rivals(blocks, proposal, other);
        assert(others.contains(other));
    }
}

proof fn lemma_voting_for(
    committer: CommitterView,
    block: BlockView,
    voting_round: RoundNumber,
    proposal: BlockView,
)
    ensures
        committer.voters(block, voting_round, proposal) == voting_for(
            committer.blocks,
            block,
            voting_round,
            proposal,
        ),
{
    let blocks = committer.blocks;
    let p = |vote: BlockView| committer.votes_for(vote, proposal) && linked(blocks, block, vote);
    let q = |vote: BlockView|
        vote.names(proposal.reference.authority) && (is_sole(blocks, proposal)
            || vote.includes.contains(proposal.reference)) && in_history(blocks, block, vote);
    lemma_sole(blocks, proposal);
    assert forall|vote: BlockView| #[trigger] p(vote) == q(vote) by {
        law_links_are_chains(blocks, block, vote);
    }
    let told = voting_for(blocks, block, voting_round, proposal);
    assert forall|a: AuthorityIndex| #[trigger]
        told.contains(a) <==> exists|vote: BlockView| #[trigger]
            blocks.contains(vote) && vote.reference.round == voting_round
                && vote.reference.authority == a && q(vote) by {
        if told.contains(a) {
            let vote = choose|vote: BlockView| #[trigger]
                blocks.contains(vote) && vote.reference.authority == a && is_vote(
                    vote,
                    voting_round,
                    proposal.reference.authority,
                ) && (is_sole(blocks, proposal) || vote.includes.contains(proposal.reference))
                    && in_history(blocks, block, vote);
            assert(q(vote));
        }
        if exists|vote: BlockView| #[trigger]
            blocks.contains(vote) && vote.reference.round == voting_round
                && vote.reference.authority == a && q(vote) {
            let vote = choose|vote: BlockView| #[trigger]
                blocks.contains(vote) && vote.reference.round == voting_round
                    && vote.reference.authority == a && q(vote);
            assert(is_vote(vote, voting_round, proposal.reference.authority));
        }
    }
    lemma_authors_in_round(blocks, voting_round, p, q, told);
}

proof fn lemma_prefers(
    committer: CommitterView,
    block: BlockView,
    voting_round: RoundNumber,
    proposal: BlockView,
)
    ensures
        committer.supports(block, voting_round, proposal) == prefers(
            committer.stakes,
            committer.blocks,
            block,
            voting_round,
            proposal,
        ),
{
    let blocks = committer.blocks;
    let others = rivals(blocks, proposal);
    let votes = voting_for(blocks, block, voting_round, proposal);
    lemma_voting_for(committer, block, voting_round, proposal);
    if forall|a: AuthorityIndex| !votes.contains(a) {
        assert(votes =~= Set::<AuthorityIndex>::empty());
    }
    if committer.supports(block, voting_round, proposal) {
        assert forall|other: BlockView, a: AuthorityIndex| #[trigger]
            blocks.contains(other) && compete(other, proposal) && #[trigger] voting_for(
                blocks,
                block,
                voting_round,
                other,
            ).contains(a) implies stake_of(
            committer.stakes,
            voting_for(blocks, block, voting_round, other),
        ) < stake_of(committer.stakes, votes) by {
            lemma_among_rivals(blocks, proposal, other);
            lemma_voting_for(committer, block, voting_round, other);
            let k = choose|k: int| 0 <= k < others.len() && others[k] == other;
            assert(committer.vote_stake(block, voting_round, others[k]) is Some);
        }
    }
    if prefers(committer.stakes, blocks, block, voting_round, proposal) {
        assert forall|k: int| 0 <= k < others.len() implies (committer.vote_stake(
            block,
            voting_round,
            #[trigger] others[k],
        ) matches Some(stake) ==> stake < committer.vote_stake(block, voting_round, proposal)->0) by {
            let other = others[k];
            assert(others.contains(other));
            lemma_among_rivals(blocks, proposal, other);
            lemma_voting_for(committer, block, voting_round, other);
            let other_votes = voting_for(blocks, block, voting_round, other);
            if committer.vote_stake(block, voting_round, other) is Some {
                if forall|a: AuthorityIndex| !other_votes.contains(a) {
                    assert(other_votes =~= Set::<AuthorityIndex>::empty());
                }
                let a = choose|a: AuthorityIndex| other_votes.contains(a);
                assert(blocks.contains(other) && other_votes.contains(a));
            }
        }
    }
}

/// The blame of a leader is the stake of all the authorities with a block of the decision round
/// that hears no vote for it, whoever they are. It is enough if it is more than four fifths.
pub proof fn law_blame_is_the_stake_that_hears_no_vote(
    committer: CommitterView,
    voting_round: RoundNumber,
    decision_round: RoundNumber,
    leader: AuthorityIndex,
)
    ensures
        committer.enough_blame(voting_round, decision_round, leader) <==> 5 * stake_of(
            committer.stakes,
            blaming(committer.blocks, voting_round, decision_round, leader),
        ) > 4 * total_stake(committer.stakes),
{
    let blocks = committer.blocks;
    let p = |block: BlockView| !committer.backs(block, voting_round, leader);
    let q = |block: BlockView| !hears_vote(blocks, block, voting_round, leader);
    assert forall|block: BlockView| #[trigger] p(block) == q(block) by {
        lemma_hears(committer, block, voting_round, leader);
    }
    lemma_authors_in_round(
        blocks,
        decision_round,
        p,
        q,
        blaming(blocks, voting_round, decision_round, leader),
    );
}

/// The support of a proposal is the stake of all the authorities with a block of the decision round
/// that prefers it, whoever they are. It is enough if it is more than four fifths.
pub proof fn law_support_is_the_stake_that_prefers_the_proposal(
    committer: CommitterView,
    voting_round: RoundNumber,
    decision_round: RoundNumber,
    proposal: BlockView,
)
    ensures
        committer.enough_support(voting_round, decision_round, proposal) <==> 5 * stake_of(
            committer.stakes,
            preferring(
                committer.stakes,
                committer.blocks,
                voting_round,
                decision_round,
                proposal,
            ),
        ) > 4 * total_stake(committer.stakes),
{
    let p = |block: BlockView| committer.supports(block, voting_round, proposal);
    let q = |block: BlockView|
        prefers(committer.stakes, committer.blocks, block, voting_round, proposal);
    assert forall|block: BlockView| #[trigger] p(block) == q(block) by {
        lemma_prefers(committer, block, voting_round, proposal);
    }
    lemma_authors_in_round(
        committer.blocks,
        decision_round,
        p,
        q,
        preferring(committer.stakes, committer.blocks, voting_round, decision_round, proposal),
    );
}

/// The support of a proposal that an anchor finds is the stake of all the authorities with a block
/// of the decision round that prefers it and is in the causal history of the anchor, whoever they
/// are. It is enough if it is more than two fifths.
pub proof fn law_anchored_support_is_the_stake_below_the_anchor(
    committer: CommitterView,
    anchor: BlockView,
    voting_round: RoundNumber,
    decision_round: RoundNumber,
    proposal: BlockView,
)
    ensures
        committer.enough_anchored_support(anchor, voting_round, decision_round, proposal) <==> 5
            * stake_of(
            committer.stakes,
            preferring_below(
                committer.stakes,
                committer.blocks,
                anchor,
                voting_round,
                decision_round,
                proposal,
            ),
        ) > 2 * total_stake(committer.stakes),
{
    let blocks = committer.blocks;
    let p = |block: BlockView|
        linked(blocks, anchor, block) && committer.supports(block, voting_round, proposal);
    let q = |block: BlockView|
        in_history(blocks, anchor, block) && prefers(
            committer.stakes,
            blocks,
            block,
            voting_round,
            proposal,
        );
    assert forall|block: BlockView| #[trigger] p(block) == q(block) by {
        law_links_are_chains(blocks, anchor, block);
        lemma_prefers(committer, block, voting_round, proposal);
    }
    lemma_authors_in_round(
        blocks,
        decision_round,
        p,
        q,
        preferring_below(
            committer.stakes,
            blocks,
            anchor,
            voting_round,
            decision_round,
            proposal,
        ),
    );
}

/// A block that hears a vote for a leader with a sole proposal prefers that proposal, and the other
/// way round.
pub proof fn law_sole_proposals_are_preferred_on_any_vote(
    stakes: Seq<Stake>,
    blocks: Seq<BlockView>,
    block: BlockView,
    voting_round: RoundNumber,
    proposal: BlockView,
)
    requires
        is_sole(blocks, proposal),
    ensures
        prefers(stakes, blocks, block, voting_round, proposal) <==> hears_vote(
            blocks,
            block,
            voting_round,
            proposal.reference.authority,
        ),
{
    let leader = proposal.reference.authority;
    let votes = voting_for(blocks, block, voting_round, proposal);
    if hears_vote(blocks, block, voting_round, leader) {
        let vote = choose|vote: BlockView| #[trigger]
            blocks.contains(vote) && is_vote(vote, voting_round, leader) && in_history(
                blocks,
                block,
                vote,
            );
        assert(votes.contains(vote.reference.authority));
    }
    if prefers(stakes, blocks, block, voting_round, proposal) {
        let a = choose|a: AuthorityIndex| votes.contains(a);
        let vote = choose|vote: BlockView| #[trigger]
            blocks.contains(vote) && vote.reference.authority == a && is_vote(
                vote,
                voting_round,
                leader,
            ) && in_history(blocks, block, vote);
        assert(blocks.contains(vote));
    }
}

/// The stake that blames a leader of the wave that starts in round `first` is more than four
/// fifths.
pub open spec fn quorum_blames(
    committer: CommitterView,
    first: RoundNumber,
    leader: AuthorityIndex,
) -> bool {
    5 * stake_of(
        committer.stakes,
        blaming(
            committer.blocks,
            (first + 1) as RoundNumber,
            (first + committer.options.wave_length - 1) as RoundNumber,
            leader,
        ),
    ) > 4 * total_stake(committer.stakes)
}

/// The stake that prefers a proposal of the wave that starts in round `first` is more than four
/// fifths.
pub open spec fn quorum_prefers(
    committer: CommitterView,
    first: RoundNumber,
    proposal: BlockView,
) -> bool {
    5 * stake_of(
        committer.stakes,
        preferring(
            committer.stakes,
            committer.blocks,
            (first + 1) as RoundNumber,
            (first + committer.options.wave_length - 1) as RoundNumber,
            proposal,
        ),
    ) > 4 * total_stake(committer.stakes)
}

/// The stake that prefers a proposal of the wave that starts in round `first`, with blocks in the
/// causal history of `anchor`, is more than two fifths.
pub open spec fn enough_prefer_below(
    committer: CommitterView,
    anchor: BlockView,
    first: RoundNumber,
    proposal: BlockView,
) -> bool {
    5 * stake_of(
        committer.stakes,
        preferring_below(
            committer.stakes,
            committer.blocks,
            anchor,
            (first + 1) as RoundNumber,
            (first + committer.options.wave_length - 1) as RoundNumber,
            proposal,
        ),
    ) > 2 * total_stake(committer.stakes)
}

/// `block` is one that the leader proposed for its round.
pub open spec fn is_proposal(
    blocks: Seq<BlockView>,
    leader: AuthorityIndex,
    leader_round: RoundNumber,
    block: BlockView,
) -> bool {
    blocks.contains(block) && block.reference.authority == leader && block.reference.round
        == leader_round
}

/// The direct rule skips a leader if and only if more than four fifths of the stake blame it. It
/// commits only a proposal that more than four fifths prefer, and leaves the leader undecided only
/// if there is no such proposal.
pub proof fn law_direct_rule_decides_by_stake(
    committer: CommitterView,
    leader: AuthorityIndex,
    leader_round: RoundNumber,
    first: RoundNumber,
)
    requires
        committer.options.wave_length >= MINIMUM_WAVE_LENGTH,
        starts_wave_of(committer.options, first, leader_round),
        first + committer.options.wave_length - 1 <= RoundNumber::MAX,
    ensures
        quorum_blames(committer, first, leader) <==> committer.direct_status(leader, leader_round)
            == StatusView::Skip(leader, leader_round),
        match committer.direct_status(leader, leader_round) {
            StatusView::Skip(authority, round) => authority == leader && round == leader_round,
            StatusView::Commit(block) => is_proposal(committer.blocks, leader, leader_round, block)
                && quorum_prefers(committer, first, block),
            StatusView::Undecided(authority, round) => {
                &&& authority == leader && round == leader_round
                &&& forall|block: BlockView| #[trigger]
                    is_proposal(committer.blocks, leader, leader_round, block) ==> !quorum_prefers(
                        committer,
                        first,
                        block,
                    )
            },
        },
{
    let voting_round = (first + 1) as RoundNumber;
    let decision_round = (first + committer.options.wave_length - 1) as RoundNumber;
    law_waves_have_three_stages(committer, first, leader_round);
    law_blame_is_the_stake_that_hears_no_vote(committer, voting_round, decision_round, leader);
    let supported = committer.directly_supported(leader, leader_round);
    if supported.len() > 0 {
        assert(supported.contains(supported[0]));
        lemma_among_directly_supported(committer, leader, leader_round, supported[0]);
        law_support_is_the_stake_that_prefers_the_proposal(
            committer,
            voting_round,
            decision_round,
            supported[0],
        );
    } else {
        assert forall|block: BlockView| #[trigger]
            is_proposal(committer.blocks, leader, leader_round, block) implies !quorum_prefers(
            committer,
            first,
            block,
        ) by {
            lemma_among_directly_supported(committer, leader, leader_round, block);
            law_support_is_the_stake_that_prefers_the_proposal(
                committer,
                voting_round,
                decision_round,
                block,
            );
            assert(!supported.contains(block));
        }
    }
}

/// The direct rule on a leader with a sole proposal: it is skipped if more than four fifths of the
/// stake hear no vote for it. Otherwise its proposal is committed if and only if more than four
/// fifths hear one.
pub proof fn law_direct_rule_on_a_sole_proposal(
    committer: CommitterView,
    proposal: BlockView,
    first: RoundNumber,
)
    requires
        committer.options.wave_length >= MINIMUM_WAVE_LENGTH,
        distinct_references(committer.blocks),
        committer.blocks.contains(proposal),
        is_sole(committer.blocks, proposal),
        starts_wave_of(committer.options, first, proposal.reference.round),
        first + committer.options.wave_length - 1 <= RoundNumber::MAX,
    ensures
        ({
            let leader = proposal.reference.authority;
            let leader_round = proposal.reference.round;
            let hear = hearing(
                committer.blocks,
                (first + 1) as RoundNumber,
                (first + committer.options.wave_length - 1) as RoundNumber,
                leader,
            );
            committer.direct_status(leader, leader_round) == if quorum_blames(
                committer,
                first,
                leader,
            ) {
                StatusView::Skip(leader, leader_round)
            } else if 5 * stake_of(committer.stakes, hear) > 4 * total_stake(committer.stakes) {
                StatusView::Commit(proposal)
            } else {
                StatusView::Undecided(leader, leader_round)
            }
        }),
{
    let leader = proposal.reference.authority;
    let leader_round = proposal.reference.round;
    let voting_round = (first + 1) as RoundNumber;
    let decision_round = (first + committer.options.wave_length - 1) as RoundNumber;
    law_direct_rule_decides_by_stake(committer, leader, leader_round, first);
    lemma_sole_preferring(committer, voting_round, decision_round, proposal);
    assert(is_proposal(committer.blocks, leader, leader_round, proposal));
    if let StatusView::Commit(block) = committer.direct_status(leader, leader_round) {
        assert(!compete(block, proposal));
        lemma_same_reference(committer.blocks, block, proposal);
    }
}

proof fn lemma_sole_preferring(
    committer: CommitterView,
    voting_round: RoundNumber,
    decision_round: RoundNumber,
    proposal: BlockView,
)
    requires
        is_sole(committer.blocks, proposal),
    ensures
        preferring(committer.stakes, committer.blocks, voting_round, decision_round, proposal)
            == hearing(
            committer.blocks,
            voting_round,
            decision_round,
            proposal.reference.authority,
        ),
        forall|anchor: BlockView| #[trigger]
            preferring_below(
                committer.stakes,
                committer.blocks,
                anchor,
                voting_round,
                decision_round,
                proposal,
            ) == hearing_below(
                committer.blocks,
                anchor,
                voting_round,
                decision_round,
                proposal.reference.authority,
            ),
{
    let stakes = committer.stakes;
    let blocks = committer.blocks;
    let leader = proposal.reference.authority;
    assert forall|block: BlockView| #[trigger]
        prefers(stakes, blocks, block, voting_round, proposal) == hears_vote(
            blocks,
            block,
            voting_round,
            leader,
        ) by {
        law_sole_proposals_are_preferred_on_any_vote(
            stakes,
            blocks,
            block,
            voting_round,
            proposal,
        );
    }
    assert(preferring(stakes, blocks, voting_round, decision_round, proposal) =~= hearing(
        blocks,
        voting_round,
        decision_round,
        leader,
    ));
    assert forall|anchor: BlockView| #[trigger]
        preferring_below(stakes, blocks, anchor, voting_round, decision_round, proposal)
            == hearing_below(blocks, anchor, voting_round, decision_round, leader) by {
        assert(preferring_below(stakes, blocks, anchor, voting_round, decision_round, proposal)
            =~= hearing_below(blocks, anchor, voting_round, decision_round, leader));
    }
}

/// A quorum of votes commits: where a leader has a sole proposal and no authority has two blocks in
/// the decision round, the proposal is directly committed as soon as authorities with more than
/// four fifths of the stake, whoever they are, have a block of the decision round that hears a vote
/// for the leader.
pub proof fn law_a_quorum_that_hears_votes_commits(
    committer: CommitterView,
    proposal: BlockView,
    first: RoundNumber,
)
    requires
        committer.options.wave_length >= MINIMUM_WAVE_LENGTH,
        distinct_references(committer.blocks),
        committer.blocks.contains(proposal),
        is_sole(committer.blocks, proposal),
        starts_wave_of(committer.options, first, proposal.reference.round),
        first + committer.options.wave_length - 1 <= RoundNumber::MAX,
        forall|a: BlockView, b: BlockView| #[trigger]
            committer.blocks.contains(a) && #[trigger] committer.blocks.contains(b)
                && a.reference.round == first + committer.options.wave_length - 1
                && b.reference.round == a.reference.round && b.reference.authority
                == a.reference.authority ==> a == b,
        5 * stake_of(
            committer.stakes,
            hearing(
                committer.blocks,
                (first + 1) as RoundNumber,
                (first + committer.options.wave_length - 1) as RoundNumber,
                proposal.reference.authority,
            ),
        ) > 4 * total_stake(committer.stakes),
    ensures
        committer.direct_status(proposal.reference.authority, proposal.reference.round)
            == StatusView::Commit(proposal),
{
    let leader = proposal.reference.authority;
    let voting_round = (first + 1) as RoundNumber;
    let decision_round = (first + committer.options.wave_length - 1) as RoundNumber;
    let hear = hearing(committer.blocks, voting_round, decision_round, leader);
    let blame = blaming(committer.blocks, voting_round, decision_round, leader);
    law_direct_rule_on_a_sole_proposal(committer, proposal, first);
    assert(hear.intersect(blame) =~= Set::<AuthorityIndex>::empty());
    lemma_stake_of_union(committer.stakes, hear, blame);
    lemma_stake_of_at_most_total(committer.stakes, hear.union(blame));
    lemma_stake_of_nobody(committer.stakes);
}

/// A quorum of blames skips: a leader is directly skipped as soon as authorities with more than
/// four fifths of the stake, whoever they are, have a block of the decision round that hears no
/// vote for it, whatever it proposed.
pub proof fn law_a_quorum_that_hears_no_votes_skips(
    committer: CommitterView,
    leader: AuthorityIndex,
    leader_round: RoundNumber,
    first: RoundNumber,
)
    requires
        committer.options.wave_length >= MINIMUM_WAVE_LENGTH,
        starts_wave_of(committer.options, first, leader_round),
        first + committer.options.wave_length - 1 <= RoundNumber::MAX,
        5 * stake_of(
            committer.stakes,
            blaming(
                committer.blocks,
                (first + 1) as RoundNumber,
                (first + committer.options.wave_length - 1) as RoundNumber,
                leader,
            ),
        ) > 4 * total_stake(committer.stakes),
    ensures
        committer.direct_status(leader, leader_round) == StatusView::Skip(leader, leader_round),
{
    law_direct_rule_decides_by_stake(committer, leader, leader_round, first);
}

/// An anchor commits a proposal if and only if it is the only one of the leader that more than two
/// fifths of the stake prefer with blocks in its causal history. Otherwise it skips the leader.
pub proof fn law_anchor_decides_by_stake(
    committer: CommitterView,
    anchor: BlockView,
    leader: AuthorityIndex,
    leader_round: RoundNumber,
    first: RoundNumber,
    proposal: BlockView,
)
    requires
        committer.options.wave_length >= MINIMUM_WAVE_LENGTH,
        distinct_references(committer.blocks),
        starts_wave_of(committer.options, first, leader_round),
        first + committer.options.wave_length - 1 <= RoundNumber::MAX,
    ensures
        committer.status_from_anchor(anchor, leader, leader_round) == StatusView::Commit(proposal)
            <==> {
            &&& is_proposal(committer.blocks, leader, leader_round, proposal)
            &&& enough_prefer_below(committer, anchor, first, proposal)
            &&& forall|other: BlockView| #[trigger]
                is_proposal(committer.blocks, leader, leader_round, other) && compete(
                    other,
                    proposal,
                ) ==> !enough_prefer_below(committer, anchor, first, other)
        },
        !(committer.status_from_anchor(anchor, leader, leader_round) is Commit)
            ==> committer.status_from_anchor(anchor, leader, leader_round) == StatusView::Skip(
            leader,
            leader_round,
        ),
{
    let blocks = committer.blocks;
    let voting_round = (first + 1) as RoundNumber;
    let decision_round = (first + committer.options.wave_length - 1) as RoundNumber;
    let supported = committer.indirectly_supported(anchor, leader, leader_round);
    law_waves_have_three_stages(committer, first, leader_round);
    assert forall|block: BlockView| #[trigger]
        supported.contains(block) <==> is_proposal(blocks, leader, leader_round, block)
            && enough_prefer_below(committer, anchor, first, block) by {
        lemma_among_indirectly_supported(committer, anchor, leader, leader_round, block);
        law_anchored_support_is_the_stake_below_the_anchor(
            committer,
            anchor,
            voting_round,
            decision_round,
            block,
        );
    }
    lemma_among_indirectly_supported(committer, anchor, leader, leader_round, proposal);
    if committer.status_from_anchor(anchor, leader, leader_round) == StatusView::Commit(proposal) {
        assert(supported[0] == proposal);
        assert(supported.contains(proposal));
        assert forall|other: BlockView| #[trigger]
            is_proposal(blocks, leader, leader_round, other) && compete(
                other,
                proposal,
            ) implies !enough_prefer_below(committer, anchor, first, other) by {
            if supported.contains(other) {
                let i = choose|i: int| 0 <= i < supported.len() && supported[i] == other;
                assert(i == 0);
            }
        }
    }
    if supported.contains(proposal) && (forall|other: BlockView| #[trigger]
        is_proposal(blocks, leader, leader_round, other) && compete(other, proposal)
            ==> !enough_prefer_below(committer, anchor, first, other)) {
        assert forall|a: BlockView, b: BlockView| #[trigger]
            supported.contains(a) && #[trigger] supported.contains(b) implies a.reference
            == b.reference by {
            assert(!compete(a, proposal) && !compete(b, proposal));
        }
        lemma_at_most_one(supported);
    }
}

/// An anchor on a leader with a sole proposal: it commits the proposal if more than two fifths of
/// the stake hear a vote for the leader with blocks in its causal history. Otherwise it skips the
/// leader.
pub proof fn law_anchor_on_a_sole_proposal(
    committer: CommitterView,
    anchor: BlockView,
    proposal: BlockView,
    first: RoundNumber,
)
    requires
        committer.options.wave_length >= MINIMUM_WAVE_LENGTH,
        distinct_references(committer.blocks),
        committer.blocks.contains(proposal),
        is_sole(committer.blocks, proposal),
        starts_wave_of(committer.options, first, proposal.reference.round),
        first + committer.options.wave_length - 1 <= RoundNumber::MAX,
    ensures
        ({
            let leader = proposal.reference.authority;
            let leader_round = proposal.reference.round;
            let hear = hearing_below(
                committer.blocks,
                anchor,
                (first + 1) as RoundNumber,
                (first + committer.options.wave_length - 1) as RoundNumber,
                leader,
            );
            committer.status_from_anchor(anchor, leader, leader_round) == if 5 * stake_of(
                committer.stakes,
                hear,
            ) > 2 * total_stake(committer.stakes) {
                StatusView::Commit(proposal)
            } else {
                StatusView::Skip(leader, leader_round)
            }
        }),
{
    let leader = proposal.reference.authority;
    let leader_round = proposal.reference.round;
    let voting_round = (first + 1) as RoundNumber;
    let decision_round = (first + committer.options.wave_length - 1) as RoundNumber;
    lemma_sole_preferring(committer, voting_round, decision_round, proposal);
    assert(preferring_below(
        committer.stakes,
        committer.blocks,
        anchor,
        voting_round,
        decision_round,
        proposal,
    ) == hearing_below(committer.blocks, anchor, voting_round, decision_round, leader));
    law_anchor_decides_by_stake(committer, anchor, leader, leader_round, first, proposal);
    if let StatusView::Commit(block) = committer.status_from_anchor(anchor, leader, leader_round) {
        law_anchor_decides_by_stake(committer, anchor, leader, leader_round, first, block);
        assert(!compete(block, proposal));
        lemma_same_reference(committer.blocks, block, proposal);
    }
}

/// The status counts when an anchor is looked for from `bound` on: it is a commit, or not decided
/// yet, of that round or a later one.
pub open spec fn counts_from(status: StatusView, bound: int) -> bool {
    match status {
        StatusView::Commit(block) => block.reference.round >= bound,
        StatusView::Skip(_, _) => false,
        StatusView::Undecided(_, round) => round >= bound,
    }
}

/// `leaders[at]` is the first from `start` on that counts.
pub open spec fn first_that_counts(
    leaders: Seq<StatusView>,
    start: int,
    at: int,
    bound: int,
) -> bool {
    &&& start <= at < leaders.len()
    &&& counts_from(leaders[at], bound)
    &&& forall|i: int| start <= i < at ==> !counts_from(#[trigger] leaders[i], bound)
}

/// The indirect rule goes by the first of the later leaders that leads a round at least one wave
/// later and is not skipped, however many waves lie between. If that one is committed, its block
/// decides as anchor, and the leader is not left undecided. If that one is undecided, so is the
/// leader.
pub proof fn law_first_leader_that_counts_is_the_anchor(
    committer: CommitterView,
    leader: AuthorityIndex,
    leader_round: RoundNumber,
    leaders: Seq<StatusView>,
    at: int,
)
    requires
        first_that_counts(leaders, 0, at, leader_round + committer.options.wave_length),
    ensures
        match leaders[at] {
            StatusView::Commit(anchor) => {
                &&& committer.indirect_status(leader, leader_round, leaders)
                    == committer.status_from_anchor(anchor, leader, leader_round)
                &&& committer.indirect_status(leader, leader_round, leaders).is_decided()
            },
            _ => committer.indirect_status(leader, leader_round, leaders) == StatusView::Undecided(
                leader,
                leader_round,
            ),
        },
    decreases leaders.len(),
{
    if at > 0 {
        let rest = leaders.drop_first();
        let bound = leader_round + committer.options.wave_length;
        assert(!counts_from(leaders[0], bound));
        assert forall|i: int| 0 <= i < at - 1 implies !counts_from(#[trigger] rest[i], bound) by {
            assert(rest[i] == leaders[i + 1]);
        }
        assert(rest[at - 1] == leaders[at]);
        law_first_leader_that_counts_is_the_anchor(
            committer,
            leader,
            leader_round,
            rest,
            at - 1,
        );
    }
}

/// Where none of the later leaders counts, the indirect rule leaves the leader undecided.
pub proof fn law_without_a_leader_that_counts_nothing_is_decided(
    committer: CommitterView,
    leader: AuthorityIndex,
    leader_round: RoundNumber,
    leaders: Seq<StatusView>,
)
    requires
        forall|i: int|
            0 <= i < leaders.len() ==> !counts_from(
                #[trigger] leaders[i],
                leader_round + committer.options.wave_length,
            ),
    ensures
        committer.indirect_status(leader, leader_round, leaders) == StatusView::Undecided(
            leader,
            leader_round,
        ),
    decreases leaders.len(),
{
    if leaders.len() > 0 {
        let rest = leaders.drop_first();
        assert(!counts_from(leaders[0], leader_round + committer.options.wave_length));
        assert forall|i: int| 0 <= i < rest.len() implies !counts_from(
            #[trigger] rest[i],
            leader_round + committer.options.wave_length,
        ) by {
            assert(rest[i] == leaders[i + 1]);
        }
        law_without_a_leader_that_counts_nothing_is_decided(committer, leader, leader_round, rest);
    }
}

/// What the indirect rule says of a leader with a sole proposal, if the first of the later leaders
/// that counts is committed: commit if more than two fifths of the stake hear a vote for the leader
/// with blocks in the causal history of that one, else skip.
pub proof fn law_indirect_rule_on_a_sole_proposal(
    committer: CommitterView,
    proposal: BlockView,
    first: RoundNumber,
    leaders: Seq<StatusView>,
    at: int,
    anchor: BlockView,
)
    requires
        committer.options.wave_length >= MINIMUM_WAVE_LENGTH,
        distinct_references(committer.blocks),
        committer.blocks.contains(proposal),
        is_sole(committer.blocks, proposal),
        starts_wave_of(committer.options, first, proposal.reference.round),
        first + committer.options.wave_length - 1 <= RoundNumber::MAX,
        first_that_counts(
            leaders,
            0,
            at,
            proposal.reference.round + committer.options.wave_length,
        ),
        leaders[at] == StatusView::Commit(anchor),
    ensures
        ({
            let leader = proposal.reference.authority;
            let leader_round = proposal.reference.round;
            let hear = hearing_below(
                committer.blocks,
                anchor,
                (first + 1) as RoundNumber,
                (first + committer.options.wave_length - 1) as RoundNumber,
                leader,
            );
            committer.indirect_status(leader, leader_round, leaders) == if 5 * stake_of(
                committer.stakes,
                hear,
            ) > 2 * total_stake(committer.stakes) {
                StatusView::Commit(proposal)
            } else {
                StatusView::Skip(leader, leader_round)
            }
        }),
{
    law_first_leader_that_counts_is_the_anchor(
        committer,
        proposal.reference.authority,
        proposal.reference.round,
        leaders,
        at,
    );
    law_anchor_on_a_sole_proposal(committer, anchor, proposal, first);
}

/// What is decided from an anchor stays decided in the same way, whatever leaders come after.
pub proof fn law_leaders_after_the_anchor_change_nothing(
    committer: CommitterView,
    leader: AuthorityIndex,
    leader_round: RoundNumber,
    leaders: Seq<StatusView>,
    more: Seq<StatusView>,
)
    requires
        committer.indirect_status(leader, leader_round, leaders).is_decided(),
    ensures
        committer.indirect_status(leader, leader_round, leaders + more)
            == committer.indirect_status(leader, leader_round, leaders),
{
    let bound = leader_round + committer.options.wave_length;
    let all = leaders + more;
    if forall|i: int| 0 <= i < leaders.len() ==> !counts_from(#[trigger] leaders[i], bound) {
        law_without_a_leader_that_counts_nothing_is_decided(
            committer,
            leader,
            leader_round,
            leaders,
        );
    }
    let at = lemma_some_first_that_counts(leaders, 0, bound);
    assert(first_that_counts(all, 0, at, bound)) by {
        assert forall|i: int| 0 <= i < at implies !counts_from(#[trigger] all[i], bound) by {
            assert(all[i] == leaders[i]);
        }
    }
    law_first_leader_that_counts_is_the_anchor(committer, leader, leader_round, leaders, at);
    law_first_leader_that_counts_is_the_anchor(committer, leader, leader_round, all, at);
}

/// Where a leader counts, one is the first.
pub(crate) proof fn lemma_some_first_that_counts(
    leaders: Seq<StatusView>,
    start: int,
    bound: int,
) -> (at: int)
    requires
        0 <= start,
        exists|i: int| start <= i < leaders.len() && counts_from(#[trigger] leaders[i], bound),
    ensures
        first_that_counts(leaders, start, at, bound),
    decreases leaders.len() - start,
{
    let i = choose|i: int| start <= i < leaders.len() && counts_from(#[trigger] leaders[i], bound);
    if counts_from(leaders[start], bound) {
        start
    } else {
        assert(start + 1 <= i);
        lemma_some_first_that_counts(leaders, start + 1, bound)
    }
}

/// The name of a committer tells its offsets.
pub proof fn law_name_tells_the_offsets(committer: CommitterView)
    ensures
        exists|leader: Seq<char>, round: Seq<char>|
            {
                &&& committer.name() == "Committer-L"@ + leader + "-R"@ + round
                &&& #[trigger] number_of(leader) == committer.options.leader_offset
                &&& #[trigger] number_of(round) == committer.options.round_offset
            },
{
    let leader = decimal(committer.options.leader_offset as nat);
    let round = decimal(committer.options.round_offset as nat);
    law_decimal_stands_for_the_number(committer.options.leader_offset as nat);
    law_decimal_stands_for_the_number(committer.options.round_offset as nat);
    assert(number_of(leader) == committer.options.leader_offset && number_of(round)
        == committer.options.round_offset);
}

} // verus!
