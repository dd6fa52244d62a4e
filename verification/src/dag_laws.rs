//! What holds of stakes, of the store, and of causal histories.
//!
//! The laws speak of stakes as numbers and of blocks as a reference with references, so that what
//! the rules are built from can be read without them.

use crate::block_store::{
    blocks_at_authority_round, blocks_by_round, distinct_references, has_reference, highest_round,
    linked, rivals,
};
use crate::committee::{
    is_indirect_quorum, is_quorum, is_validity_quorum, leader_by_rotation, lemma_stake_of_insert,
    lemma_stake_of_nobody, stake_of, total_stake, CommitteeThreshold, IndirectQuorumThreshold,
    QuorumThreshold,
};
use crate::types::{AuthorityIndex, BlockReference, BlockView, RoundNumber, Stake, StatusView};
use vstd::arithmetic::div_mod::{
    lemma_fundamental_div_mod, lemma_fundamental_div_mod_converse, lemma_mod_bound,
    lemma_mod_decreases, lemma_small_mod,
};
use vstd::prelude::*;

verus! {

/// The total stake adds up: it is nothing for nobody, the stake of a single authority for that
/// authority, and the sum of the parts for two parts of a committee.
pub proof fn law_total_stake_adds_up(stake: Stake, a: Seq<Stake>, b: Seq<Stake>)
    ensures
        total_stake(Seq::empty()) == 0,
        total_stake(seq![stake]) == stake,
        total_stake(a + b) == total_stake(a) + total_stake(b),
    decreases b.len(),
{
    reveal_with_fuel(total_stake, 2);
    assert(seq![stake].drop_last() =~= Seq::<Stake>::empty());
    if b.len() == 0 {
        assert(a + b =~= a);
    } else {
        assert((a + b).drop_last() =~= a + b.drop_last());
        law_total_stake_adds_up(stake, a, b.drop_last());
    }
}

/// The stake of a set of authorities adds up: nobody has none, and a new member brings its own
/// stake, or none if it is not in the committee. All together have the total stake.
pub proof fn law_stake_adds_up(
    stakes: Seq<Stake>,
    members: Set<AuthorityIndex>,
    new: AuthorityIndex,
)
    requires
        stakes.len() <= u64::MAX,
        !members.contains(new),
    ensures
        stake_of(stakes, Set::empty()) == 0,
        new < stakes.len() ==> stake_of(stakes, members.insert(new)) == stake_of(stakes, members)
            + stakes[new as int],
        new >= stakes.len() ==> stake_of(stakes, members.insert(new)) == stake_of(stakes, members),
        stake_of(stakes, Set::full()) == total_stake(stakes),
{
    lemma_stake_of_nobody(stakes);
    lemma_stake_of_insert(stakes, members, new);
    lemma_stake_of_everybody(stakes);
}

proof fn lemma_stake_of_everybody(stakes: Seq<Stake>)
    ensures
        stake_of(stakes, Set::full()) == total_stake(stakes),
    decreases stakes.len(),
{
    if stakes.len() > 0 {
        lemma_stake_of_everybody(stakes.drop_last());
    }
}

/// `4f + 1` is more than four fifths of the total stake, `2f + 1` more than two fifths, and
/// `f + 1` more than one fifth.
pub proof fn law_thresholds_are_fifths(stakes: Seq<Stake>, amount: nat)
    ensures
        is_quorum(stakes, amount) <==> 5 * amount > 4 * total_stake(stakes),
        is_indirect_quorum(stakes, amount) <==> 5 * amount > 2 * total_stake(stakes),
        is_validity_quorum(stakes, amount) <==> 5 * amount > total_stake(stakes),
        QuorumThreshold::reached(stakes, amount) <==> 5 * amount > 4 * total_stake(stakes),
        IndirectQuorumThreshold::reached(stakes, amount) <==> 5 * amount > 2 * total_stake(stakes),
{
}

/// With `5f + 1` authorities of equal stake, the thresholds are `4f + 1`, `2f + 1` and `f + 1`
/// authorities.
pub proof fn law_thresholds_count_authorities(stakes: Seq<Stake>, f: nat, stake: Stake, count: nat)
    requires
        stake > 0,
        stakes.len() == 5 * f + 1,
        forall|i: int| 0 <= i < stakes.len() ==> stakes[i] == stake,
    ensures
        is_quorum(stakes, count * (stake as nat)) <==> count >= 4 * f + 1,
        is_indirect_quorum(stakes, count * (stake as nat)) <==> count >= 2 * f + 1,
        is_validity_quorum(stakes, count * (stake as nat)) <==> count >= f + 1,
{
    lemma_equal_stakes(stakes, stake);
    let s = stake as int;
    let n = (5 * f + 1) as int;
    let c = count as int;
    assert((5 * (c * s) > 4 * (n * s)) == (5 * c > 4 * n)) by (nonlinear_arith)
        requires
            s > 0,
    ;
    assert((5 * (c * s) > 2 * (n * s)) == (5 * c > 2 * n)) by (nonlinear_arith)
        requires
            s > 0,
    ;
    assert((5 * (c * s) > n * s) == (5 * c > n)) by (nonlinear_arith)
        requires
            s > 0,
    ;
}

proof fn lemma_equal_stakes(stakes: Seq<Stake>, stake: Stake)
    requires
        forall|i: int| 0 <= i < stakes.len() ==> stakes[i] == stake,
    ensures
        total_stake(stakes) == stakes.len() * stake,
    decreases stakes.len(),
{
    if stakes.len() > 0 {
        lemma_equal_stakes(stakes.drop_last(), stake);
        let n = stakes.len() as int;
        let s = stake as int;
        assert(n * s == (n - 1) * s + s) by (nonlinear_arith);
    } else {
        assert(0 * (stake as int) == 0);
    }
}

/// The authorities take turns: the leader is in the committee, the first round is led by the first
/// authority, and each round by the one after the leader of the preceding round, in a circle.
pub proof fn law_leaders_take_turns(stakes: Seq<Stake>, round: RoundNumber)
    requires
        0 < stakes.len(),
        round < RoundNumber::MAX,
    ensures
        leader_by_rotation(stakes, 0) == 0,
        leader_by_rotation(stakes, round) < stakes.len(),
        leader_by_rotation(stakes, (round + 1) as RoundNumber) == if leader_by_rotation(
            stakes,
            round,
        ) + 1 == stakes.len() {
            0
        } else {
            leader_by_rotation(stakes, round) + 1
        },
{
    let n = stakes.len() as int;
    let r = round as int;
    lemma_fundamental_div_mod(r, n);
    lemma_mod_bound(r, n);
    lemma_mod_bound(r + 1, n);
    lemma_small_mod(0, stakes.len());
    lemma_mod_decreases(round as nat, stakes.len());
    lemma_mod_decreases((round + 1) as nat, stakes.len());
    let q = r / n;
    if r % n + 1 == n {
        assert(r + 1 == (q + 1) * n + 0) by (nonlinear_arith)
            requires
                r == n * q + (n - 1),
        ;
        lemma_fundamental_div_mod_converse(r + 1, n, q + 1, 0);
    } else {
        assert(r + 1 == q * n + (r % n + 1)) by (nonlinear_arith)
            requires
                r == n * q + r % n,
        ;
        lemma_fundamental_div_mod_converse(r + 1, n, q, r % n + 1);
    }
}

/// The highest round is that of a block, and no block is above it. Without blocks it is 0.
pub proof fn law_highest_round_is_the_highest(blocks: Seq<BlockView>)
    ensures
        blocks.len() == 0 ==> highest_round(blocks) == 0,
        blocks.len() > 0 ==> exists|i: int|
            0 <= i < blocks.len() && #[trigger] blocks[i].reference.round == highest_round(blocks),
        forall|i: int|
            0 <= i < blocks.len() ==> #[trigger] blocks[i].reference.round <= highest_round(blocks),
    decreases blocks.len(),
{
    if blocks.len() > 0 {
        let rest = blocks.drop_last();
        law_highest_round_is_the_highest(rest);
        let last = blocks.len() - 1;
        assert(blocks[last].reference.round <= highest_round(blocks));
        assert forall|i: int| 0 <= i < blocks.len() implies #[trigger] blocks[i].reference.round
            <= highest_round(blocks) by {
            if i < last {
                assert(rest[i].reference.round <= highest_round(rest));
            }
        }
        if blocks.last().reference.round > highest_round(rest) {
            assert(blocks[last].reference.round == highest_round(blocks));
        } else if rest.len() > 0 {
            let i = choose|i: int|
                0 <= i < rest.len() && #[trigger] rest[i].reference.round == highest_round(rest);
            assert(blocks[i].reference.round == highest_round(blocks));
        } else {
            assert(blocks[last].reference.round == highest_round(blocks));
        }
    }
}

/// What a query of the store finds grows with the store, at its end: a new block is found in its
/// round, at its authority and round, and among the rivals of the other blocks that its authority
/// has in its round. Nothing is found in an empty store.
pub proof fn law_queries_follow_the_store(
    blocks: Seq<BlockView>,
    new: BlockView,
    authority: AuthorityIndex,
    round: RoundNumber,
    block: BlockView,
)
    ensures
        blocks_by_round(Seq::empty(), round) == Seq::<BlockView>::empty(),
        blocks_by_round(blocks.push(new), round) == if new.reference.round == round {
            blocks_by_round(blocks, round).push(new)
        } else {
            blocks_by_round(blocks, round)
        },
        blocks_at_authority_round(Seq::empty(), authority, round) == Seq::<BlockView>::empty(),
        blocks_at_authority_round(blocks.push(new), authority, round) == if new.reference.authority
            == authority && new.reference.round == round {
            blocks_at_authority_round(blocks, authority, round).push(new)
        } else {
            blocks_at_authority_round(blocks, authority, round)
        },
        rivals(Seq::empty(), block) == Seq::<BlockView>::empty(),
        rivals(blocks.push(new), block) == if new.reference.authority == block.reference.authority
            && new.reference.round == block.reference.round && new.reference.digest
            != block.reference.digest {
            rivals(blocks, block).push(new)
        } else {
            rivals(blocks, block)
        },
{
    reveal(Seq::filter);
    assert(blocks.push(new).drop_last() =~= blocks);
}

/// A reference is known in a store if and only if a block was added with it.
pub proof fn law_references_follow_the_store(
    blocks: Seq<BlockView>,
    new: BlockView,
    reference: BlockReference,
)
    ensures
        !has_reference(Seq::empty(), reference),
        has_reference(blocks.push(new), reference) <==> new.reference == reference || has_reference(
            blocks,
            reference,
        ),
        distinct_references(Seq::empty()),
        distinct_references(blocks.push(new)) <==> distinct_references(blocks) && !has_reference(
            blocks,
            new.reference,
        ),
{
    let all = blocks.push(new);
    let last = blocks.len() as int;
    assert(all[last] == new);
    if has_reference(blocks, reference) {
        let i = choose|i: int| 0 <= i < blocks.len() && #[trigger] blocks[i].reference == reference;
        assert(all[i].reference == reference);
    }
    if new.reference == reference {
        assert(all[last].reference == reference);
    }
    if has_reference(all, reference) && new.reference != reference {
        let i = choose|i: int| 0 <= i < all.len() && #[trigger] all[i].reference == reference;
        assert(blocks[i].reference == reference);
    }
    if distinct_references(all) {
        assert forall|i: int, j: int| 0 <= i < j < blocks.len() implies #[trigger] blocks[i].reference
            != #[trigger] blocks[j].reference by {
            assert(all[i].reference != all[j].reference);
        }
        assert forall|i: int| 0 <= i < blocks.len() implies #[trigger] blocks[i].reference
            != new.reference by {
            assert(all[i].reference != all[last].reference);
        }
    }
    if distinct_references(blocks) && !has_reference(blocks, new.reference) {
        assert forall|i: int, j: int| 0 <= i < j < all.len() implies #[trigger] all[i].reference
            != #[trigger] all[j].reference by {
            assert(all[i] == blocks[i]);
            if j < last {
                assert(all[j] == blocks[j]);
            }
        }
    }
}

/// A block names an authority if and only if it includes a block of it.
pub proof fn law_blocks_name_whom_they_include(
    block: BlockView,
    new: BlockReference,
    authority: AuthorityIndex,
)
    ensures
        block.includes.len() == 0 ==> !block.names(authority),
        (BlockView { reference: block.reference, includes: block.includes.push(new) }).names(
            authority,
        ) <==> new.authority == authority || block.names(authority),
{
    let more = BlockView { reference: block.reference, includes: block.includes.push(new) };
    let last = block.includes.len() as int;
    assert(more.includes[last] == new);
    if block.names(authority) {
        let k = choose|k: int|
            0 <= k < block.includes.len() && #[trigger] block.includes[k].authority == authority;
        assert(more.includes[k].authority == authority);
    }
    if new.authority == authority {
        assert(more.includes[last].authority == authority);
    }
    if more.names(authority) && new.authority != authority {
        let k = choose|k: int|
            0 <= k < more.includes.len() && #[trigger] more.includes[k].authority == authority;
        assert(block.includes[k].authority == authority);
    }
}

/// A status names a leader and its round; a committed one those of the block. It is decided if and
/// only if the leader is committed or skipped.
pub proof fn law_status_names_the_leader(
    block: BlockView,
    authority: AuthorityIndex,
    round: RoundNumber,
)
    ensures
        StatusView::Commit(block).authority() == block.reference.authority,
        StatusView::Commit(block).round() == block.reference.round,
        StatusView::Commit(block).is_decided(),
        StatusView::Skip(authority, round).authority() == authority,
        StatusView::Skip(authority, round).round() == round,
        StatusView::Skip(authority, round).is_decided(),
        StatusView::Undecided(authority, round).authority() == authority,
        StatusView::Undecided(authority, round).round() == round,
        !StatusView::Undecided(authority, round).is_decided(),
{
}

/// `block` includes `parent`, which is of a lower round.
pub open spec fn is_parent(block: BlockView, parent: BlockView) -> bool {
    parent.reference.round < block.reference.round && exists|k: int|
        0 <= k < block.includes.len() && #[trigger] block.includes[k] == parent.reference
}

/// A chain down the DAG: each block includes the next one. All but the first are of the DAG.
pub open spec fn is_chain(blocks: Seq<BlockView>, chain: Seq<BlockView>) -> bool {
    &&& chain.len() > 0
    &&& forall|i: int| 1 <= i < chain.len() ==> blocks.contains(#[trigger] chain[i])
    &&& forall|i: int, j: int|
        0 <= i && j == i + 1 && j < chain.len() ==> is_parent(#[trigger] chain[i], #[trigger] chain[j])
}

/// `earlier` is in the causal history of `later`: the two are the same block, or a chain from
/// `later` ends in a block that includes `earlier`.
pub open spec fn in_history(blocks: Seq<BlockView>, later: BlockView, earlier: BlockView) -> bool {
    ||| later.reference == earlier.reference
    ||| exists|chain: Seq<BlockView>| #[trigger]
        is_chain(blocks, chain) && chain[0] == later && is_parent(chain.last(), earlier)
}

/// A block is linked to exactly the blocks of its causal history.
pub proof fn law_links_are_chains(blocks: Seq<BlockView>, later: BlockView, earlier: BlockView)
    ensures
        linked(blocks, later, earlier) <==> in_history(blocks, later, earlier),
{
    if linked(blocks, later, earlier) && later.reference != earlier.reference {
        let chain = lemma_links_have_chains(blocks, later, earlier);
        assert(is_chain(blocks, chain));
    }
    if in_history(blocks, later, earlier) && later.reference != earlier.reference {
        let chain = choose|chain: Seq<BlockView>| #[trigger]
            is_chain(blocks, chain) && chain[0] == later && is_parent(chain.last(), earlier);
        lemma_chains_are_links(blocks, chain, earlier);
    }
}

proof fn lemma_links_have_chains(
    blocks: Seq<BlockView>,
    later: BlockView,
    earlier: BlockView,
) -> (chain: Seq<BlockView>)
    requires
        linked(blocks, later, earlier),
        later.reference != earlier.reference,
    ensures
        is_chain(blocks, chain),
        chain[0] == later,
        is_parent(chain.last(), earlier),
    decreases later.round() - earlier.round(),
{
    if earlier.round() < later.round() && later.includes.contains(earlier.reference) {
        let k = choose|k: int|
            0 <= k < later.includes.len() && later.includes[k] == earlier.reference;
        assert(later.includes[k] == earlier.reference);
        seq![later]
    } else {
        let i = choose|i: int|
            0 <= i < blocks.len() && earlier.round() < #[trigger] blocks[i].round() < later.round()
                && blocks[i].includes.contains(earlier.reference) && linked(
                blocks,
                later,
                blocks[i],
            );
        let middle = blocks[i];
        let start = lemma_links_have_chains(blocks, later, middle);
        let chain = start.push(middle);
        assert(blocks.contains(middle));
        assert forall|j: int| 1 <= j < chain.len() implies blocks.contains(#[trigger] chain[j]) by {
            if j < start.len() {
                assert(chain[j] == start[j]);
            }
        }
        assert forall|a: int, b: int| 0 <= a && b == a + 1 && b < chain.len() implies is_parent(
            #[trigger] chain[a],
            #[trigger] chain[b],
        ) by {
            assert(chain[a] == start[a]);
            if b < start.len() {
                assert(chain[b] == start[b]);
            }
        }
        let k = choose|k: int|
            0 <= k < middle.includes.len() && middle.includes[k] == earlier.reference;
        assert(middle.includes[k] == earlier.reference);
        chain
    }
}

proof fn lemma_chains_are_links(blocks: Seq<BlockView>, chain: Seq<BlockView>, earlier: BlockView)
    requires
        is_chain(blocks, chain),
        is_parent(chain.last(), earlier),
    ensures
        linked(blocks, chain[0], earlier),
        earlier.round() < chain[0].round(),
    decreases chain.len(),
{
    let last = chain.last();
    assert(last.includes.contains(earlier.reference));
    if chain.len() > 1 {
        let start = chain.drop_last();
        assert forall|i: int| 1 <= i < start.len() implies blocks.contains(#[trigger] start[i]) by {
            assert(start[i] == chain[i]);
        }
        assert forall|i: int, j: int| 0 <= i && j == i + 1 && j < start.len() implies is_parent(
            #[trigger] start[i],
            #[trigger] start[j],
        ) by {
            assert(start[i] == chain[i] && start[j] == chain[j]);
        }
        assert(is_parent(chain[chain.len() - 2], chain[chain.len() - 1]));
        assert(start.last() == chain[chain.len() - 2]);
        lemma_chains_are_links(blocks, start, last);
        assert(blocks.contains(chain[chain.len() - 1]));
        let i = choose|i: int| 0 <= i < blocks.len() && blocks[i] == last;
        assert(blocks[i].includes.contains(earlier.reference));
    }
}

} // verus!
