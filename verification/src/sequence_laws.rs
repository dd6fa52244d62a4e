//! What holds of the sequence of decided leaders.

use crate::base_committer::CommitterView;
use crate::block_store::{distinct_references, highest_round};
use crate::laws::{
    faults_are_tolerated, law_direct_rule_is_undisputed,
    law_leader_offsets_elect_different_leaders, law_round_offsets_lead_different_rounds,
    law_status_is_of_the_leader,
};
use crate::types::{AuthorityIndex, BlockReference, BlockView, RoundNumber, Stake, StatusView};
use crate::universal_committer::{decided_prefix, layout, statuses_through, UniversalView};
use vstd::arithmetic::div_mod::{lemma_fundamental_div_mod, lemma_mod_bound, lemma_small_mod};
use vstd::prelude::*;

verus! {

/// No two committers elect the same leader for the same round.
pub open spec fn distinct_leaders(committer: UniversalView) -> bool {
    forall|round: RoundNumber, i: int, j: int|
        round <= highest_round(committer.blocks) && 0 <= i < j < committer.committers.len()
            && #[trigger] committer.committers[i].elect_leader(round) is Some
            ==> committer.committers[i].elect_leader(round)
            != #[trigger] committer.committers[j].elect_leader(round)
}

/// The status is that of a leader that one of the committers from `index` on elects for `round`.
spec fn is_elected(
    committer: UniversalView,
    round: int,
    index: int,
    status: StatusView,
) -> bool {
    exists|j: int|
        index <= j < committer.committers.len() && #[trigger] committer.committers[j].elect_leader(
            round as RoundNumber,
        ) == Some(status.authority())
}

/// The leader that a committer decides is the one that it elected.
proof fn lemma_status_is_of_the_leader(
    committer: CommitterView,
    leader: AuthorityIndex,
    round: RoundNumber,
    later: Seq<StatusView>,
)
    ensures
        committer.status(leader, round, later).authority() == leader,
        committer.status(leader, round, later).round() == round,
{
    law_status_is_of_the_leader(committer, leader, round, later);
}

/// The statuses from a committer on are statuses of that round and later ones; those of that round
/// come from the committers from that one on.
proof fn lemma_statuses_in_order(committer: UniversalView, round: int, index: int)
    requires
        0 <= round,
        0 <= index <= committer.committers.len(),
    ensures
        forall|k: int|
            0 <= k < committer.statuses(round, index).len() ==> {
                let status = #[trigger] committer.statuses(round, index)[k];
                &&& status.round() >= round
                &&& status.round() == round ==> is_elected(committer, round, index, status)
            },
    decreases highest_round(committer.blocks) + 1 - round, committer.committers.len() - index,
{
    if round > highest_round(committer.blocks) {
    } else if index >= committer.committers.len() {
        lemma_statuses_in_order(committer, round + 1, 0);
    } else {
        lemma_statuses_in_order(committer, round, index + 1);
        let later = committer.statuses(round, index + 1);
        let base = committer.committers[index];
        let all = committer.statuses(round, index);
        assert forall|k: int| 0 <= k < all.len() implies {
            let status = #[trigger] all[k];
            &&& status.round() >= round
            &&& status.round() == round ==> is_elected(committer, round, index, status)
        } by {
            match base.elect_leader(round as RoundNumber) {
                Some(leader) => {
                    if k == 0 {
                        lemma_status_is_of_the_leader(base, leader, round as RoundNumber, later);
                        assert(committer.committers[index].elect_leader(round as RoundNumber)
                            == Some(all[0].authority()));
                    } else {
                        assert(all[k] == later[k - 1]);
                    }
                },
                None => {
                    assert(all[k] == later[k]);
                },
            }
        }
    }
}

/// No two of the statuses are of the same leader in the same round.
pub open spec fn distinct_slots(statuses: Seq<StatusView>) -> bool {
    forall|i: int, j: int|
        0 <= i < j < statuses.len() ==> !((#[trigger] statuses[i]).authority() == (
        #[trigger] statuses[j]).authority() && statuses[i].round() == statuses[j].round())
}

/// Where no two committers elect the same leader for the same round, each leader has one status.
pub proof fn law_each_leader_has_one_status(committer: UniversalView, round: int, index: int)
    requires
        distinct_leaders(committer),
        0 <= round,
        0 <= index <= committer.committers.len(),
    ensures
        distinct_slots(committer.statuses(round, index)),
    decreases highest_round(committer.blocks) + 1 - round, committer.committers.len() - index,
{
    if round > highest_round(committer.blocks) {
    } else if index >= committer.committers.len() {
        law_each_leader_has_one_status(committer, round + 1, 0);
    } else {
        law_each_leader_has_one_status(committer, round, index + 1);
        lemma_statuses_in_order(committer, round, index + 1);
        let later = committer.statuses(round, index + 1);
        let base = committer.committers[index];
        let all = committer.statuses(round, index);
        if let Some(leader) = base.elect_leader(round as RoundNumber) {
            lemma_status_is_of_the_leader(base, leader, round as RoundNumber, later);
            assert forall|i: int, j: int| 0 <= i < j < all.len() implies !((
            #[trigger] all[i]).authority() == (#[trigger] all[j]).authority() && all[i].round()
                == all[j].round()) by {
                assert(all[j] == later[j - 1]);
                if i > 0 {
                    assert(all[i] == later[i - 1]);
                } else if later[j - 1].round() == round {
                    assert(is_elected(committer, round, index + 1, later[j - 1]));
                }
            }
        } else {
            assert(all =~= later);
        }
    }
}

/// The statuses from a committer on end with those of the next round, before which there are only
/// statuses of the same round.
proof fn lemma_next_round_is_suffix(committer: UniversalView, round: int, index: int)
    requires
        0 <= round <= highest_round(committer.blocks),
        0 <= index <= committer.committers.len(),
    ensures
        ({
            let all = committer.statuses(round, index);
            let next = committer.statuses(round + 1, 0);
            let before = all.len() - next.len();
            &&& before >= 0
            &&& all.skip(before) == next
            &&& forall|k: int| 0 <= k < before ==> #[trigger] all[k].round() == round
        }),
    decreases committer.committers.len() - index,
{
    let all = committer.statuses(round, index);
    let next = committer.statuses(round + 1, 0);
    let before = all.len() - next.len();
    if index >= committer.committers.len() {
        assert(all.skip(0) =~= next);
    } else {
        lemma_next_round_is_suffix(committer, round, index + 1);
        let later = committer.statuses(round, index + 1);
        let base = committer.committers[index];
        if let Some(leader) = base.elect_leader(round as RoundNumber) {
            lemma_status_is_of_the_leader(base, leader, round as RoundNumber, later);
            assert(all.skip(before) =~= later.skip(before - 1));
            assert forall|k: int| 0 <= k < before implies #[trigger] all[k].round() == round by {
                if k > 0 {
                    assert(all[k] == later[k - 1]);
                }
            }
        }
    }
}

/// The statuses from a round on end with those from a later round on, before which there are only
/// statuses of earlier rounds.
proof fn lemma_later_round_is_suffix(committer: UniversalView, round: int, later: int)
    requires
        0 <= round <= later,
    ensures
        ({
            let all = committer.statuses(round, 0);
            let next = committer.statuses(later, 0);
            let before = all.len() - next.len();
            &&& before >= 0
            &&& all.skip(before) == next
            &&& forall|k: int| 0 <= k < before ==> #[trigger] all[k].round() < later
        }),
    decreases later - round,
{
    let all = committer.statuses(round, 0);
    let next = committer.statuses(later, 0);
    let before = all.len() - next.len();
    if round == later || round > highest_round(committer.blocks) {
        assert(all.skip(before) =~= next);
    } else {
        lemma_next_round_is_suffix(committer, round, 0);
        lemma_later_round_is_suffix(committer, round + 1, later);
        let middle = committer.statuses(round + 1, 0);
        let first = all.len() - middle.len();
        assert(all.skip(before) =~= middle.skip(before - first));
        assert forall|k: int| 0 <= k < before implies #[trigger] all[k].round() < later by {
            if k >= first {
                assert(all[k] == all.skip(first)[k - first]);
                assert(all[k] == middle[k - first]);
            }
        }
    }
}

/// The decided prefix is a prefix, it is decided, and what follows it is undecided.
pub(crate) proof fn lemma_decided_prefix(statuses: Seq<StatusView>)
    ensures
        decided_prefix(statuses).len() <= statuses.len(),
        decided_prefix(statuses) == statuses.take(decided_prefix(statuses).len() as int),
        forall|k: int|
            0 <= k < decided_prefix(statuses).len() ==> #[trigger] statuses[k].is_decided(),
        decided_prefix(statuses).len() < statuses.len()
            ==> !statuses[decided_prefix(statuses).len() as int].is_decided(),
    decreases statuses.len(),
{
    let prefix = decided_prefix(statuses);
    if statuses.len() > 0 && statuses[0].is_decided() {
        let rest = statuses.drop_first();
        lemma_decided_prefix(rest);
        assert forall|k: int| 0 <= k < prefix.len() implies prefix[k] == statuses[k]
            && #[trigger] statuses[k].is_decided() by {
            if k > 0 {
                assert(rest[k - 1] == statuses[k]);
                assert(rest[k - 1].is_decided());
            }
        }
        assert(prefix =~= statuses.take(prefix.len() as int));
        if prefix.len() < statuses.len() {
            assert(rest[prefix.len() - 1] == statuses[prefix.len() as int]);
        }
    } else {
        assert(prefix =~= statuses.take(0));
    }
}

/// Up to the last status of a leader there are statuses, and none of them comes after.
pub(crate) proof fn lemma_statuses_through(
    statuses: Seq<StatusView>,
    authority: AuthorityIndex,
    round: RoundNumber,
)
    ensures
        ({
            let through = statuses_through(statuses, authority, round) as int;
            &&& through <= statuses.len()
            &&& through > 0 ==> statuses[through - 1].authority() == authority
                && statuses[through - 1].round() == round
            &&& forall|k: int|
                through <= k < statuses.len() ==> !((#[trigger] statuses[k]).authority()
                    == authority && statuses[k].round() == round)
        }),
    decreases statuses.len(),
{
    if statuses.len() > 0 && !(statuses.last().authority() == authority && statuses.last().round()
        == round) {
        let rest = statuses.drop_last();
        lemma_statuses_through(rest, authority, round);
        let through = statuses_through(statuses, authority, round) as int;
        assert forall|k: int| through <= k < statuses.len() implies !((
        #[trigger] statuses[k]).authority() == authority && statuses[k].round() == round) by {
            if k < rest.len() {
                assert(rest[k] == statuses[k]);
            }
        }
    }
}

/// Every leader of the sequence is decided. None is of the genesis round or of a round before that
/// of the last decided leader.
pub proof fn law_sequence_is_decided(committer: UniversalView, last_decided: BlockReference)
    ensures
        forall|k: int|
            0 <= k < committer.sequence(last_decided).len() ==> {
                let status = #[trigger] committer.sequence(last_decided)[k];
                &&& status.is_decided()
                &&& status.round() > 0
                &&& status.round() >= last_decided.round
            },
{
    let statuses = committer.statuses_from(last_decided);
    let through = statuses_through(statuses, last_decided.authority, last_decided.round) as int;
    let first = if last_decided.round == 0 {
        1
    } else {
        last_decided.round as int
    };
    lemma_statuses_through(statuses, last_decided.authority, last_decided.round);
    lemma_statuses_in_order(committer, first, 0);
    let pending = statuses.skip(through);
    lemma_decided_prefix(pending);
    let sequence = committer.sequence(last_decided);
    assert forall|k: int| 0 <= k < sequence.len() implies {
        let status = #[trigger] sequence[k];
        &&& status.is_decided()
        &&& status.round() > 0
        &&& status.round() >= last_decided.round
    } by {
        assert(sequence[k] == pending[k]);
        assert(pending[k] == statuses[through + k]);
        assert(pending[k].is_decided());
    }
}

/// A decided prefix without its first statuses is the decided prefix without them.
proof fn lemma_decided_prefix_of_rest(statuses: Seq<StatusView>, k: int)
    requires
        0 <= k <= decided_prefix(statuses).len(),
    ensures
        k <= statuses.len(),
        decided_prefix(statuses.skip(k)) == decided_prefix(statuses).skip(k),
    decreases k,
{
    if k == 0 {
        assert(statuses.skip(0) =~= statuses);
        assert(decided_prefix(statuses).skip(0) =~= decided_prefix(statuses));
    } else {
        let rest = statuses.drop_first();
        lemma_decided_prefix_of_rest(rest, k - 1);
        assert(statuses.skip(k) =~= rest.skip(k - 1));
        assert(decided_prefix(statuses).skip(k) =~= decided_prefix(rest).skip(k - 1));
    }
}

/// The sequence resumes where it was left: after any of its leaders, the rest of it is decided, as
/// long as the DAG stays the same.
pub proof fn law_sequence_resumes(
    committer: UniversalView,
    last_decided: BlockReference,
    k: int,
    next: BlockReference,
)
    requires
        distinct_leaders(committer),
        0 <= k < committer.sequence(last_decided).len(),
        next.authority == committer.sequence(last_decided)[k].authority(),
        next.round == committer.sequence(last_decided)[k].round(),
    ensures
        committer.sequence(next) == committer.sequence(last_decided).skip(k + 1),
{
    let first = if last_decided.round == 0 {
        1
    } else {
        last_decided.round as int
    };
    let statuses = committer.statuses(first, 0);
    let through = statuses_through(statuses, last_decided.authority, last_decided.round) as int;
    lemma_statuses_through(statuses, last_decided.authority, last_decided.round);
    let pending = statuses.skip(through);
    lemma_decided_prefix(pending);
    law_sequence_is_decided(committer, last_decided);
    assert(pending[k] == committer.sequence(last_decided)[k]);
    let position = through + k;
    assert(statuses[position] == pending[k]);

    lemma_later_round_is_suffix(committer, first, next.round as int);
    law_each_leader_has_one_status(committer, next.round as int, 0);
    let rest = committer.statuses(next.round as int, 0);
    let before = statuses.len() - rest.len();
    assert(rest[position - before] == statuses.skip(before)[position - before]);
    lemma_statuses_through(rest, next.authority, next.round);
    assert(statuses_through(rest, next.authority, next.round) == position - before + 1);
    assert(rest.skip(position - before + 1) =~= pending.skip(k + 1)) by {
        assert(statuses.skip(before).skip(position - before + 1) =~= statuses.skip(position + 1));
        assert(pending.skip(k + 1) =~= statuses.skip(position + 1));
    }
    lemma_decided_prefix_of_rest(pending, k + 1);
}

/// Commits are not repeated: once a sequence was decided, nothing is decided after its last leader
/// as long as the DAG stays the same.
pub proof fn law_commits_are_not_repeated(
    committer: UniversalView,
    last_decided: BlockReference,
    next: BlockReference,
)
    requires
        distinct_leaders(committer),
        committer.sequence(last_decided).len() > 0,
        next.authority == committer.sequence(last_decided).last().authority(),
        next.round == committer.sequence(last_decided).last().round(),
    ensures
        committer.sequence(next) == Seq::<StatusView>::empty(),
{
    let sequence = committer.sequence(last_decided);
    law_sequence_resumes(committer, last_decided, sequence.len() - 1, next);
    assert(sequence.skip(sequence.len() as int) =~= Seq::<StatusView>::empty());
}

/// The faults in the decision round of each leader are tolerated.
pub open spec fn faults_are_contained(committer: UniversalView) -> bool {
    forall|index: int, round: RoundNumber|
        0 <= index < committer.committers.len() && round <= highest_round(committer.blocks)
            && #[trigger] committer.committers[index].elect_leader(round) is Some
            ==> faults_are_tolerated(
            committer.committers[index],
            committer.committers[index].decision_round_of(round),
        )
}

/// The numbers of the rounds up to the highest one fit, and so do those that the leaders are
/// elected by.
pub open spec fn numbers_fit(committer: UniversalView) -> bool {
    forall|index: int, round: RoundNumber|
        0 <= index < committer.committers.len() && round <= highest_round(committer.blocks) ==> {
            &&& (#[trigger] committer.committers[index].wave_fits(round))
            &&& committer.committers[index].has_leader(round) ==> round
                + committer.committers[index].options.leader_offset <= RoundNumber::MAX
        }
}

/// As long as the faults are contained, every leader can be decided, however many blocks it
/// proposed.
pub proof fn law_leaders_can_be_decided(committer: UniversalView, first_round: RoundNumber)
    requires
        forall|i: int|
            0 <= i < committer.committers.len() ==> distinct_references(
                (#[trigger] committer.committers[i]).blocks,
            ),
        faults_are_contained(committer),
        numbers_fit(committer),
    ensures
        committer.decidable(first_round),
{
    assert forall|round: RoundNumber, index: int|
        first_round <= round <= highest_round(committer.blocks) && 0 <= index
            < committer.committers.len() implies #[trigger] committer.committers[index].decidable(
        round,
    ) by {
        let base = committer.committers[index];
        assert(base.wave_fits(round));
        if let Some(leader) = base.elect_leader(round) {
            assert(committer.committers[index].elect_leader(round) is Some);
            law_direct_rule_is_undisputed(base, leader, round);
        }
    }
}

/// The committers of a builder elect different leaders, as long as there are no more leaders in a
/// round than authorities.
pub proof fn law_built_committers_elect_different_leaders(
    stakes: Seq<Stake>,
    blocks: Seq<BlockView>,
    wave_length: u64,
    stages: int,
    leaders: int,
)
    requires
        0 <= stages <= wave_length,
        0 < leaders <= stakes.len(),
        leaders <= u64::MAX,
        highest_round(blocks) + leaders <= RoundNumber::MAX,
    ensures
        distinct_leaders(
            UniversalView {
                committers: layout(stakes, blocks, wave_length, stages, leaders),
                blocks,
            },
        ),
{
    let committers = layout(stakes, blocks, wave_length, stages, leaders);
    assert forall|round: RoundNumber, i: int, j: int|
        round <= highest_round(blocks) && 0 <= i < j < committers.len()
            && #[trigger] committers[i].elect_leader(round) is Some implies committers[i].elect_leader(
        round,
    ) != #[trigger] committers[j].elect_leader(round) by {
        lemma_offsets(stages, leaders, i);
        lemma_offsets(stages, leaders, j);
        if i / leaders != j / leaders {
            law_round_offsets_lead_different_rounds(committers[i], committers[j], round);
        } else if committers[j].elect_leader(round) is Some {
            lemma_fundamental_div_mod(i, leaders);
            lemma_fundamental_div_mod(j, leaders);
            lemma_small_mod((i % leaders) as nat, stakes.len());
            lemma_small_mod((j % leaders) as nat, stakes.len());
            law_leader_offsets_elect_different_leaders(committers[i], committers[j], round);
        }
    }
}

/// The position of a committer gives a leader offset and a round offset.
proof fn lemma_offsets(stages: int, leaders: int, k: int)
    requires
        0 < leaders,
        0 <= k < stages * leaders,
    ensures
        0 <= k % leaders < leaders,
        0 <= k / leaders < stages,
{
    lemma_mod_bound(k, leaders);
    lemma_fundamental_div_mod(k, leaders);
    let q = k / leaders;
    assert(0 <= q < stages) by (nonlinear_arith)
        requires
            0 <= k < stages * leaders,
            0 < leaders,
            k == leaders * q + k % leaders,
            0 <= k % leaders < leaders,
    ;
}

} // verus!
