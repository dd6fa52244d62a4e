//! What the sequence of decided leaders is made of.
//!
//! A slot is a round with a committer that elects a leader for it. The laws say which slots there
//! are, in which order they come, what is decided in each of them, and which of them are yielded.

use crate::base_committer::{CommitterView, MINIMUM_WAVE_LENGTH};
use crate::block_store::{distinct_references, highest_round};
use crate::dag_laws::law_highest_round_is_the_highest;
use crate::laws::{
    faults_are_tolerated, grows, law_anchors_reach_a_quorum, law_direct_commits_are_final,
    law_direct_skips_are_final, law_indirect_decisions_are_final, law_rules_agree,
    law_status_is_of_the_leader, lemma_old_is_there, votes_stay, well_connected,
};
use crate::rule_laws::{
    counts_from, first_that_counts, law_first_leader_that_counts_is_the_anchor,
    law_leaders_are_elected_after_their_wave, law_waves_have_three_stages,
    law_without_a_leader_that_counts_nothing_is_decided, lemma_some_first_that_counts,
};
use crate::sequence_laws::{
    distinct_leaders, faults_are_contained, law_each_leader_has_one_status, lemma_decided_prefix,
    lemma_statuses_through,
};
use crate::types::{AuthorityIndex, BlockReference, RoundNumber, StatusView};
use crate::universal_committer::{statuses_through, BuilderView, UniversalView};
use vstd::arithmetic::div_mod::lemma_fundamental_div_mod_converse;
use vstd::prelude::*;

verus! {

/// A round, and the position of a committer.
pub type Slot = (RoundNumber, int);

/// The committer elects a leader for the round.
pub open spec fn is_slot(committer: UniversalView, slot: Slot) -> bool {
    &&& 0 <= slot.1 < committer.committers.len()
    &&& slot.0 <= highest_round(committer.blocks)
    &&& committer.committers[slot.1].elect_leader(slot.0) is Some
}

/// Slots come in the order of their rounds, and within a round in the order of the committers.
pub open spec fn comes_before(a: Slot, b: Slot) -> bool {
    a.0 < b.0 || a.0 == b.0 && a.1 < b.1
}

/// What is decided of the leader of a slot, given the statuses of the slots after position `k`: what
/// the direct rule decides, if it decides. Otherwise it is decided by the first of the later
/// leaders, in their order, that leads a round at least one wave later and is not skipped: if that
/// one is committed, its block decides as anchor. If it is not, or if there is none, the leader is
/// undecided.
pub open spec fn is_decided_by_the_rules(
    base: CommitterView,
    leader: AuthorityIndex,
    round: RoundNumber,
    statuses: Seq<StatusView>,
    k: int,
) -> bool {
    let direct = base.direct_status(leader, round);
    let bound = round + base.options.wave_length;
    if direct is Undecided {
        &&& forall|at: int| #[trigger]
            first_that_counts(statuses, k + 1, at, bound) ==> match statuses[at] {
                StatusView::Commit(anchor) => statuses[k] == base.status_from_anchor(
                    anchor,
                    leader,
                    round,
                ),
                _ => statuses[k] == StatusView::Undecided(leader, round),
            }
        &&& (forall|i: int| k < i < statuses.len() ==> !counts_from(#[trigger] statuses[i], bound))
            ==> statuses[k] == StatusView::Undecided(leader, round)
    } else {
        statuses[k] == direct
    }
}

/// The statuses are those of the slots: one for each slot, in the order of the slots.
pub open spec fn are_of_the_slots(
    committer: UniversalView,
    start: (int, int),
    statuses: Seq<StatusView>,
    slots: Seq<Slot>,
) -> bool {
    &&& slots.len() == statuses.len()
    &&& forall|j: int, k: int|
        0 <= j < k < slots.len() ==> comes_before(#[trigger] slots[j], #[trigger] slots[k])
    &&& forall|slot: Slot| #[trigger]
        slots.contains(slot) <==> is_slot(committer, slot) && (slot.0 > start.0 || slot.0 == start.0
            && slot.1 >= start.1)
}

/// The leader of a slot.
pub open spec fn leader_of(committer: UniversalView, slot: Slot) -> AuthorityIndex {
    committer.committers[slot.1].elect_leader(slot.0)->0
}

/// There is one status for each slot from a round and a committer on, in the order of the slots. It
/// is that of the leader of the slot, and it is decided by the rules from the statuses after it.
pub proof fn law_every_slot_is_decided_by_the_rules(
    committer: UniversalView,
    round: int,
    index: int,
) -> (slots: Seq<Slot>)
    requires
        0 <= round,
        0 <= index <= committer.committers.len(),
    ensures
        are_of_the_slots(committer, (round, index), committer.statuses(round, index), slots),
        forall|k: int|
            #![trigger slots[k]]
            0 <= k < slots.len() ==> {
                let leader = leader_of(committer, slots[k]);
                let statuses = committer.statuses(round, index);
                &&& statuses[k].authority() == leader
                &&& statuses[k].round() == slots[k].0
                &&& is_decided_by_the_rules(
                    committer.committers[slots[k].1],
                    leader,
                    slots[k].0,
                    statuses,
                    k,
                )
            },
    decreases highest_round(committer.blocks) + 1 - round, committer.committers.len() - index,
{
    let statuses = committer.statuses(round, index);
    if round > highest_round(committer.blocks) {
        Seq::<Slot>::empty()
    } else if index >= committer.committers.len() {
        law_every_slot_is_decided_by_the_rules(committer, round + 1, 0)
    } else {
        let later = committer.statuses(round, index + 1);
        let rest = law_every_slot_is_decided_by_the_rules(committer, round, index + 1);
        let base = committer.committers[index];
        let number = round as RoundNumber;
        match base.elect_leader(number) {
            None => {
                assert forall|slot: Slot| #[trigger]
                    rest.contains(slot) <==> is_slot(committer, slot) && (slot.0 > round || slot.0
                        == round && slot.1 >= index) by {
                    if slot.0 == round && slot.1 == index {
                        assert(slot == (number, index));
                    }
                }
                rest
            },
            Some(leader) => {
                let slot = (number, index);
                let slots = seq![slot] + rest;
                law_status_is_of_the_leader(base, leader, number, later);
                assert forall|j: int, k: int| 0 <= j < k < slots.len() implies comes_before(
                    #[trigger] slots[j],
                    #[trigger] slots[k],
                ) by {
                    assert(slots[k] == rest[k - 1]);
                    assert(rest.contains(rest[k - 1]));
                    if j > 0 {
                        assert(slots[j] == rest[j - 1]);
                    }
                }
                assert forall|s: Slot| #[trigger]
                    slots.contains(s) <==> is_slot(committer, s) && (s.0 > round || s.0 == round
                        && s.1 >= index) by {
                    if slots.contains(s) {
                        let k = choose|k: int| 0 <= k < slots.len() && slots[k] == s;
                        if k > 0 {
                            assert(rest[k - 1] == s);
                            assert(rest.contains(s));
                        }
                    }
                    if is_slot(committer, s) && (s.0 > round || s.0 == round && s.1 >= index) {
                        if s.0 == round && s.1 == index {
                            assert(slots[0] == s);
                        } else {
                            assert(rest.contains(s));
                            let k = choose|k: int| 0 <= k < rest.len() && rest[k] == s;
                            assert(slots[k + 1] == s);
                        }
                    }
                }
                assert forall|k: int|
                    #![trigger slots[k]]
                    0 <= k < slots.len() implies {
                    let leader = leader_of(committer, slots[k]);
                    &&& statuses[k].authority() == leader
                    &&& statuses[k].round() == slots[k].0
                    &&& is_decided_by_the_rules(
                        committer.committers[slots[k].1],
                        leader,
                        slots[k].0,
                        statuses,
                        k,
                    )
                } by {
                    if k == 0 {
                        lemma_head_is_decided_by_the_rules(base, leader, number, later);
                        assert(statuses =~= seq![base.status(leader, number, later)] + later);
                    } else {
                        assert(slots[k] == rest[k - 1]);
                        assert(statuses[k] == later[k - 1]);
                        assert(statuses =~= seq![statuses[0]] + later);
                        lemma_tail_is_decided_by_the_rules(
                            committer.committers[slots[k].1],
                            leader_of(committer, slots[k]),
                            slots[k].0,
                            statuses[0],
                            later,
                            k - 1,
                        );
                    }
                }
                slots
            },
        }
    }
}

/// The first that counts, with one more status in front.
proof fn lemma_first_that_counts_shifts(
    head: StatusView,
    later: Seq<StatusView>,
    start: int,
    at: int,
    bound: int,
)
    requires
        0 <= start,
    ensures
        first_that_counts(seq![head] + later, start + 1, at + 1, bound) == first_that_counts(
            later,
            start,
            at,
            bound,
        ),
{
    let all = seq![head] + later;
    assert forall|i: int| 0 <= i < later.len() implies all[i + 1] == #[trigger] later[i] by {}
    if first_that_counts(all, start + 1, at + 1, bound) {
        assert(all[at + 1] == later[at]);
        assert forall|i: int| start <= i < at implies !counts_from(#[trigger] later[i], bound) by {
            assert(!counts_from(all[i + 1], bound));
        }
    }
    if first_that_counts(later, start, at, bound) {
        assert(all[at + 1] == later[at]);
        assert forall|i: int| start + 1 <= i < at + 1 implies !counts_from(
            #[trigger] all[i],
            bound,
        ) by {
            assert(all[i] == later[i - 1]);
        }
    }
}

proof fn lemma_head_is_decided_by_the_rules(
    base: CommitterView,
    leader: AuthorityIndex,
    round: RoundNumber,
    later: Seq<StatusView>,
)
    ensures
        is_decided_by_the_rules(
            base,
            leader,
            round,
            seq![base.status(leader, round, later)] + later,
            0,
        ),
{
    let head = base.status(leader, round, later);
    let all = seq![head] + later;
    let bound = round + base.options.wave_length;
    if base.direct_status(leader, round) is Undecided {
        assert forall|at: int| #[trigger] first_that_counts(all, 1, at, bound) implies match all[at] {
            StatusView::Commit(anchor) => all[0] == base.status_from_anchor(anchor, leader, round),
            _ => all[0] == StatusView::Undecided(leader, round),
        } by {
            lemma_first_that_counts_shifts(head, later, 0, at - 1, bound);
            law_first_leader_that_counts_is_the_anchor(base, leader, round, later, at - 1);
            assert(all[at] == later[at - 1]);
        }
        if forall|i: int| 0 < i < all.len() ==> !counts_from(#[trigger] all[i], bound) {
            assert forall|i: int| 0 <= i < later.len() implies !counts_from(
                #[trigger] later[i],
                bound,
            ) by {
                assert(all[i + 1] == later[i]);
            }
            law_without_a_leader_that_counts_nothing_is_decided(base, leader, round, later);
        }
    }
}

proof fn lemma_tail_is_decided_by_the_rules(
    base: CommitterView,
    leader: AuthorityIndex,
    round: RoundNumber,
    head: StatusView,
    later: Seq<StatusView>,
    k: int,
)
    requires
        0 <= k < later.len(),
        is_decided_by_the_rules(base, leader, round, later, k),
    ensures
        is_decided_by_the_rules(base, leader, round, seq![head] + later, k + 1),
{
    let all = seq![head] + later;
    let bound = round + base.options.wave_length;
    let next = k + 1;
    assert(all[next] == later[k]);
    if base.direct_status(leader, round) is Undecided {
        assert forall|at: int| #[trigger]
            first_that_counts(all, next + 1, at, bound) implies match all[at] {
            StatusView::Commit(anchor) => all[next] == base.status_from_anchor(
                anchor,
                leader,
                round,
            ),
            _ => all[next] == StatusView::Undecided(leader, round),
        } by {
            lemma_first_that_counts_shifts(head, later, next, at - 1, bound);
            assert(all[at] == later[at - 1]);
        }
        if forall|i: int| next < i < all.len() ==> !counts_from(#[trigger] all[i], bound) {
            assert forall|i: int| k < i < later.len() implies !counts_from(
                #[trigger] later[i],
                bound,
            ) by {
                assert(all[i + 1] == later[i]);
            }
        }
    }
}

/// The sequence is cut out of the statuses of the rounds from that of the last decided leader on,
/// without the genesis round. It starts after the last decided leader, or with the first status
/// where that leader has none. It goes on as long as the leaders are decided: it stops at the first
/// undecided one, or at the end.
pub proof fn law_sequence_is_cut_out_of_the_statuses(
    committer: UniversalView,
    last_decided: BlockReference,
    first_round: int,
) -> (cut: (int, int))
    requires
        first_round == if last_decided.round == 0 {
            1
        } else {
            last_decided.round as int
        },
    ensures
        ({
            let statuses = committer.statuses(first_round, 0);
            let (start, end) = cut;
            &&& 0 <= start <= end <= statuses.len()
            &&& committer.sequence(last_decided) == statuses.subrange(start, end)
            &&& start > 0 ==> statuses[start - 1].authority() == last_decided.authority
                && statuses[start - 1].round() == last_decided.round
            &&& forall|k: int|
                start <= k < statuses.len() ==> !((#[trigger] statuses[k]).authority()
                    == last_decided.authority && statuses[k].round() == last_decided.round)
            &&& forall|k: int| start <= k < end ==> !(#[trigger] statuses[k] is Undecided)
            &&& end < statuses.len() ==> statuses[end] is Undecided
        }),
{
    let statuses = committer.statuses(first_round, 0);
    let start = statuses_through(statuses, last_decided.authority, last_decided.round) as int;
    lemma_statuses_through(statuses, last_decided.authority, last_decided.round);
    let pending = statuses.skip(start);
    lemma_decided_prefix(pending);
    let sequence = committer.sequence(last_decided);
    let end = start + sequence.len();
    assert(sequence =~= statuses.subrange(start, end));
    assert forall|k: int| start <= k < end implies !(#[trigger] statuses[k] is Undecided) by {
        assert(pending[k - start] == statuses[k]);
        assert(pending[k - start].is_decided());
    }
    if end < statuses.len() {
        assert(pending[sequence.len() as int] == statuses[end]);
    }
    (start, end)
}

/// A builder builds as many committers as there are leaders, times the rounds of a wave in a
/// pipeline.
pub proof fn law_builders_build_for_all_leaders(builder: BuilderView)
    ensures
        builder.pipeline ==> builder.committers().len() == builder.wave_length
            * builder.number_of_leaders,
        !builder.pipeline ==> builder.committers().len() == builder.number_of_leaders,
{
    assert(builder.wave_length * builder.number_of_leaders >= 0) by (nonlinear_arith);
}

/// A builder builds one committer for each round offset below the wave length, or for none but 0
/// without a pipeline, and for each leader offset below the number of leaders. They come by round
/// offset, and within it by leader offset. All work on the stakes and the blocks of the builder.
pub proof fn law_builders_build_one_committer_per_offset(
    builder: BuilderView,
    stage: int,
    leader: int,
)
    requires
        0 <= stage < (if builder.pipeline {
            builder.wave_length as int
        } else {
            1
        }),
        0 <= leader < builder.number_of_leaders,
    ensures
        ({
            let committer = builder.committers()[stage * builder.number_of_leaders + leader];
            &&& stage * builder.number_of_leaders + leader < builder.committers().len()
            &&& committer.stakes == builder.stakes
            &&& committer.blocks == builder.blocks
            &&& committer.options.wave_length == builder.wave_length
            &&& committer.options.round_offset == stage
            &&& committer.options.leader_offset == leader
        }),
{
    let leaders = builder.number_of_leaders as int;
    let stages = builder.stages();
    let k = stage * leaders + leader;
    assert(0 <= k < stages * leaders) by (nonlinear_arith)
        requires
            k == stage * leaders + leader,
            0 <= stage < stages,
            0 <= leader < leaders,
    ;
    lemma_fundamental_div_mod_converse(k, leaders, stage, leader);
}

/// The committers of `after` are those of `before`, on a DAG that has all the blocks of the other
/// one and more. The waves are of one length. Each block after the genesis includes blocks of a
/// quorum of the preceding round.
pub open spec fn extends(before: UniversalView, after: UniversalView, wave_length: int) -> bool {
    &&& wave_length >= MINIMUM_WAVE_LENGTH
    &&& distinct_references(before.blocks)
    &&& forall|i: int|
        0 <= i < before.blocks.len() ==> after.blocks.contains(#[trigger] before.blocks[i])
    &&& before.committers.len() == after.committers.len()
    &&& forall|i: int|
        #![trigger before.committers[i]]
        #![trigger after.committers[i]]
        0 <= i < before.committers.len() ==> {
            &&& grows(before.committers[i], after.committers[i])
            &&& before.committers[i].blocks == before.blocks
            &&& after.committers[i].blocks == after.blocks
            &&& before.committers[i].options.wave_length == wave_length
            &&& well_connected(after.committers[i])
        }
}

/// The votes for each leader that is elected in `before` stay for what they were for.
pub open spec fn all_votes_stay(before: UniversalView, after: UniversalView) -> bool {
    forall|i: int, round: RoundNumber|
        0 <= i < before.committers.len() && round <= highest_round(before.blocks)
            && #[trigger] before.committers[i].elect_leader(round) is Some ==> votes_stay(
            before.committers[i],
            after.committers[i],
            before.committers[i].elect_leader(round)->0,
            round,
        )
}

proof fn lemma_highest_round_grows(before: UniversalView, after: UniversalView, wave_length: int)
    requires
        extends(before, after, wave_length),
    ensures
        highest_round(before.blocks) <= highest_round(after.blocks),
{
    law_highest_round_is_the_highest(before.blocks);
    law_highest_round_is_the_highest(after.blocks);
    if before.blocks.len() > 0 {
        let i = choose|i: int|
            0 <= i < before.blocks.len() && #[trigger] before.blocks[i].reference.round
                == highest_round(before.blocks);
        assert(after.blocks.contains(before.blocks[i]));
        let j = choose|j: int|
            0 <= j < after.blocks.len() && after.blocks[j] == before.blocks[i];
        assert(after.blocks[j].reference.round <= highest_round(after.blocks));
    }
}

/// From a round on whose wave is not complete there are no slots.
proof fn lemma_no_slots_before_the_wave_is_complete(
    before: UniversalView,
    after: UniversalView,
    wave_length: int,
    round: int,
    index: int,
)
    requires
        extends(before, after, wave_length),
        0 <= round,
        0 <= index <= before.committers.len(),
        round + wave_length - 1 > highest_round(before.blocks),
    ensures
        before.statuses(round, index) == Seq::<StatusView>::empty(),
    decreases highest_round(before.blocks) + 1 - round, before.committers.len() - index,
{
    if round > highest_round(before.blocks) {
    } else if index >= before.committers.len() {
        lemma_no_slots_before_the_wave_is_complete(before, after, wave_length, round + 1, 0);
    } else {
        lemma_no_slots_before_the_wave_is_complete(
            before,
            after,
            wave_length,
            round,
            index + 1,
        );
        assert(before.committers[index].elect_leader(round as RoundNumber) is None);
    }
}

/// A committed status is of a block of the DAG.
proof fn lemma_commits_are_of_the_dag(
    before: UniversalView,
    after: UniversalView,
    wave_length: int,
    round: int,
    index: int,
)
    requires
        extends(before, after, wave_length),
        0 <= round,
        0 <= index <= before.committers.len(),
    ensures
        forall|k: int|
            0 <= k < before.statuses(round, index).len() ==> (#[trigger] before.statuses(
                round,
                index,
            )[k] matches StatusView::Commit(block) ==> before.blocks.contains(block)),
    decreases highest_round(before.blocks) + 1 - round, before.committers.len() - index,
{
    if round > highest_round(before.blocks) {
    } else if index >= before.committers.len() {
        lemma_commits_are_of_the_dag(before, after, wave_length, round + 1, 0);
    } else {
        lemma_commits_are_of_the_dag(before, after, wave_length, round, index + 1);
        let later = before.statuses(round, index + 1);
        let all = before.statuses(round, index);
        let base = before.committers[index];
        if let Some(leader) = base.elect_leader(round as RoundNumber) {
            law_status_is_of_the_leader(base, leader, round as RoundNumber, later);
            assert forall|k: int| 0 <= k < all.len() implies (#[trigger] all[k] matches StatusView::Commit(
                block,
            ) ==> before.blocks.contains(block)) by {
                if k > 0 {
                    assert(all[k] == later[k - 1]);
                }
            }
        }
    }
}

/// One leader: what was decided stays, if the later leaders that were decided stay.
proof fn lemma_decision_stays(
    before: CommitterView,
    after: CommitterView,
    leader: AuthorityIndex,
    round: RoundNumber,
    old_later: Seq<StatusView>,
    later: Seq<StatusView>,
)
    requires
        before.options.wave_length >= MINIMUM_WAVE_LENGTH,
        grows(before, after),
        distinct_references(before.blocks),
        well_connected(after),
        before.elect_leader(round) == Some(leader),
        faults_are_tolerated(after, after.decision_round_of(round)),
        votes_stay(before, after, leader, round),
        old_later.len() <= later.len(),
        forall|k: int|
            #![trigger old_later[k]]
            #![trigger later[k]]
            0 <= k < old_later.len() ==> {
                &&& later[k].round() == old_later[k].round()
                &&& old_later[k].is_decided() ==> later[k] == old_later[k]
                &&& old_later[k] matches StatusView::Commit(block) ==> before.blocks.contains(block)
            },
        before.status(leader, round, old_later).is_decided(),
    ensures
        after.status(leader, round, later) == before.status(leader, round, old_later),
{
    let direct = before.direct_status(leader, round);
    if direct is Skip {
        law_direct_skips_are_final(before, after, leader, round);
    } else if direct is Commit {
        law_direct_commits_are_final(before, after, leader, round);
    } else {
        let bound = round + before.options.wave_length;
        if forall|i: int| 0 <= i < old_later.len() ==> !counts_from(#[trigger] old_later[i], bound) {
            law_without_a_leader_that_counts_nothing_is_decided(before, leader, round, old_later);
        }
        let at = lemma_some_first_that_counts(old_later, 0, bound);
        law_first_leader_that_counts_is_the_anchor(before, leader, round, old_later, at);
        assert(old_later[at] is Commit);
        let anchor = old_later[at]->Commit_0;
        assert(later[at] == old_later[at]);
        assert forall|i: int| 0 <= i < at implies !counts_from(#[trigger] later[i], bound) by {
            assert(!counts_from(old_later[i], bound));
        }
        law_first_leader_that_counts_is_the_anchor(after, leader, round, later, at);
        law_indirect_decisions_are_final(before, after, anchor, leader, round);
        if after.direct_status(leader, round).is_decided() {
            law_leaders_are_elected_after_their_wave(before, round);
            law_waves_have_three_stages(before, round, round);
            lemma_old_is_there(before, after, anchor);
            law_anchors_reach_a_quorum(after, anchor, after.decision_round_of(round));
            law_rules_agree(after, anchor, leader, round);
        }
    }
}

/// What is decided is final: every leader that is decided in a DAG is decided in the same way in
/// every DAG that has more, as long as the faults are contained and the votes stay for what they
/// were for. The leaders keep their places.
pub proof fn law_decided_leaders_stay(
    before: UniversalView,
    after: UniversalView,
    wave_length: int,
    round: int,
    index: int,
)
    requires
        extends(before, after, wave_length),
        faults_are_contained(after),
        all_votes_stay(before, after),
        0 <= round,
        0 <= index <= before.committers.len(),
    ensures
        before.statuses(round, index).len() <= after.statuses(round, index).len(),
        forall|k: int|
            #![trigger before.statuses(round, index)[k]]
            #![trigger after.statuses(round, index)[k]]
            0 <= k < before.statuses(round, index).len() ==> {
                let old = before.statuses(round, index)[k];
                let new = after.statuses(round, index)[k];
                &&& new.round() == old.round()
                &&& new.authority() == old.authority()
                &&& old.is_decided() ==> new == old
            },
    decreases highest_round(before.blocks) + 1 - round, before.committers.len() - index,
{
    lemma_highest_round_grows(before, after, wave_length);
    if round > highest_round(before.blocks) {
    } else if index >= before.committers.len() {
        law_decided_leaders_stay(before, after, wave_length, round + 1, 0);
    } else if round + wave_length - 1 > highest_round(before.blocks) {
        lemma_no_slots_before_the_wave_is_complete(before, after, wave_length, round, index);
    } else {
        law_decided_leaders_stay(before, after, wave_length, round, index + 1);
        lemma_commits_are_of_the_dag(before, after, wave_length, round, index + 1);
        let number = round as RoundNumber;
        let old_base = before.committers[index];
        let base = after.committers[index];
        let old_later = before.statuses(round, index + 1);
        let later = after.statuses(round, index + 1);
        let old_all = before.statuses(round, index);
        let all = after.statuses(round, index);
        assert(old_base.elect_leader(number) == base.elect_leader(number));
        match old_base.elect_leader(number) {
            None => {
                assert(old_all =~= old_later);
                assert(all =~= later);
            },
            Some(leader) => {
                assert(before.committers[index].elect_leader(number) is Some);
                assert(after.committers[index].elect_leader(number) is Some);
                law_status_is_of_the_leader(old_base, leader, number, old_later);
                law_status_is_of_the_leader(base, leader, number, later);
                if old_base.status(leader, number, old_later).is_decided() {
                    lemma_decision_stays(old_base, base, leader, number, old_later, later);
                }
                assert forall|k: int|
                    #![trigger old_all[k]]
                    #![trigger all[k]]
                    0 <= k < old_all.len() implies {
                    &&& all[k].round() == old_all[k].round()
                    &&& all[k].authority() == old_all[k].authority()
                    &&& old_all[k].is_decided() ==> all[k] == old_all[k]
                } by {
                    if k > 0 {
                        assert(old_all[k] == old_later[k - 1]);
                        assert(all[k] == later[k - 1]);
                    }
                }
            },
        }
    }
}

/// The sequence only grows: what was yielded after a leader is yielded again, in the same order and
/// before anything else, when the DAG has more. The leader is that of a slot, or a genesis block.
pub proof fn law_sequence_only_grows(
    before: UniversalView,
    after: UniversalView,
    wave_length: int,
    last_decided: BlockReference,
    index: int,
)
    requires
        extends(before, after, wave_length),
        faults_are_contained(after),
        all_votes_stay(before, after),
        distinct_leaders(after),
        last_decided.round == 0 || {
            &&& is_slot(before, (last_decided.round, index))
            &&& leader_of(before, (last_decided.round, index)) == last_decided.authority
        },
    ensures
        before.sequence(last_decided).is_prefix_of(after.sequence(last_decided)),
{
    let first = if last_decided.round == 0 {
        1
    } else {
        last_decided.round as int
    };
    let old_statuses = before.statuses(first, 0);
    let statuses = after.statuses(first, 0);
    law_decided_leaders_stay(before, after, wave_length, first, 0);
    law_each_leader_has_one_status(after, first, 0);
    let (old_start, old_end) = law_sequence_is_cut_out_of_the_statuses(
        before,
        last_decided,
        first,
    );
    let (start, end) = law_sequence_is_cut_out_of_the_statuses(after, last_decided, first);
    let old_slots = law_every_slot_is_decided_by_the_rules(before, first, 0);
    let slots = law_every_slot_is_decided_by_the_rules(after, first, 0);
    assert(start == old_start) by {
        if last_decided.round == 0 {
            if start > 0 {
                assert(slots.contains(slots[start - 1]));
            }
            if old_start > 0 {
                assert(old_slots.contains(old_slots[old_start - 1]));
            }
        } else {
            assert(old_slots.contains((last_decided.round, index)));
            let k = choose|k: int|
                0 <= k < old_slots.len() && old_slots[k] == (last_decided.round, index);
            assert(old_statuses[k].authority() == last_decided.authority);
            assert(statuses[k].authority() == last_decided.authority);
            assert(k < old_start && k < start);
            assert(old_statuses[old_start - 1].authority() == last_decided.authority);
            assert(statuses[old_start - 1].round() == last_decided.round);
            assert(statuses[start - 1].round() == last_decided.round);
        }
    }
    assert(old_end <= end) by {
        if end < old_end {
            assert(!(old_statuses[end] is Undecided));
            assert(statuses[end] == old_statuses[end]);
        }
    }
    assert forall|k: int| 0 <= k < old_end - old_start implies before.sequence(last_decided)[k]
        == after.sequence(last_decided)[k] by {
        assert(!(old_statuses[old_start + k] is Undecided));
        assert(statuses[old_start + k] == old_statuses[old_start + k]);
    }
    assert(before.sequence(last_decided) =~= after.sequence(last_decided).subrange(
        0,
        before.sequence(last_decided).len() as int,
    ));
}

/// Those who know different parts of a DAG do not disagree: of the sequences that they yield after
/// the same leader, one starts with the other.
pub proof fn law_sequences_do_not_diverge(
    one: UniversalView,
    other: UniversalView,
    all: UniversalView,
    wave_length: int,
    last_decided: BlockReference,
    index: int,
)
    requires
        extends(one, all, wave_length),
        extends(other, all, wave_length),
        faults_are_contained(all),
        all_votes_stay(one, all),
        all_votes_stay(other, all),
        distinct_leaders(all),
        last_decided.round == 0 || {
            &&& is_slot(one, (last_decided.round, index))
            &&& leader_of(one, (last_decided.round, index)) == last_decided.authority
            &&& is_slot(other, (last_decided.round, index))
            &&& leader_of(other, (last_decided.round, index)) == last_decided.authority
        },
    ensures
        one.sequence(last_decided).is_prefix_of(other.sequence(last_decided)) || other.sequence(
            last_decided,
        ).is_prefix_of(one.sequence(last_decided)),
{
    law_sequence_only_grows(one, all, wave_length, last_decided, index);
    law_sequence_only_grows(other, all, wave_length, last_decided, index);
    let a = one.sequence(last_decided);
    let b = other.sequence(last_decided);
    let c = all.sequence(last_decided);
    if a.len() <= b.len() {
        assert(a =~= b.subrange(0, a.len() as int)) by {
            assert forall|k: int| 0 <= k < a.len() implies a[k] == b[k] by {
                assert(a[k] == c.subrange(0, a.len() as int)[k]);
                assert(b[k] == c.subrange(0, b.len() as int)[k]);
            }
        }
    } else {
        assert(b =~= a.subrange(0, b.len() as int)) by {
            assert forall|k: int| 0 <= k < b.len() implies a[k] == b[k] by {
                assert(a[k] == c.subrange(0, a.len() as int)[k]);
                assert(b[k] == c.subrange(0, b.len() as int)[k]);
            }
        }
    }
}

} // verus!
