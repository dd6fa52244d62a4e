//! The committer of the whole DAG: several [`BaseCommitter`]s that take the rounds, and the
//! leaders of a round, among themselves.

use std::sync::Arc;

use crate::base_committer::{
    status_views, BaseCommitter, BaseCommitterOptions, CommitterView, DEFAULT_WAVE_LENGTH,
    MINIMUM_WAVE_LENGTH,
};
use crate::block_store::{distinct_references, highest_round, BlockStore};
use crate::committee::{total_stake, Committee};
use crate::types::{
    AuthorityIndex, BlockReference, BlockView, LeaderStatus, RoundNumber, Stake, StatusView,
};
use vstd::prelude::*;

verus! {

/// What each of several statuses says.
pub open spec fn outcomes(leaders: Seq<LeaderStatus>) -> Seq<StatusView> {
    Seq::new(leaders.len(), |i: int| leaders[i]@)
}

/// The number of statuses up to that of the given leader, which counts too. It is 0 if there is
/// none for that leader.
pub open spec fn statuses_through(
    statuses: Seq<StatusView>,
    authority: AuthorityIndex,
    round: RoundNumber,
) -> nat
    decreases statuses.len(),
{
    if statuses.len() == 0 {
        0
    } else if statuses.last().authority() == authority && statuses.last().round() == round {
        statuses.len()
    } else {
        statuses_through(statuses.drop_last(), authority, round)
    }
}

/// The statuses up to the first undecided one.
pub open spec fn decided_prefix(statuses: Seq<StatusView>) -> Seq<StatusView>
    decreases statuses.len(),
{
    if statuses.len() == 0 || !statuses[0].is_decided() {
        Seq::empty()
    } else {
        seq![statuses[0]] + decided_prefix(statuses.drop_first())
    }
}

impl CommitterView {
    /// What the two rules say of a leader: the direct rule, and the indirect rule where the direct
    /// one leaves it undecided.
    pub open spec fn status(
        self,
        leader: AuthorityIndex,
        round: RoundNumber,
        later: Seq<StatusView>,
    ) -> StatusView {
        let direct = self.direct_status(leader, round);
        if direct.is_decided() {
            direct
        } else {
            self.indirect_status(leader, round, later)
        }
    }

    /// The leader of `round` can be elected and decided: the numbers of the wave fit, and the
    /// direct rule does not find more than one block to commit.
    pub open spec fn decidable(self, round: RoundNumber) -> bool {
        &&& self.wave_fits(round)
        &&& self.has_leader(round) ==> round + self.options.leader_offset <= RoundNumber::MAX
        &&& self.elect_leader(round) matches Some(leader) ==> self.directly_undisputed(
            leader,
            round,
        )
    }
}

/// What a [`UniversalCommitter`] works on: its committers, and the blocks of the DAG.
pub struct UniversalView {
    pub committers: Seq<CommitterView>,
    pub blocks: Seq<BlockView>,
}

impl UniversalView {
    /// The status of each leader of the DAG from the committer `index` in `round` on, in the order
    /// of the rounds, and within a round in the order of the committers.
    pub open spec fn statuses(self, round: int, index: int) -> Seq<StatusView>
        decreases highest_round(self.blocks) + 1 - round, self.committers.len() - index,
    {
        if round > highest_round(self.blocks) {
            Seq::empty()
        } else if index >= self.committers.len() {
            self.statuses(round + 1, 0)
        } else {
            let later = self.statuses(round, index + 1);
            let committer = self.committers[index];
            match committer.elect_leader(round as RoundNumber) {
                Some(leader) => seq![committer.status(leader, round as RoundNumber, later)] + later,
                None => later,
            }
        }
    }

    /// Each leader of the DAG from `first_round` on can be decided.
    pub open spec fn decidable(self, first_round: RoundNumber) -> bool {
        forall|round: RoundNumber, index: int|
            first_round <= round <= highest_round(self.blocks) && 0 <= index
                < self.committers.len() ==> #[trigger] self.committers[index].decidable(round)
    }

    /// The status of each leader from the round of `last_decided` on. The genesis blocks are not
    /// up for decision.
    pub open spec fn statuses_from(self, last_decided: BlockReference) -> Seq<StatusView> {
        self.statuses(
            if last_decided.round == 0 {
                1
            } else {
                last_decided.round as int
            },
            0,
        )
    }

    /// The leaders that can be decided after `last_decided`: those after it, up to the first that
    /// is undecided.
    pub open spec fn sequence(self, last_decided: BlockReference) -> Seq<StatusView> {
        let statuses = self.statuses_from(last_decided);
        decided_prefix(
            statuses.skip(
                statuses_through(statuses, last_decided.authority, last_decided.round) as int,
            ),
        )
    }
}

/// A universal committer uses a collection of committers to commit a sequence of leaders. It can
/// be configured to use a combination of different commit strategies, including multi-leaders and
/// pipelines.
#[derive(Debug)]
pub struct UniversalCommitter {
    committers: Vec<BaseCommitter>,
    block_store: BlockStore,
}

impl View for UniversalCommitter {
    type V = UniversalView;

    closed spec fn view(&self) -> UniversalView {
        UniversalView {
            committers: Seq::new(self.committers.len() as nat, |i: int| self.committers[i]@),
            blocks: self.block_store@,
        }
    }
}

impl UniversalCommitter {
    /// The store and the committers are well formed, and the committers work on the store.
    pub closed spec fn wf(&self) -> bool {
        &&& self.block_store.wf()
        &&& forall|i: int|
            0 <= i < self.committers.len() ==> (#[trigger] self.committers[i]).wf()
                && self.committers[i]@.blocks == self.block_store@
    }

    /// What a well formed universal committer gives.
    pub proof fn lemma_wf(&self)
        requires
            self.wf(),
        ensures
            distinct_references(self@.blocks),
            forall|i: int|
                0 <= i < self@.committers.len() ==> {
                    let committer = #[trigger] self@.committers[i];
                    &&& committer.blocks == self@.blocks
                    &&& 0 < committer.stakes.len() <= usize::MAX
                    &&& total_stake(committer.stakes) <= Stake::MAX
                    &&& committer.options.wave_length >= MINIMUM_WAVE_LENGTH
                },
    {
        self.block_store.lemma_wf();
        assert forall|i: int| 0 <= i < self@.committers.len() implies {
            let committer = #[trigger] self@.committers[i];
            &&& committer.blocks == self@.blocks
            &&& 0 < committer.stakes.len() <= usize::MAX
            &&& total_stake(committer.stakes) <= Stake::MAX
            &&& committer.options.wave_length >= MINIMUM_WAVE_LENGTH
        } by {
            assert(self.committers[i].wf());
            self.committers[i].lemma_wf();
        }
    }

    /// Try to commit part of the dag. This function is idempotent and returns a list of
    /// ordered decided leaders.
    pub fn try_commit(&self, last_decided: BlockReference) -> (sequence: Vec<LeaderStatus>)
        requires
            self.wf(),
            self@.decidable(
                if last_decided.round == 0 {
                    1
                } else {
                    last_decided.round
                },
            ),
        ensures
            outcomes(sequence@) == self@.sequence(last_decided),
    {
        let first_round: RoundNumber = if last_decided.round == 0 {
            1
        } else {
            last_decided.round
        };
        let leaders: Vec<LeaderStatus> = self.decide_all(first_round);
        let ghost statuses = outcomes(leaders@);
        let mut settled: usize = 0;
        let mut i: usize = 0;
        while i < leaders.len()
            invariant
                settled <= i <= leaders.len(),
                statuses == outcomes(leaders@),
                settled == statuses_through(
                    statuses.take(i as int),
                    last_decided.authority,
                    last_decided.round,
                ),
            decreases leaders.len() - i,
        {
            assert(statuses.take(i + 1).drop_last() =~= statuses.take(i as int));
            i += 1;
            if leaders[i - 1].authority() == last_decided.authority && leaders[i - 1].round()
                == last_decided.round {
                settled = i;
            }
        }
        assert(statuses.take(i as int) =~= statuses);
        // The decided sequence is the longest prefix of decided leaders.
        let ghost pending = statuses.skip(settled as int);
        let mut sequence: Vec<LeaderStatus> = Vec::new();
        i = settled;
        assert(pending.skip(0) =~= pending);
        assert(outcomes(sequence@) + decided_prefix(pending) =~= decided_prefix(pending));
        while i < leaders.len() && leaders[i].is_decided()
            invariant
                settled <= i <= leaders.len(),
                statuses == outcomes(leaders@),
                pending == statuses.skip(settled as int),
                outcomes(sequence@) + decided_prefix(pending.skip(i - settled)) == decided_prefix(
                    pending,
                ),
            decreases leaders.len() - i,
        {
            let ghost before = outcomes(sequence@);
            sequence.push(leaders[i].clone());
            proof {
                let rest = pending.skip(i - settled);
                assert(rest[0] == leaders[i as int]@);
                assert(rest.drop_first() =~= pending.skip(i + 1 - settled));
                assert(outcomes(sequence@) =~= before.push(rest[0]));
                assert(outcomes(sequence@) + decided_prefix(rest.drop_first()) =~= before
                    + decided_prefix(rest));
            }
            i += 1;
        }
        assert(outcomes(sequence@) =~= decided_prefix(pending)) by {
            let rest = pending.skip(i - settled);
            if i < leaders.len() {
                assert(rest[0] == leaders[i as int]@);
            }
            assert(decided_prefix(rest) =~= Seq::<StatusView>::empty());
        }
        sequence
    }

    /// Try to decide as many leaders as possible from `first_round` on, starting with the highest
    /// round.
    fn decide_all(&self, first_round: RoundNumber) -> (leaders: Vec<LeaderStatus>)
        requires
            self.wf(),
            first_round > 0,
            self@.decidable(first_round),
        ensures
            outcomes(leaders@) == self@.statuses(first_round as int, 0),
    {
        let highest_known_round: RoundNumber = self.block_store.highest_round();
        let mut leaders: Vec<LeaderStatus> = Vec::new();
        let mut round: RoundNumber = highest_known_round;
        assert(outcomes(leaders@) =~= Seq::<StatusView>::empty());
        if highest_known_round < first_round {
            return leaders;
        }
        while round >= first_round
            invariant
                self.wf(),
                0 < first_round <= round + 1,
                round <= highest_known_round == highest_round(self@.blocks),
                self@.decidable(first_round),
                outcomes(leaders@) == self@.statuses(round + 1, 0),
            decreases round,
        {
            let mut index: usize = self.committers.len();
            while index > 0
                invariant
                    self.wf(),
                    index <= self.committers.len(),
                    first_round <= round <= highest_round(self@.blocks),
                    self@.decidable(first_round),
                    outcomes(leaders@) == self@.statuses(round as int, index as int),
                decreases index,
            {
                index -= 1;
                let committer: &BaseCommitter = &self.committers[index];
                let ghost later = outcomes(leaders@);
                proof {
                    assert(self@.committers[index as int] == committer@);
                    assert(self@.committers[index as int].decidable(round));
                }
                if let Some(leader) = committer.elect_leader(round) {
                    // Try to directly decide the leader.
                    let mut status: LeaderStatus = committer.try_direct_decide(leader, round);
                    // If we can't directly decide the leader, try to indirectly decide it.
                    if !status.is_decided() {
                        assert(status_views(leaders@.as_ref()) =~= later);
                        status = committer.try_indirect_decide(leader, round, leaders.iter());
                    }
                    let ghost outcome = status@;
                    leaders.insert(0, status);
                    assert(outcomes(leaders@) =~= seq![outcome] + later);
                }
            }
            round -= 1;
        }
        leaders
    }
}

/// The committers of a [`UniversalCommitterBuilder`]: for each of `stages` round offsets, one
/// committer for each of `leaders` leader offsets.
pub open spec fn layout(
    stakes: Seq<Stake>,
    blocks: Seq<BlockView>,
    wave_length: u64,
    stages: int,
    leaders: int,
) -> Seq<CommitterView> {
    Seq::new(
        (stages * leaders) as nat,
        |k: int|
            CommitterView {
                stakes,
                blocks,
                options: BaseCommitterOptions {
                    wave_length,
                    leader_offset: (k % leaders) as u64,
                    round_offset: (k / leaders) as u64,
                },
            },
    )
}

/// What a [`UniversalCommitterBuilder`] builds from.
pub struct BuilderView {
    pub stakes: Seq<Stake>,
    pub blocks: Seq<BlockView>,
    pub wave_length: u64,
    pub number_of_leaders: usize,
    pub pipeline: bool,
}

impl BuilderView {
    /// The number of round offsets: in a pipeline, each round of a wave starts a wave.
    pub open spec fn stages(self) -> int {
        if self.pipeline {
            self.wave_length as int
        } else {
            1
        }
    }

    /// The committers to build.
    pub open spec fn committers(self) -> Seq<CommitterView> {
        layout(
            self.stakes,
            self.blocks,
            self.wave_length,
            self.stages(),
            self.number_of_leaders as int,
        )
    }
}

/// A builder for a universal committer. By default, the builder creates a single base committer,
/// that is, a single leader and no pipeline.
#[derive(Debug)]
pub struct UniversalCommitterBuilder {
    committee: Arc<Committee>,
    block_store: BlockStore,
    wave_length: u64,
    number_of_leaders: usize,
    pipeline: bool,
}

impl View for UniversalCommitterBuilder {
    type V = BuilderView;

    closed spec fn view(&self) -> BuilderView {
        BuilderView {
            stakes: self.committee@,
            blocks: self.block_store@,
            wave_length: self.wave_length,
            number_of_leaders: self.number_of_leaders,
            pipeline: self.pipeline,
        }
    }
}

impl UniversalCommitterBuilder {
    /// The committee and the store are well formed.
    pub closed spec fn wf(&self) -> bool {
        &&& self.committee.wf()
        &&& self.block_store.wf()
    }

    /// What a well formed builder gives.
    pub proof fn lemma_wf(&self)
        requires
            self.wf(),
        ensures
            0 < self@.stakes.len() <= usize::MAX,
            total_stake(self@.stakes) <= Stake::MAX,
            distinct_references(self@.blocks),
    {
        self.committee.lemma_wf();
        self.block_store.lemma_wf();
    }

    pub fn new(committee: Arc<Committee>, block_store: BlockStore) -> (builder: Self)
        requires
            committee.wf(),
            block_store.wf(),
        ensures
            builder.wf(),
            builder@ == (BuilderView {
                stakes: committee@,
                blocks: block_store@,
                wave_length: DEFAULT_WAVE_LENGTH,
                number_of_leaders: 1,
                pipeline: false,
            }),
    {
        UniversalCommitterBuilder {
            committee,
            block_store,
            wave_length: DEFAULT_WAVE_LENGTH,
            number_of_leaders: 1,
            pipeline: false,
        }
    }

    pub fn with_wave_length(self, wave_length: u64) -> (builder: Self)
        requires
            self.wf(),
        ensures
            builder.wf(),
            builder@ == (BuilderView { wave_length, ..self@ }),
    {
        UniversalCommitterBuilder { wave_length, ..self }
    }

    pub fn with_number_of_leaders(self, number_of_leaders: usize) -> (builder: Self)
        requires
            self.wf(),
        ensures
            builder.wf(),
            builder@ == (BuilderView { number_of_leaders, ..self@ }),
    {
        UniversalCommitterBuilder { number_of_leaders, ..self }
    }

    pub fn with_pipeline(self, pipeline: bool) -> (builder: Self)
        requires
            self.wf(),
        ensures
            builder.wf(),
            builder@ == (BuilderView { pipeline, ..self@ }),
    {
        UniversalCommitterBuilder { pipeline, ..self }
    }

    pub fn build(self) -> (committer: UniversalCommitter)
        requires
            self.wf(),
            self@.wave_length >= MINIMUM_WAVE_LENGTH,
            self@.stages() * self@.number_of_leaders <= u64::MAX,
        ensures
            committer.wf(),
            committer@ == (UniversalView {
                committers: self@.committers(),
                blocks: self@.blocks,
            }),
    {
        let stages: u64 = if self.pipeline {
            self.wave_length
        } else {
            1
        };
        let leaders: u64 = self.number_of_leaders as u64;
        let total: u64 = stages * leaders;
        let mut committers: Vec<BaseCommitter> = Vec::new();
        let mut k: u64 = 0;
        while k < total
            invariant
                self.wf(),
                self@.wave_length >= MINIMUM_WAVE_LENGTH,
                leaders == self@.number_of_leaders,
                total == self@.stages() * leaders,
                k <= total,
                committers.len() == k,
                forall|i: int|
                    0 <= i < k ==> (#[trigger] committers[i]).wf() && committers[i]@
                        == self@.committers()[i],
            decreases total - k,
        {
            assert(leaders > 0) by (nonlinear_arith)
                requires
                    total == self@.stages() * leaders,
                    total > 0,
                    leaders >= 0,
            ;
            let options: BaseCommitterOptions = BaseCommitterOptions {
                wave_length: self.wave_length,
                leader_offset: k % leaders,
                round_offset: k / leaders,
            };
            committers.push(
                BaseCommitter::new(self.committee.clone(), self.block_store.clone()).with_options(
                    options,
                ),
            );
            k += 1;
        }
        let committer = UniversalCommitter { committers, block_store: self.block_store };
        assert(committer@.committers =~= self@.committers());
        committer
    }
}

} // verus!
