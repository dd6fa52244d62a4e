//! The commit rule of one committer.
//!
//! The consensus protocol operates in waves of at least three rounds. The first round of a wave
//! is its leader round, the next one its voting round, and the last one its decision round.
//!
//! A block of the voting round that includes a block of the leader is a vote for the leader. A
//! block of the decision round blames the leader if it has no vote for the leader in its causal
//! history. Otherwise it supports what the leader proposed: the block of the leader round. A
//! Byzantine leader may have proposed several. Then a vote is for the proposals that it includes,
//! and a block of the decision round supports the proposal that leads the votes in its causal
//! history, if one does.
//!
//! - The direct rule skips a leader with `4f + 1` blames, and commits a proposal with `4f + 1`
//!   supports.
//! - The indirect rule decides any other leader from an anchor, the first leader committed after
//!   its wave: it commits the proposal of which `2f + 1` supports are in the causal history of the
//!   anchor, and skips the leader if there is none.

use std::sync::Arc;

use crate::block_store::{
    blocks_at_authority_round, blocks_by_round, distinct_references, highest_round, linked, rivals,
    BlockStore,
};
use crate::committee::{
    is_indirect_quorum, is_quorum, leader_by_rotation, lemma_stake_of_is_monotone,
    lemma_stake_of_nobody, stake_of, total_stake, Committee, IndirectQuorumThreshold,
    QuorumThreshold, StakeAggregator,
};
use crate::text::{append_decimal, decimal};
use crate::types::{
    views, AuthorityIndex, BlockView, Data, LeaderStatus, RoundNumber, Stake, StatementBlock,
    StatusView,
};
use vstd::prelude::*;
use vstd::std_specs::iter::IteratorSpec;
use vstd::string::*;

verus! {

/// The number of a wave.
pub type WaveNumber = u64;

/// The least length of a wave: a leader round, a voting round and a decision round.
pub const MINIMUM_WAVE_LENGTH: RoundNumber = 3;

/// The length of a wave where nothing else is asked for.
pub const DEFAULT_WAVE_LENGTH: RoundNumber = 3;

/// How a [`BaseCommitter`] operates.
#[derive(Clone, Copy, Debug)]
pub struct BaseCommitterOptions {
    /// The length of a wave (minimum 3)
    pub wave_length: u64,
    /// The offset used in the leader-election protocol. This is used by the multi-committer to
    /// ensure that each [`BaseCommitter`] instance elects a different leader.
    pub leader_offset: u64,
    /// The offset of the first wave. This is used by the pipelined committer to ensure that each
    /// [`BaseCommitter`] instances operates on a different view of the dag.
    pub round_offset: u64,
}

impl Default for BaseCommitterOptions {
    fn default() -> (options: Self)
        ensures
            options == (BaseCommitterOptions {
                wave_length: DEFAULT_WAVE_LENGTH,
                leader_offset: 0,
                round_offset: 0,
            }),
    {
        BaseCommitterOptions { wave_length: DEFAULT_WAVE_LENGTH, leader_offset: 0, round_offset: 0 }
    }
}

/// The authorities of the blocks that have a property.
pub open spec fn authors(
    blocks: Seq<BlockView>,
    property: spec_fn(BlockView) -> bool,
) -> Set<AuthorityIndex> {
    Set::new(
        |authority: AuthorityIndex|
            exists|i: int|
                0 <= i < blocks.len() && property(#[trigger] blocks[i]) && blocks[i].authority()
                    == authority,
    )
}

/// The authorities of the first blocks, block by block.
proof fn lemma_authors_of_prefix(
    blocks: Seq<BlockView>,
    property: spec_fn(BlockView) -> bool,
    i: int,
)
    requires
        0 <= i < blocks.len(),
    ensures
        authors(blocks.take(0), property) == Set::<AuthorityIndex>::empty(),
        authors(blocks.take(i + 1), property) == if property(blocks[i]) {
            authors(blocks.take(i), property).insert(blocks[i].authority())
        } else {
            authors(blocks.take(i), property)
        },
        authors(blocks.take(i + 1), property).subset_of(authors(blocks, property)),
        authors(blocks.take(blocks.len() as int), property) == authors(blocks, property),
{
    let before = blocks.take(i);
    let after = blocks.take(i + 1);
    assert(blocks.take(blocks.len() as int) =~= blocks);
    assert(authors(blocks.take(0), property) =~= Set::<AuthorityIndex>::empty());
    assert forall|a: AuthorityIndex| authors(before, property).contains(a) implies authors(
        after,
        property,
    ).contains(a) by {
        let j = choose|j: int|
            0 <= j < before.len() && property(#[trigger] before[j]) && before[j].authority() == a;
        assert(after[j] == before[j]);
    }
    assert forall|a: AuthorityIndex| authors(after, property).contains(a) implies authors(
        blocks,
        property,
    ).contains(a) && (authors(before, property).contains(a) || property(blocks[i])
        && blocks[i].authority() == a) by {
        let j = choose|j: int|
            0 <= j < after.len() && property(#[trigger] after[j]) && after[j].authority() == a;
        assert(blocks[j] == after[j]);
        if j < i {
            assert(before[j] == after[j]);
        }
    }
    assert(after[i] == blocks[i]);
    if property(blocks[i]) {
        assert(authors(after, property) =~= authors(before, property).insert(
            blocks[i].authority(),
        ));
    } else {
        assert(authors(after, property) =~= authors(before, property));
    }
}

/// Properties that say the same select the same blocks.
proof fn lemma_same_filter(
    blocks: Seq<BlockView>,
    p: spec_fn(BlockView) -> bool,
    q: spec_fn(BlockView) -> bool,
)
    requires
        forall|block: BlockView| #[trigger] p(block) == q(block),
    ensures
        blocks.filter(p) == blocks.filter(q),
    decreases blocks.len(),
{
    reveal(Seq::filter);
    if blocks.len() > 0 {
        lemma_same_filter(blocks.drop_last(), p, q);
    }
}

/// What a [`BaseCommitter`] works on: the stakes of the committee, the blocks of the DAG, and
/// the options.
pub struct CommitterView {
    pub stakes: Seq<Stake>,
    pub blocks: Seq<BlockView>,
    pub options: BaseCommitterOptions,
}

impl CommitterView {
    /// The wave in which `round` belongs. What comes before the first wave counts as part of it.
    pub open spec fn wave_number(self, round: RoundNumber) -> int {
        (if round < self.options.round_offset {
            0
        } else {
            round - self.options.round_offset
        }) / self.options.wave_length as int
    }

    /// The first round of a wave.
    pub open spec fn leader_round(self, wave: int) -> int {
        wave * self.options.wave_length + self.options.round_offset
    }

    /// The round after the first round of a wave.
    pub open spec fn voting_round(self, wave: int) -> int {
        self.leader_round(wave) + 1
    }

    /// The last round of a wave.
    pub open spec fn decision_round(self, wave: int) -> int {
        self.leader_round(wave) + self.options.wave_length - 1
    }

    /// The rounds of the wave in which `round` belongs can be numbered.
    pub open spec fn wave_fits(self, round: RoundNumber) -> bool {
        self.decision_round(self.wave_number(round)) <= RoundNumber::MAX
    }

    /// `round` is a leader round, and the DAG has reached the decision round of its wave.
    pub open spec fn has_leader(self, round: RoundNumber) -> bool {
        let wave = self.wave_number(round);
        self.leader_round(wave) == round && self.decision_round(wave) <= highest_round(self.blocks)
    }

    /// The leader of `round`, if it has one.
    pub open spec fn elect_leader(self, round: RoundNumber) -> Option<AuthorityIndex> {
        if self.has_leader(round) {
            Some(
                leader_by_rotation(
                    self.stakes,
                    (round + self.options.leader_offset) as RoundNumber,
                ),
            )
        } else {
            None
        }
    }

    /// `block` has a vote for `leader` in its causal history.
    pub open spec fn backs(
        self,
        block: BlockView,
        voting_round: RoundNumber,
        leader: AuthorityIndex,
    ) -> bool {
        let candidates = blocks_by_round(self.blocks, voting_round);
        exists|i: int|
            0 <= i < candidates.len() && #[trigger] candidates[i].names(leader) && linked(
                self.blocks,
                block,
                candidates[i],
            )
    }

    /// `vote` is for `proposal`. Where the leader proposed nothing else, a vote for the leader is
    /// for what it proposed. Otherwise the vote includes the proposal.
    pub open spec fn votes_for(self, vote: BlockView, proposal: BlockView) -> bool {
        &&& vote.names(proposal.authority())
        &&& rivals(self.blocks, proposal).len() == 0 || vote.includes.contains(proposal.reference)
    }

    /// The authorities with a vote for `proposal` in the causal history of `block`.
    pub open spec fn voters(
        self,
        block: BlockView,
        voting_round: RoundNumber,
        proposal: BlockView,
    ) -> Set<AuthorityIndex> {
        authors(
            blocks_by_round(self.blocks, voting_round),
            |vote: BlockView| self.votes_for(vote, proposal) && linked(self.blocks, block, vote),
        )
    }

    /// The stake of the votes for `proposal` in the causal history of `block`, if there is a vote.
    pub open spec fn vote_stake(
        self,
        block: BlockView,
        voting_round: RoundNumber,
        proposal: BlockView,
    ) -> Option<nat> {
        let voters = self.voters(block, voting_round, proposal);
        if voters == Set::<AuthorityIndex>::empty() {
            None
        } else {
            Some(stake_of(self.stakes, voters))
        }
    }

    /// `proposal` leads the votes in the causal history of `block`: there is a vote for it, and
    /// the votes for each other proposal of the leader have less stake.
    pub open spec fn supports(
        self,
        block: BlockView,
        voting_round: RoundNumber,
        proposal: BlockView,
    ) -> bool {
        let others = rivals(self.blocks, proposal);
        &&& self.vote_stake(block, voting_round, proposal) is Some
        &&& forall|k: int|
            0 <= k < others.len() ==> (self.vote_stake(
                block,
                voting_round,
                #[trigger] others[k],
            ) matches Some(stake) ==> stake < self.vote_stake(block, voting_round, proposal)->0)
    }

    /// The authorities with a block of the decision round that supports `proposal`.
    pub open spec fn supporters(
        self,
        voting_round: RoundNumber,
        decision_round: RoundNumber,
        proposal: BlockView,
    ) -> Set<AuthorityIndex> {
        authors(
            blocks_by_round(self.blocks, decision_round),
            |block: BlockView| self.supports(block, voting_round, proposal),
        )
    }

    /// The authorities with a block of the decision round that has no vote for `leader` in its
    /// causal history.
    pub open spec fn blamers(
        self,
        voting_round: RoundNumber,
        decision_round: RoundNumber,
        leader: AuthorityIndex,
    ) -> Set<AuthorityIndex> {
        authors(
            blocks_by_round(self.blocks, decision_round),
            |block: BlockView| !self.backs(block, voting_round, leader),
        )
    }

    /// The authorities with a block of the decision round that supports `proposal` and is in the
    /// causal history of `anchor`.
    pub open spec fn anchored_supporters(
        self,
        anchor: BlockView,
        voting_round: RoundNumber,
        decision_round: RoundNumber,
        proposal: BlockView,
    ) -> Set<AuthorityIndex> {
        authors(
            blocks_by_round(self.blocks, decision_round),
            |block: BlockView|
                linked(self.blocks, anchor, block) && self.supports(block, voting_round, proposal),
        )
    }

    /// The supports of `proposal` have `4f + 1` stake.
    pub open spec fn enough_support(
        self,
        voting_round: RoundNumber,
        decision_round: RoundNumber,
        proposal: BlockView,
    ) -> bool {
        is_quorum(
            self.stakes,
            stake_of(self.stakes, self.supporters(voting_round, decision_round, proposal)),
        )
    }

    /// The blames of `leader` have `4f + 1` stake.
    pub open spec fn enough_blame(
        self,
        voting_round: RoundNumber,
        decision_round: RoundNumber,
        leader: AuthorityIndex,
    ) -> bool {
        is_quorum(
            self.stakes,
            stake_of(self.stakes, self.blamers(voting_round, decision_round, leader)),
        )
    }

    /// The supports of `proposal` in the causal history of `anchor` have `2f + 1` stake.
    pub open spec fn enough_anchored_support(
        self,
        anchor: BlockView,
        voting_round: RoundNumber,
        decision_round: RoundNumber,
        proposal: BlockView,
    ) -> bool {
        is_indirect_quorum(
            self.stakes,
            stake_of(
                self.stakes,
                self.anchored_supporters(anchor, voting_round, decision_round, proposal),
            ),
        )
    }

    /// The voting round of the wave in which `round` belongs.
    pub open spec fn voting_round_of(self, round: RoundNumber) -> RoundNumber {
        self.voting_round(self.wave_number(round)) as RoundNumber
    }

    /// The decision round of the wave in which `round` belongs.
    pub open spec fn decision_round_of(self, round: RoundNumber) -> RoundNumber {
        self.decision_round(self.wave_number(round)) as RoundNumber
    }

    /// The direct rule skips the leader.
    pub open spec fn directly_skipped(
        self,
        leader: AuthorityIndex,
        leader_round: RoundNumber,
    ) -> bool {
        self.enough_blame(
            self.voting_round_of(leader_round),
            self.decision_round_of(leader_round),
            leader,
        )
    }

    /// The blocks that the leader proposed.
    pub open spec fn proposals(self, leader: AuthorityIndex, leader_round: RoundNumber) -> Seq<
        BlockView,
    > {
        blocks_at_authority_round(self.blocks, leader, leader_round)
    }

    /// The proposals that have enough support for the direct rule.
    pub open spec fn directly_supported(
        self,
        leader: AuthorityIndex,
        leader_round: RoundNumber,
    ) -> Seq<BlockView> {
        self.proposals(leader, leader_round).filter(
            |proposal: BlockView|
                self.enough_support(
                    self.voting_round_of(leader_round),
                    self.decision_round_of(leader_round),
                    proposal,
                ),
        )
    }

    /// The proposals that have enough support for the indirect rule, given the anchor.
    pub open spec fn indirectly_supported(
        self,
        anchor: BlockView,
        leader: AuthorityIndex,
        leader_round: RoundNumber,
    ) -> Seq<BlockView> {
        self.proposals(leader, leader_round).filter(
            |proposal: BlockView|
                self.enough_anchored_support(
                    anchor,
                    self.voting_round_of(leader_round),
                    self.decision_round_of(leader_round),
                    proposal,
                ),
        )
    }

    /// The direct rule does not find two proposals to commit.
    pub open spec fn directly_undisputed(
        self,
        leader: AuthorityIndex,
        leader_round: RoundNumber,
    ) -> bool {
        self.directly_skipped(leader, leader_round) || self.directly_supported(
            leader,
            leader_round,
        ).len() <= 1
    }

    /// The anchor does not find enough support for two proposals.
    pub open spec fn indirectly_undisputed(
        self,
        anchor: BlockView,
        leader: AuthorityIndex,
        leader_round: RoundNumber,
    ) -> bool {
        self.indirectly_supported(anchor, leader, leader_round).len() <= 1
    }

    /// What the direct rule says of a leader.
    pub open spec fn direct_status(
        self,
        leader: AuthorityIndex,
        leader_round: RoundNumber,
    ) -> StatusView {
        if self.directly_skipped(leader, leader_round) {
            StatusView::Skip(leader, leader_round)
        } else if self.directly_supported(leader, leader_round).len() > 0 {
            StatusView::Commit(self.directly_supported(leader, leader_round)[0])
        } else {
            StatusView::Undecided(leader, leader_round)
        }
    }

    /// What the indirect rule says of a leader, given the anchor: commit the one proposal that has
    /// enough support. Where there is none, or more than one, skip the leader.
    pub open spec fn status_from_anchor(
        self,
        anchor: BlockView,
        leader: AuthorityIndex,
        leader_round: RoundNumber,
    ) -> StatusView {
        let supported = self.indirectly_supported(anchor, leader, leader_round);
        if supported.len() == 1 {
            StatusView::Commit(supported[0])
        } else {
            StatusView::Skip(leader, leader_round)
        }
    }

    /// The anchor of a leader: the first of the later `leaders` that is committed, where only
    /// those count that lead a round at least one wave later. There is none if an undecided
    /// leader comes first.
    pub open spec fn anchor(self, leader_round: RoundNumber, leaders: Seq<StatusView>) -> Option<
        BlockView,
    >
        decreases leaders.len(),
    {
        if leaders.len() == 0 {
            None
        } else if leaders[0].round() < leader_round + self.options.wave_length {
            self.anchor(leader_round, leaders.drop_first())
        } else {
            match leaders[0] {
                StatusView::Commit(block) => Some(block),
                StatusView::Skip(_, _) => self.anchor(leader_round, leaders.drop_first()),
                StatusView::Undecided(_, _) => None,
            }
        }
    }

    /// What the indirect rule says of a leader, given the status of the later leaders.
    pub open spec fn indirect_status(
        self,
        leader: AuthorityIndex,
        leader_round: RoundNumber,
        leaders: Seq<StatusView>,
    ) -> StatusView {
        match self.anchor(leader_round, leaders) {
            Some(anchor) => self.status_from_anchor(anchor, leader, leader_round),
            None => StatusView::Undecided(leader, leader_round),
        }
    }

    /// `Committer-L`, the leader offset, `-R` and the round offset.
    pub open spec fn name(self) -> Seq<char> {
        "Committer-L"@ + decimal(self.options.leader_offset as nat) + "-R"@ + decimal(
            self.options.round_offset as nat,
        )
    }
}

/// What each of several statuses says.
pub open spec fn status_views<'a>(leaders: Seq<&'a LeaderStatus>) -> Seq<StatusView> {
    Seq::new(leaders.len(), |i: int| leaders[i]@)
}

/// The [`BaseCommitter`] contains the bare bone commit logic. Once instantiated, the method
/// `try_direct_decide` and `try_indirect_decide` can be called at any time and any number
/// of times (it is idempotent) to determine whether a leader can be committed or skipped.
#[derive(Debug)]
pub struct BaseCommitter {
    /// The committee information
    committee: Arc<Committee>,
    /// Keep all block data
    block_store: BlockStore,
    /// The options used by this committer
    options: BaseCommitterOptions,
}

impl View for BaseCommitter {
    type V = CommitterView;

    closed spec fn view(&self) -> CommitterView {
        CommitterView {
            stakes: self.committee@,
            blocks: self.block_store@,
            options: self.options,
        }
    }
}

impl BaseCommitter {
    /// The committee and the store are well formed, and a wave has its three rounds.
    pub closed spec fn wf(&self) -> bool {
        &&& self.committee.wf()
        &&& self.block_store.wf()
        &&& self.options.wave_length >= MINIMUM_WAVE_LENGTH
    }

    /// What a well formed committer gives.
    pub proof fn lemma_wf(&self)
        requires
            self.wf(),
        ensures
            0 < self@.stakes.len() <= usize::MAX,
            total_stake(self@.stakes) <= Stake::MAX,
            distinct_references(self@.blocks),
            self@.options.wave_length >= MINIMUM_WAVE_LENGTH,
    {
        self.committee.lemma_wf();
        self.block_store.lemma_wf();
    }

    /// A committer with the default options.
    pub fn new(committee: Arc<Committee>, block_store: BlockStore) -> (committer: Self)
        requires
            committee.wf(),
            block_store.wf(),
        ensures
            committer.wf(),
            committer@.stakes == committee@,
            committer@.blocks == block_store@,
            committer@.options == (BaseCommitterOptions {
                wave_length: DEFAULT_WAVE_LENGTH,
                leader_offset: 0,
                round_offset: 0,
            }),
    {
        BaseCommitter { committee, block_store, options: BaseCommitterOptions::default() }
    }

    /// The same committer with other options.
    pub fn with_options(self, options: BaseCommitterOptions) -> (committer: Self)
        requires
            self.wf(),
            options.wave_length >= MINIMUM_WAVE_LENGTH,
        ensures
            committer.wf(),
            committer@ == (CommitterView { options, ..self@ }),
    {
        BaseCommitter { options, ..self }
    }

    /// Return the wave in which the specified round belongs.
    pub fn wave_number(&self, round: RoundNumber) -> (wave: WaveNumber)
        requires
            self.wf(),
        ensures
            wave == self@.wave_number(round),
    {
        round.saturating_sub(self.options.round_offset) / self.options.wave_length
    }

    /// Return the leader round of the specified wave number. The leader round is always the first
    /// round of the wave.
    pub fn leader_round(&self, wave: WaveNumber) -> (round: RoundNumber)
        requires
            self.wf(),
            self@.leader_round(wave as int) <= RoundNumber::MAX,
        ensures
            round == self@.leader_round(wave as int),
    {
        wave * self.options.wave_length + self.options.round_offset
    }

    /// Return the decision round of the specified wave. The decision round is always the last
    /// round of the wave.
    pub fn decision_round(&self, wave: WaveNumber) -> (round: RoundNumber)
        requires
            self.wf(),
            self@.decision_round(wave as int) <= RoundNumber::MAX,
        ensures
            round == self@.decision_round(wave as int),
    {
        let wave_length: u64 = self.options.wave_length;
        wave * wave_length + (wave_length - 1) + self.options.round_offset
    }

    /// Return the voting round of the specified wave. The voting round is after the leader round
    /// of the wave.
    pub fn voting_round(&self, wave: WaveNumber) -> (round: RoundNumber)
        requires
            self.wf(),
            self@.voting_round(wave as int) <= RoundNumber::MAX,
        ensures
            round == self@.voting_round(wave as int),
    {
        self.leader_round(wave) + 1
    }

    /// The leader-elect protocol is offset by `leader_offset` to ensure that different committers
    /// with different leader offsets elect different leaders for the same round number. This
    /// function returns `None` if there are no leaders for the specified round or if the decision
    /// round of the wave has not been reached yet.
    pub fn elect_leader(&self, round: RoundNumber) -> (leader: Option<AuthorityIndex>)
        requires
            self.wf(),
            self@.wave_fits(round),
            self@.has_leader(round) ==> round + self@.options.leader_offset <= RoundNumber::MAX,
        ensures
            leader == self@.elect_leader(round),
    {
        let wave: WaveNumber = self.wave_number(round);
        let decision_round: RoundNumber = self.decision_round(wave);
        let highest_known_round: RoundNumber = self.block_store.highest_round();
        if self.leader_round(wave) != round || highest_known_round < decision_round {
            return None;
        }
        let offset: RoundNumber = self.options.leader_offset;
        Some(self.committee.elect_leader(round + offset))
    }

    /// Whether `block` is a vote for `leader` or has one in its causal history.
    fn backs(
        &self,
        block: &StatementBlock,
        voting_round: RoundNumber,
        leader: AuthorityIndex,
    ) -> (found: bool)
        ensures
            found == self@.backs(block@, voting_round, leader),
    {
        let voting_blocks: Vec<Data<StatementBlock>> = self.block_store.get_blocks_by_round(
            voting_round,
        );
        let ghost candidates = blocks_by_round(self@.blocks, voting_round);
        let mut i: usize = 0;
        while i < voting_blocks.len()
            invariant
                i <= voting_blocks.len(),
                views(voting_blocks@) == candidates,
                candidates == blocks_by_round(self@.blocks, voting_round),
                forall|j: int|
                    0 <= j < i ==> !(#[trigger] candidates[j].names(leader) && linked(
                        self@.blocks,
                        block@,
                        candidates[j],
                    )),
            decreases voting_blocks.len() - i,
        {
            assert(candidates[i as int] == voting_blocks[i as int]@);
            if voting_blocks[i].names(leader) && self.block_store.linked(block, &voting_blocks[i]) {
                assert(candidates[i as int].names(leader));
                return true;
            }
            i += 1;
        }
        false
    }

    /// The stake of the votes for `proposal` in the causal history of `block`, if there is a vote.
    fn vote_stake(
        &self,
        block: &StatementBlock,
        voting_round: RoundNumber,
        proposal: &StatementBlock,
    ) -> (stake: Option<Stake>)
        requires
            self.wf(),
        ensures
            stake is Some == self@.vote_stake(block@, voting_round, proposal@) is Some,
            stake matches Some(amount) ==> self@.vote_stake(block@, voting_round, proposal@)
                == Some(amount as nat),
    {
        let voting_blocks: Vec<Data<StatementBlock>> = self.block_store.get_blocks_by_round(
            voting_round,
        );
        let others: Vec<Data<StatementBlock>> = self.block_store.get_rivals(proposal);
        let contested: bool = others.len() > 0;
        assert(others.len() == views(others@).len());
        let ghost view = self@;
        let ghost blocks = blocks_by_round(self@.blocks, voting_round);
        let ghost property = |vote: BlockView|
            view.votes_for(vote, proposal@) && linked(view.blocks, block@, vote);
        let mut aggregator: StakeAggregator<QuorumThreshold> = StakeAggregator::new();
        let mut found: bool = false;
        let mut i: usize = 0;
        proof {
            assert(authors(blocks.take(0), property) =~= Set::<AuthorityIndex>::empty());
            assert(self@.voters(block@, voting_round, proposal@) =~= authors(blocks, property));
        }
        while i < voting_blocks.len()
            invariant
                self.wf(),
                view == self@,
                i <= voting_blocks.len(),
                views(voting_blocks@) == blocks,
                contested == (rivals(view.blocks, proposal@).len() > 0),
                property == (|vote: BlockView|
                    view.votes_for(vote, proposal@) && linked(view.blocks, block@, vote)),
                aggregator.wf(self@.stakes),
                aggregator@ == authors(blocks.take(i as int), property),
                found == (aggregator@ != Set::<AuthorityIndex>::empty()),
            decreases voting_blocks.len() - i,
        {
            proof {
                lemma_authors_of_prefix(blocks, property, i as int);
                assert(blocks[i as int] == voting_blocks[i as int]@);
            }
            let vote: &StatementBlock = &voting_blocks[i];
            if vote.names(proposal.author()) && (!contested || vote.includes_block(
                proposal.reference(),
            )) && self.block_store.linked(block, vote) {
                let _reached: bool = aggregator.add(vote.author(), &self.committee);
                found = true;
                assert(aggregator@.contains(vote@.authority()));
            }
            i += 1;
        }
        assert(blocks.take(i as int) =~= blocks);
        if found {
            Some(aggregator.stake(&self.committee))
        } else {
            None
        }
    }

    /// Whether `proposal` leads the votes in the causal history of `block`.
    fn supports(
        &self,
        block: &StatementBlock,
        voting_round: RoundNumber,
        proposal: &StatementBlock,
    ) -> (supported: bool)
        requires
            self.wf(),
        ensures
            supported == self@.supports(block@, voting_round, proposal@),
    {
        let stake: Stake = match self.vote_stake(block, voting_round, proposal) {
            Some(stake) => stake,
            None => {
                return false;
            },
        };
        let others: Vec<Data<StatementBlock>> = self.block_store.get_rivals(proposal);
        let ghost other_views = rivals(self@.blocks, proposal@);
        let mut k: usize = 0;
        while k < others.len()
            invariant
                self.wf(),
                k <= others.len(),
                views(others@) == other_views,
                other_views == rivals(self@.blocks, proposal@),
                self@.vote_stake(block@, voting_round, proposal@) == Some(stake as nat),
                forall|j: int|
                    0 <= j < k ==> (self@.vote_stake(
                        block@,
                        voting_round,
                        #[trigger] other_views[j],
                    ) matches Some(other) ==> other < stake),
            decreases others.len() - k,
        {
            assert(other_views[k as int] == others[k as int]@);
            if let Some(other) = self.vote_stake(block, voting_round, &others[k]) {
                if other >= stake {
                    return false;
                }
            }
            k += 1;
        }
        true
    }

    /// Check whether the specified leader has enough support (that is, 4f+1 supports)
    /// to be directly committed.
    pub fn enough_leader_support(
        &self,
        voting_round: RoundNumber,
        decision_round: RoundNumber,
        leader_block: &Data<StatementBlock>,
    ) -> (enough: bool)
        requires
            self.wf(),
        ensures
            enough == self@.enough_support(
                voting_round,
                decision_round,
                leader_block@,
            ),
    {
        let decision_blocks: Vec<Data<StatementBlock>> = self.block_store.get_blocks_by_round(
            decision_round,
        );
        let ghost blocks = blocks_by_round(self@.blocks, decision_round);
        let ghost view = self@;
        let ghost property = |block: BlockView| view.supports(block, voting_round, leader_block@);
        let mut support_stake_aggregator: StakeAggregator<QuorumThreshold> = StakeAggregator::new();
        let mut i: usize = 0;
        proof {
            lemma_stake_of_nobody(self@.stakes);
            assert(authors(blocks.take(0), property) =~= Set::<AuthorityIndex>::empty());
            assert(self@.supporters(voting_round, decision_round, leader_block@) =~= authors(
                blocks,
                property,
            ));
        }
        while i < decision_blocks.len()
            invariant
                self.wf(),
                view == self@,
                i <= decision_blocks.len(),
                views(decision_blocks@) == blocks,
                property == (|block: BlockView| view.supports(block, voting_round, leader_block@)),
                self@.supporters(voting_round, decision_round, leader_block@) == authors(blocks, property),
                support_stake_aggregator.wf(self@.stakes),
                support_stake_aggregator@ == authors(blocks.take(i as int), property),
                !is_quorum(self@.stakes, stake_of(self@.stakes, support_stake_aggregator@)),
            decreases decision_blocks.len() - i,
        {
            proof {
                lemma_authors_of_prefix(blocks, property, i as int);
                assert(blocks[i as int] == decision_blocks[i as int]@);
            }
            let voter: AuthorityIndex = decision_blocks[i].author();
            if self.supports(&decision_blocks[i], voting_round, leader_block) {
                if support_stake_aggregator.add(voter, &self.committee) {
                    proof {
                        lemma_stake_of_is_monotone(
                            self@.stakes,
                            support_stake_aggregator@,
                            authors(blocks, property),
                        );
                    }
                    return true;
                }
            }
            i += 1;
        }
        assert(blocks.take(i as int) =~= blocks);
        false
    }

    /// Check whether the specified leader has enough blames (that is, 4f+1 non-supports) to be
    /// directly skipped.
    pub fn enough_leader_blame(
        &self,
        voting_round: RoundNumber,
        decision_round: RoundNumber,
        leader: AuthorityIndex,
    ) -> (enough: bool)
        requires
            self.wf(),
        ensures
            enough == self@.enough_blame(voting_round, decision_round, leader),
    {
        let decision_blocks: Vec<Data<StatementBlock>> = self.block_store.get_blocks_by_round(
            decision_round,
        );
        let ghost blocks = blocks_by_round(self@.blocks, decision_round);
        let ghost view = self@;
        let ghost property = |block: BlockView| !view.backs(block, voting_round, leader);
        let mut blame_stake_aggregator: StakeAggregator<QuorumThreshold> = StakeAggregator::new();
        let mut i: usize = 0;
        proof {
            lemma_stake_of_nobody(self@.stakes);
            assert(authors(blocks.take(0), property) =~= Set::<AuthorityIndex>::empty());
            assert(self@.blamers(voting_round, decision_round, leader) =~= authors(
                blocks,
                property,
            ));
        }
        while i < decision_blocks.len()
            invariant
                self.wf(),
                view == self@,
                i <= decision_blocks.len(),
                views(decision_blocks@) == blocks,
                property == (|block: BlockView| !view.backs(block, voting_round, leader)),
                self@.blamers(voting_round, decision_round, leader) == authors(blocks, property),
                blame_stake_aggregator.wf(self@.stakes),
                blame_stake_aggregator@ == authors(blocks.take(i as int), property),
                !is_quorum(self@.stakes, stake_of(self@.stakes, blame_stake_aggregator@)),
            decreases decision_blocks.len() - i,
        {
            proof {
                lemma_authors_of_prefix(blocks, property, i as int);
                assert(blocks[i as int] == decision_blocks[i as int]@);
            }
            let voter: AuthorityIndex = decision_blocks[i].author();
            if !self.backs(&decision_blocks[i], voting_round, leader) {
                if blame_stake_aggregator.add(voter, &self.committee) {
                    proof {
                        lemma_stake_of_is_monotone(
                            self@.stakes,
                            blame_stake_aggregator@,
                            authors(blocks, property),
                        );
                    }
                    return true;
                }
            }
            i += 1;
        }
        assert(blocks.take(i as int) =~= blocks);
        false
    }

    /// Whether the supports of the leader block that are in the causal history of the anchor are enough
    /// (that is, 2f+1) to commit it.
    pub fn enough_anchored_support(
        &self,
        anchor: &Data<StatementBlock>,
        voting_round: RoundNumber,
        decision_round: RoundNumber,
        leader_block: &Data<StatementBlock>,
    ) -> (enough: bool)
        requires
            self.wf(),
        ensures
            enough == self@.enough_anchored_support(
                anchor@,
                voting_round,
                decision_round,
                leader_block@,
            ),
    {
        // Get all blocks that could be potential supports for the leader block. These blocks
        // are in the decision round of the target leader.
        let decision_blocks: Vec<Data<StatementBlock>> = self.block_store.get_blocks_by_round(
            decision_round,
        );
        let ghost blocks = blocks_by_round(self@.blocks, decision_round);
        let ghost view = self@;
        let ghost property = |block: BlockView|
            linked(view.blocks, anchor@, block) && view.supports(block, voting_round, leader_block@);
        let mut indirect_support_stake_aggregator: StakeAggregator<IndirectQuorumThreshold> =
            StakeAggregator::new();
        let mut i: usize = 0;
        proof {
            lemma_stake_of_nobody(self@.stakes);
            assert(authors(blocks.take(0), property) =~= Set::<AuthorityIndex>::empty());
            assert(self@.anchored_supporters(anchor@, voting_round, decision_round, leader_block@) =~= authors(
                blocks,
                property,
            ));
        }
        while i < decision_blocks.len()
            invariant
                self.wf(),
                view == self@,
                i <= decision_blocks.len(),
                views(decision_blocks@) == blocks,
                property == (|block: BlockView|
                    linked(view.blocks, anchor@, block) && view.supports(
                        block,
                        voting_round,
                        leader_block@,
                    )),
                self@.anchored_supporters(anchor@, voting_round, decision_round, leader_block@) == authors(
                    blocks,
                    property,
                ),
                indirect_support_stake_aggregator.wf(self@.stakes),
                indirect_support_stake_aggregator@ == authors(blocks.take(i as int), property),
                !is_indirect_quorum(
                    self@.stakes,
                    stake_of(self@.stakes, indirect_support_stake_aggregator@),
                ),
            decreases decision_blocks.len() - i,
        {
            proof {
                lemma_authors_of_prefix(blocks, property, i as int);
                assert(blocks[i as int] == decision_blocks[i as int]@);
            }
            let authority: AuthorityIndex = decision_blocks[i].author();
            if self.block_store.linked(anchor, &decision_blocks[i]) && self.supports(
                &decision_blocks[i],
                voting_round,
                leader_block,
            ) {
                if indirect_support_stake_aggregator.add(authority, &self.committee) {
                    proof {
                        lemma_stake_of_is_monotone(
                            self@.stakes,
                            indirect_support_stake_aggregator@,
                            authors(blocks, property),
                        );
                    }
                    return true;
                }
            }
            i += 1;
        }
        assert(blocks.take(i as int) =~= blocks);
        false
    }

    /// Decide the status of a target leader from the specified anchor. We commit the target leader
    /// if it has enough support (that is, 2f+1 supports) in the causal history the anchor.
    /// Otherwise, we skip the target leader. We skip it too if it equivocated and more than one of
    /// its blocks has enough support there.
    pub fn decide_leader_from_anchor(
        &self,
        anchor: &Data<StatementBlock>,
        leader: AuthorityIndex,
        leader_round: RoundNumber,
    ) -> (status: LeaderStatus)
        requires
            self.wf(),
            self@.wave_fits(leader_round),
        ensures
            status@ == self@.status_from_anchor(anchor@, leader, leader_round),
    {
        // Get the block(s) proposed by the leader. There could be more than one leader block
        // per round (produced by a Byzantine leader).
        let leader_blocks: Vec<Data<StatementBlock>> =
            self.block_store.get_blocks_at_authority_round(leader, leader_round);
        let wave: WaveNumber = self.wave_number(leader_round);
        let voting_round: RoundNumber = self.voting_round(wave);
        let decision_round: RoundNumber = self.decision_round(wave);
        // For each leader block, check if it has enough support in the causal history
        let ghost proposals = self@.proposals(leader, leader_round);
        let ghost view = self@;
        let ghost supported = |proposal: BlockView|
            view.enough_anchored_support(anchor@, voting_round, decision_round, proposal);
        let mut supported_leader_blocks: Vec<Data<StatementBlock>> = Vec::new();
        let mut i: usize = 0;
        assert(views(supported_leader_blocks@) =~= proposals.take(0).filter(supported)) by {
            reveal(Seq::filter);
        }
        while i < leader_blocks.len()
            invariant
                self.wf(),
                view == self@,
                i <= leader_blocks.len(),
                views(leader_blocks@) == proposals,
                supported == (|proposal: BlockView|
                    view.enough_anchored_support(anchor@, voting_round, decision_round, proposal)),
                views(supported_leader_blocks@) == proposals.take(i as int).filter(supported),
            decreases leader_blocks.len() - i,
        {
            let ghost before = supported_leader_blocks@;
            assert(proposals[i as int] == leader_blocks[i as int]@);
            if self.enough_anchored_support(
                anchor,
                voting_round,
                decision_round,
                &leader_blocks[i],
            ) {
                supported_leader_blocks.push(leader_blocks[i].clone());
                assert(views(supported_leader_blocks@) =~= views(before).push(
                    proposals[i as int],
                ));
            }
            proof {
                reveal(Seq::filter);
                assert(proposals.take(i + 1).drop_last() =~= proposals.take(i as int));
            }
            i += 1;
        }
        proof {
            assert(proposals.take(i as int) =~= proposals);
            lemma_same_filter(
                proposals,
                supported,
                |proposal: BlockView|
                    view.enough_anchored_support(
                        anchor@,
                        view.voting_round_of(leader_round),
                        view.decision_round_of(leader_round),
                        proposal,
                    ),
            );
            assert(views(supported_leader_blocks@) == view.indirectly_supported(
                anchor@,
                leader,
                leader_round,
            ));
        }
        // We commit the target leader if exactly one of its blocks has enough support in the
        // anchor's causal history. Otherwise skip it.
        if supported_leader_blocks.len() == 1 {
            LeaderStatus::Commit(supported_leader_blocks[0].clone())
        } else {
            LeaderStatus::Skip(leader, leader_round)
        }
    }

    /// Apply the indirect decision rule to the specified leader to see whether we can
    /// indirect-commit or indirect-skip it.
    pub fn try_indirect_decide<'a>(
        &self,
        leader: AuthorityIndex,
        leader_round: RoundNumber,
        leaders: impl Iterator<Item = &'a LeaderStatus>,
    ) -> (status: LeaderStatus)
        requires
            self.wf(),
            leaders.obeys_prophetic_iter_laws(),
            leaders.decrease() is Some,
            self@.anchor(leader_round, status_views(leaders.remaining())) is Some
                ==> self@.wave_fits(leader_round),
        ensures
            status@ == self@.indirect_status(
                leader,
                leader_round,
                status_views(leaders.remaining()),
            ),
    {
        // The anchor is the first committed leader with round higher than the decision round of the
        // target leader. We must stop the iteration upon encountering an undecided leader.
        let ghost anchor = self@.anchor(leader_round, status_views(leaders.remaining()));
        let mut anchors = leaders;
        loop
            invariant_except_break
                anchor == self@.anchor(leader_round, status_views(anchors.remaining())),
            invariant
                self.wf(),
                anchors.obeys_prophetic_iter_laws(),
                anchors.decrease() is Some,
                anchor == self@.anchor(leader_round, status_views(leaders.remaining())),
                anchor is Some ==> self@.wave_fits(leader_round),
            ensures
                anchor is None,
            decreases anchors.decrease()->0,
        {
            let ghost all = anchors.remaining();
            match anchors.next() {
                None => {
                    break ;
                },
                Some(status) => {
                    assert(status_views(all).drop_first() =~= status_views(anchors.remaining()));
                    let round: RoundNumber = status.round();
                    if round >= self.options.wave_length && leader_round <= round
                        - self.options.wave_length {
                        match status {
                            LeaderStatus::Commit(anchor) => {
                                return self.decide_leader_from_anchor(
                                    anchor,
                                    leader,
                                    leader_round,
                                );
                            },
                            LeaderStatus::Skip(_, _) => {},
                            LeaderStatus::Undecided(_, _) => {
                                break ;
                            },
                        }
                    }
                },
            }
        }
        LeaderStatus::Undecided(leader, leader_round)
    }

    /// Apply the direct decision rule to the specified leader to see whether we can direct-commit
    /// or direct-skip it.
    pub fn try_direct_decide(&self, leader: AuthorityIndex, leader_round: RoundNumber) -> (status:
        LeaderStatus)
        requires
            self.wf(),
            self@.wave_fits(leader_round),
            self@.directly_undisputed(leader, leader_round),
        ensures
            status@ == self@.direct_status(leader, leader_round),
    {
        // Check whether the leader has enough blame. That is, whether there are 4f+1 non-supports
        // for that leader.
        let wave: WaveNumber = self.wave_number(leader_round);
        let voting_round: RoundNumber = self.voting_round(wave);
        let decision_round: RoundNumber = self.decision_round(wave);
        if self.enough_leader_blame(voting_round, decision_round, leader) {
            return LeaderStatus::Skip(leader, leader_round);
        }
        // Check whether the leader(s) has enough support. That is, whether there are 4f+1
        // supports for the leader. Note that there could be more than one leader block
        // (created by Byzantine leaders).
        let leader_blocks: Vec<Data<StatementBlock>> =
            self.block_store.get_blocks_at_authority_round(leader, leader_round);
        let ghost proposals = self@.proposals(leader, leader_round);
        let ghost view = self@;
        let ghost supported = |proposal: BlockView|
            view.enough_support(voting_round, decision_round, proposal);
        let mut leaders_with_enough_support: Vec<Data<StatementBlock>> = Vec::new();
        let mut i: usize = 0;
        assert(views(leaders_with_enough_support@) =~= proposals.take(0).filter(supported)) by {
            reveal(Seq::filter);
        }
        while i < leader_blocks.len()
            invariant
                self.wf(),
                view == self@,
                i <= leader_blocks.len(),
                views(leader_blocks@) == proposals,
                supported == (|proposal: BlockView|
                    view.enough_support(voting_round, decision_round, proposal)),
                views(leaders_with_enough_support@) == proposals.take(i as int).filter(supported),
            decreases leader_blocks.len() - i,
        {
            let ghost before = leaders_with_enough_support@;
            assert(proposals[i as int] == leader_blocks[i as int]@);
            if self.enough_leader_support(voting_round, decision_round, &leader_blocks[i]) {
                leaders_with_enough_support.push(leader_blocks[i].clone());
                assert(views(leaders_with_enough_support@) =~= views(before).push(
                    proposals[i as int],
                ));
            }
            proof {
                reveal(Seq::filter);
                assert(proposals.take(i + 1).drop_last() =~= proposals.take(i as int));
            }
            i += 1;
        }
        proof {
            assert(proposals.take(i as int) =~= proposals);
            lemma_same_filter(
                proposals,
                supported,
                |proposal: BlockView|
                    view.enough_support(
                        view.voting_round_of(leader_round),
                        view.decision_round_of(leader_round),
                        proposal,
                    ),
            );
            assert(views(leaders_with_enough_support@) == view.directly_supported(
                leader,
                leader_round,
            ));
        }
        match leaders_with_enough_support.pop() {
            Some(leader_block) => LeaderStatus::Commit(leader_block),
            None => LeaderStatus::Undecided(leader, leader_round),
        }
    }

    /// The name of the committer, by its offsets.
    pub fn to_string(&self) -> (text: String)
        ensures
            text@ == self@.name(),
    {
        let mut text: String = String::from_str("Committer-L");
        append_decimal(&mut text, self.options.leader_offset);
        text.append("-R");
        append_decimal(&mut text, self.options.round_offset);
        text
    }
}

} // verus!
