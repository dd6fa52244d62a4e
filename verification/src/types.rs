//! Blocks, references to blocks, and the status of a leader.

use std::sync::Arc;
use vstd::prelude::*;

verus! {

/// The position of an authority in the committee.
pub type AuthorityIndex = u64;

/// The number of a round of the DAG. The genesis blocks are in round 0.
pub type RoundNumber = u64;

/// The voting power of an authority.
pub type Stake = u64;

/// What tells apart two blocks that one authority produced for the same round.
pub type BlockDigest = u64;

/// A block that several owners share.
pub type Data<T> = Arc<T>;

/// The name of a block.
#[derive(Clone, Copy, Debug, PartialEq, Eq, Structural)]
pub struct BlockReference {
    pub authority: AuthorityIndex,
    pub round: RoundNumber,
    pub digest: BlockDigest,
}

impl BlockReference {
    /// A reference to the only block of `authority` in `round`.
    pub fn new_test(authority: AuthorityIndex, round: RoundNumber) -> (reference: Self)
        ensures
            reference == (BlockReference { authority, round, digest: 0 }),
    {
        BlockReference { authority, round, digest: 0 }
    }
}

/// The contents of a [`StatementBlock`].
#[verifier::ext_equal]
pub struct BlockView {
    pub reference: BlockReference,
    pub includes: Seq<BlockReference>,
}

impl BlockView {
    pub open spec fn authority(self) -> AuthorityIndex {
        self.reference.authority
    }

    pub open spec fn round(self) -> RoundNumber {
        self.reference.round
    }

    /// The two are different blocks of the same authority in the same round.
    pub open spec fn rivals(self, other: BlockView) -> bool {
        &&& self.authority() == other.authority()
        &&& self.round() == other.round()
        &&& self.reference != other.reference
    }

    /// The block includes some block of `authority`.
    pub open spec fn names(self, authority: AuthorityIndex) -> bool {
        exists|k: int|
            0 <= k < self.includes.len() && #[trigger] self.includes[k].authority == authority
    }
}

/// A block of the DAG: its own reference, and the references of the blocks that it includes.
#[derive(Debug)]
pub struct StatementBlock {
    reference: BlockReference,
    includes: Vec<BlockReference>,
}

impl View for StatementBlock {
    type V = BlockView;

    closed spec fn view(&self) -> BlockView {
        BlockView { reference: self.reference, includes: self.includes@ }
    }
}

impl StatementBlock {
    pub fn new(reference: BlockReference, includes: Vec<BlockReference>) -> (block: Self)
        ensures
            block@ == (BlockView { reference, includes: includes@ }),
    {
        StatementBlock { reference, includes }
    }

    /// The block of `authority` in round 0, which includes nothing.
    pub fn new_genesis(authority: AuthorityIndex) -> (block: Data<Self>)
        ensures
            block@ == (BlockView {
                reference: BlockReference { authority, round: 0, digest: 0 },
                includes: Seq::empty(),
            }),
    {
        Arc::new(StatementBlock::new(BlockReference::new_test(authority, 0), Vec::new()))
    }

    pub fn reference(&self) -> (reference: &BlockReference)
        ensures
            *reference == self@.reference,
    {
        &self.reference
    }

    pub fn includes(&self) -> (includes: &Vec<BlockReference>)
        ensures
            includes@ == self@.includes,
    {
        &self.includes
    }

    pub fn author(&self) -> (authority: AuthorityIndex)
        ensures
            authority == self@.authority(),
    {
        self.reference.authority
    }

    pub fn round(&self) -> (round: RoundNumber)
        ensures
            round == self@.round(),
    {
        self.reference.round
    }

    /// Whether the block includes the block with this reference.
    pub fn includes_block(&self, reference: &BlockReference) -> (found: bool)
        ensures
            found == self@.includes.contains(*reference),
    {
        let mut k: usize = 0;
        while k < self.includes.len()
            invariant
                k <= self.includes.len(),
                forall|j: int| 0 <= j < k ==> self@.includes[j] != *reference,
            decreases self.includes.len() - k,
        {
            if self.includes[k] == *reference {
                assert(self@.includes[k as int] == *reference);
                return true;
            }
            k += 1;
        }
        false
    }

    /// Whether the block includes some block of `authority`.
    pub fn names(&self, authority: AuthorityIndex) -> (found: bool)
        ensures
            found == self@.names(authority),
    {
        let mut k: usize = 0;
        while k < self.includes.len()
            invariant
                k <= self.includes.len(),
                forall|j: int| 0 <= j < k ==> #[trigger] self@.includes[j].authority != authority,
            decreases self.includes.len() - k,
        {
            if self.includes[k].authority == authority {
                assert(self@.includes[k as int].authority == authority);
                return true;
            }
            k += 1;
        }
        false
    }
}

/// The contents of several blocks.
pub open spec fn views(blocks: Seq<Data<StatementBlock>>) -> Seq<BlockView> {
    Seq::new(blocks.len(), |i: int| blocks[i]@)
}

/// What a [`LeaderStatus`] says.
#[verifier::ext_equal]
pub enum StatusView {
    Commit(BlockView),
    Skip(AuthorityIndex, RoundNumber),
    Undecided(AuthorityIndex, RoundNumber),
}

impl StatusView {
    pub open spec fn round(self) -> RoundNumber {
        match self {
            StatusView::Commit(block) => block.round(),
            StatusView::Skip(_, round) => round,
            StatusView::Undecided(_, round) => round,
        }
    }

    pub open spec fn authority(self) -> AuthorityIndex {
        match self {
            StatusView::Commit(block) => block.authority(),
            StatusView::Skip(authority, _) => authority,
            StatusView::Undecided(authority, _) => authority,
        }
    }

    pub open spec fn is_decided(self) -> bool {
        !(self is Undecided)
    }
}

/// The status of a leader: whether its block is committed, whether it is skipped, or whether
/// the DAG does not tell yet.
#[derive(Debug)]
pub enum LeaderStatus {
    Commit(Data<StatementBlock>),
    Skip(AuthorityIndex, RoundNumber),
    Undecided(AuthorityIndex, RoundNumber),
}

impl View for LeaderStatus {
    type V = StatusView;

    open spec fn view(&self) -> StatusView {
        match *self {
            LeaderStatus::Commit(block) => StatusView::Commit(block@),
            LeaderStatus::Skip(authority, round) => StatusView::Skip(authority, round),
            LeaderStatus::Undecided(authority, round) => StatusView::Undecided(authority, round),
        }
    }
}

impl Clone for LeaderStatus {
    fn clone(&self) -> (status: Self)
        ensures
            status@ == self@,
    {
        match self {
            LeaderStatus::Commit(block) => LeaderStatus::Commit(block.clone()),
            LeaderStatus::Skip(authority, round) => LeaderStatus::Skip(*authority, *round),
            LeaderStatus::Undecided(authority, round) => LeaderStatus::Undecided(
                *authority,
                *round,
            ),
        }
    }
}

impl LeaderStatus {
    pub fn round(&self) -> (round: RoundNumber)
        ensures
            round == self@.round(),
    {
        match self {
            LeaderStatus::Commit(block) => block.round(),
            LeaderStatus::Skip(_, round) => *round,
            LeaderStatus::Undecided(_, round) => *round,
        }
    }

    pub fn authority(&self) -> (authority: AuthorityIndex)
        ensures
            authority == self@.authority(),
    {
        match self {
            LeaderStatus::Commit(block) => block.author(),
            LeaderStatus::Skip(authority, _) => *authority,
            LeaderStatus::Undecided(authority, _) => *authority,
        }
    }

    /// Whether the leader is committed or skipped.
    pub fn is_decided(&self) -> (decided: bool)
        ensures
            decided == self@.is_decided(),
    {
        match self {
            LeaderStatus::Commit(_) => true,
            LeaderStatus::Skip(_, _) => true,
            LeaderStatus::Undecided(_, _) => false,
        }
    }
}

} // verus!
