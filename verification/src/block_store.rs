//! The store of the blocks of the DAG, and the causal order between them.

use crate::types::{
    views, AuthorityIndex, BlockReference, BlockView, Data, RoundNumber, StatementBlock,
};
use vstd::prelude::*;

verus! {

/// `earlier` is `later` itself or is in its causal history: a chain of blocks leads from `later`
/// down to `earlier`, in which each block includes the next one, of a lower round. The blocks
/// between the two ends of the chain are among `blocks`.
pub open spec fn linked(blocks: Seq<BlockView>, later: BlockView, earlier: BlockView) -> bool
    decreases later.round() - earlier.round(),
{
    ||| later.reference == earlier.reference
    ||| earlier.round() < later.round() && later.includes.contains(earlier.reference)
    ||| exists|i: int|
        0 <= i < blocks.len() && earlier.round() < #[trigger] blocks[i].round() < later.round()
            && blocks[i].includes.contains(earlier.reference) && linked(blocks, later, blocks[i])
}

/// The highest round that has a block, or 0 where there is no block.
pub open spec fn highest_round(blocks: Seq<BlockView>) -> RoundNumber
    decreases blocks.len(),
{
    if blocks.len() == 0 {
        0
    } else {
        let highest = highest_round(blocks.drop_last());
        if blocks.last().round() > highest {
            blocks.last().round()
        } else {
            highest
        }
    }
}

/// The blocks of a round, in the order of the store.
pub open spec fn blocks_by_round(blocks: Seq<BlockView>, round: RoundNumber) -> Seq<BlockView> {
    blocks.filter(|block: BlockView| block.round() == round)
}

/// The blocks of an authority in a round, in the order of the store. An honest authority has at
/// most one.
pub open spec fn blocks_at_authority_round(
    blocks: Seq<BlockView>,
    authority: AuthorityIndex,
    round: RoundNumber,
) -> Seq<BlockView> {
    blocks.filter(|block: BlockView| block.authority() == authority && block.round() == round)
}

/// The other blocks that the authority of `block` has in its round, in the order of the store.
pub open spec fn rivals(blocks: Seq<BlockView>, block: BlockView) -> Seq<BlockView> {
    blocks.filter(|other: BlockView| other.rivals(block))
}

/// One of the blocks has this reference.
pub open spec fn has_reference(blocks: Seq<BlockView>, reference: BlockReference) -> bool {
    exists|i: int| 0 <= i < blocks.len() && #[trigger] blocks[i].reference == reference
}

/// No two of the blocks have the same reference.
pub open spec fn distinct_references(blocks: Seq<BlockView>) -> bool {
    forall|i: int, j: int|
        0 <= i < j < blocks.len() ==> #[trigger] blocks[i].reference
            != #[trigger] blocks[j].reference
}

/// The blocks of the DAG that are known.
#[derive(Debug)]
pub struct BlockStore {
    blocks: Vec<Data<StatementBlock>>,
    highest_round: RoundNumber,
}

impl View for BlockStore {
    type V = Seq<BlockView>;

    closed spec fn view(&self) -> Seq<BlockView> {
        views(self.blocks@)
    }
}

impl Clone for BlockStore {
    fn clone(&self) -> (store: Self)
        ensures
            store@ == self@,
            store.wf() == self.wf(),
    {
        let mut blocks: Vec<Data<StatementBlock>> = Vec::new();
        let mut i: usize = 0;
        while i < self.blocks.len()
            invariant
                i <= self.blocks.len(),
                blocks.len() == i,
                forall|j: int| 0 <= j < i ==> blocks[j]@ == self.blocks[j]@,
            decreases self.blocks.len() - i,
        {
            blocks.push(self.blocks[i].clone());
            i += 1;
        }
        let store = BlockStore { blocks, highest_round: self.highest_round };
        assert(store@ =~= self@);
        store
    }
}

impl BlockStore {
    /// No two blocks have the same reference, and the highest round is on record.
    pub closed spec fn wf(&self) -> bool {
        &&& self.highest_round == highest_round(self@)
        &&& distinct_references(self@)
    }

    /// What a well formed store gives.
    pub proof fn lemma_wf(&self)
        requires
            self.wf(),
        ensures
            distinct_references(self@),
    {
    }

    /// A store without blocks.
    pub fn new() -> (store: Self)
        ensures
            store.wf(),
            store@ == Seq::<BlockView>::empty(),
    {
        let store = BlockStore { blocks: Vec::new(), highest_round: 0 };
        assert(store@ =~= Seq::<BlockView>::empty());
        store
    }

    /// Adds a block, unless the store has one with the same reference.
    pub fn add_block(&mut self, block: Data<StatementBlock>)
        requires
            old(self).wf(),
        ensures
            final(self).wf(),
            final(self)@ == if has_reference(old(self)@, block@.reference) {
                old(self)@
            } else {
                old(self)@.push(block@)
            },
    {
        let mut i: usize = 0;
        while i < self.blocks.len()
            invariant
                i <= self.blocks.len(),
                *self == *old(self),
                old(self).wf(),
                forall|j: int| 0 <= j < i ==> #[trigger] self@[j].reference != block@.reference,
            decreases self.blocks.len() - i,
        {
            if *self.blocks[i].reference() == *block.reference() {
                assert(self@[i as int].reference == block@.reference);
                return ;
            }
            assert(self@[i as int].reference != block@.reference);
            i += 1;
        }
        let ghost before = self@;
        if block.round() > self.highest_round {
            self.highest_round = block.round();
        }
        self.blocks.push(block);
        assert(self@ =~= before.push(block@));
        assert(self@.drop_last() =~= before);
    }

    /// The highest round that has a block, or 0 where there is no block.
    pub fn highest_round(&self) -> (round: RoundNumber)
        requires
            self.wf(),
        ensures
            round == highest_round(self@),
    {
        self.highest_round
    }

    /// The blocks of a round.
    pub fn get_blocks_by_round(&self, round: RoundNumber) -> (found: Vec<Data<StatementBlock>>)
        ensures
            views(found@) == blocks_by_round(self@, round),
    {
        let ghost wanted = |block: BlockView| block.round() == round;
        let mut found: Vec<Data<StatementBlock>> = Vec::new();
        let mut i: usize = 0;
        assert(views(found@) =~= self@.take(0).filter(wanted)) by {
            reveal(Seq::filter);
        }
        while i < self.blocks.len()
            invariant
                i <= self.blocks.len(),
                wanted == (|block: BlockView| block.round() == round),
                views(found@) == self@.take(i as int).filter(wanted),
            decreases self.blocks.len() - i,
        {
            let ghost before = found@;
            if self.blocks[i].round() == round {
                found.push(self.blocks[i].clone());
                assert(views(found@) =~= views(before).push(self@[i as int]));
            }
            proof {
                reveal(Seq::filter);
                assert(self@.take(i + 1).drop_last() =~= self@.take(i as int));
            }
            i += 1;
        }
        assert(self@.take(i as int) =~= self@);
        found
    }

    /// The blocks of an authority in a round. There can be more than one (produced by a Byzantine
    /// authority).
    pub fn get_blocks_at_authority_round(
        &self,
        authority: AuthorityIndex,
        round: RoundNumber,
    ) -> (found: Vec<Data<StatementBlock>>)
        ensures
            views(found@) == blocks_at_authority_round(self@, authority, round),
    {
        let ghost wanted = |block: BlockView|
            block.authority() == authority && block.round() == round;
        let mut found: Vec<Data<StatementBlock>> = Vec::new();
        let mut i: usize = 0;
        assert(views(found@) =~= self@.take(0).filter(wanted)) by {
            reveal(Seq::filter);
        }
        while i < self.blocks.len()
            invariant
                i <= self.blocks.len(),
                wanted == (|block: BlockView|
                    block.authority() == authority && block.round() == round),
                views(found@) == self@.take(i as int).filter(wanted),
            decreases self.blocks.len() - i,
        {
            let ghost before = found@;
            if self.blocks[i].author() == authority && self.blocks[i].round() == round {
                found.push(self.blocks[i].clone());
                assert(views(found@) =~= views(before).push(self@[i as int]));
            }
            proof {
                reveal(Seq::filter);
                assert(self@.take(i + 1).drop_last() =~= self@.take(i as int));
            }
            i += 1;
        }
        assert(self@.take(i as int) =~= self@);
        found
    }

    /// The other blocks that the authority of `block` has in its round.
    pub fn get_rivals(&self, block: &StatementBlock) -> (found: Vec<Data<StatementBlock>>)
        ensures
            views(found@) == rivals(self@, block@),
    {
        let ghost wanted = |other: BlockView| other.rivals(block@);
        let mut found: Vec<Data<StatementBlock>> = Vec::new();
        let mut i: usize = 0;
        assert(views(found@) =~= self@.take(0).filter(wanted)) by {
            reveal(Seq::filter);
        }
        while i < self.blocks.len()
            invariant
                i <= self.blocks.len(),
                wanted == (|other: BlockView| other.rivals(block@)),
                views(found@) == self@.take(i as int).filter(wanted),
            decreases self.blocks.len() - i,
        {
            let ghost before = found@;
            if self.blocks[i].author() == block.author() && self.blocks[i].round() == block.round()
                && *self.blocks[i].reference() != *block.reference() {
                found.push(self.blocks[i].clone());
                assert(views(found@) =~= views(before).push(self@[i as int]));
            }
            proof {
                reveal(Seq::filter);
                assert(self@.take(i + 1).drop_last() =~= self@.take(i as int));
            }
            i += 1;
        }
        assert(self@.take(i as int) =~= self@);
        found
    }

    /// Marks the blocks of the rounds between `above` and that of `later`, both left out, that are
    /// in the causal history of `later`.
    fn ancestors(&self, later: &StatementBlock, above: RoundNumber) -> (marks: Vec<bool>)
        requires
            above < later@.round(),
        ensures
            marks.len() == self@.len(),
            forall|i: int|
                0 <= i < marks.len() ==> #[trigger] marks[i] == (above < self@[i].round()
                    < later@.round() && linked(self@, later@, self@[i])),
    {
        let mut marks: Vec<bool> = Vec::new();
        while marks.len() < self.blocks.len()
            invariant
                marks.len() <= self.blocks.len(),
                forall|i: int| 0 <= i < marks.len() ==> !#[trigger] marks[i],
            decreases self.blocks.len() - marks.len(),
        {
            marks.push(false);
        }
        // The blocks of the rounds from `done` on are marked, one round at a time.
        let mut done: RoundNumber = later.round();
        while above + 1 < done
            invariant
                above < done <= later@.round(),
                marks.len() == self@.len(),
                forall|i: int|
                    0 <= i < marks.len() ==> #[trigger] marks[i] == (done <= self@[i].round()
                        < later@.round() && linked(self@, later@, self@[i])),
            decreases done,
        {
            let round: RoundNumber = done - 1;
            let ghost above_round = marks@;
            let mut i: usize = 0;
            while i < self.blocks.len()
                invariant
                    i <= self.blocks.len(),
                    round + 1 == done <= later@.round(),
                    marks.len() == self@.len() == above_round.len(),
                    forall|j: int|
                        0 <= j < above_round.len() ==> #[trigger] above_round[j] == (done
                            <= self@[j].round() < later@.round() && linked(
                            self@,
                            later@,
                            self@[j],
                        )),
                    forall|j: int|
                        0 <= j < marks.len() ==> #[trigger] marks[j] == if j < i
                            && self@[j].round() == round {
                            linked(self@, later@, self@[j])
                        } else {
                            above_round[j]
                        },
                decreases self.blocks.len() - i,
            {
                if self.blocks[i].round() == round {
                    let found: bool = self.is_included(later, &marks, &self.blocks[i]);
                    marks.set(i, found);
                }
                i += 1;
            }
            done = round;
        }
        marks
    }

    /// Whether `later`, or a marked block of a higher round, includes `block`.
    fn is_included(&self, later: &StatementBlock, marks: &Vec<bool>, block: &StatementBlock) -> (found:
        bool)
        requires
            marks.len() == self@.len(),
        ensures
            found == (later@.includes.contains(block@.reference) || exists|j: int|
                0 <= j < self@.len() && marks[j] && block@.round() < #[trigger] self@[j].round()
                    && self@[j].includes.contains(block@.reference)),
    {
        if later.includes_block(block.reference()) {
            return true;
        }
        let mut j: usize = 0;
        while j < self.blocks.len()
            invariant
                j <= self.blocks.len(),
                marks.len() == self@.len(),
                forall|k: int|
                    0 <= k < j ==> !(marks[k] && block@.round() < #[trigger] self@[k].round()
                        && self@[k].includes.contains(block@.reference)),
            decreases self.blocks.len() - j,
        {
            if marks[j] && block.round() < self.blocks[j].round()
                && self.blocks[j].includes_block(block.reference()) {
                assert(marks[j as int] && block@.round() < self@[j as int].round()
                    && self@[j as int].includes.contains(block@.reference));
                return true;
            }
            j += 1;
        }
        false
    }

    /// Whether `earlier_block` is `later_block` or is in its causal history.
    pub fn linked(&self, later_block: &StatementBlock, earlier_block: &StatementBlock) -> (found:
        bool)
        ensures
            found == linked(self@, later_block@, earlier_block@),
    {
        if *later_block.reference() == *earlier_block.reference() {
            return true;
        }
        if earlier_block.round() >= later_block.round() {
            return false;
        }
        let marks: Vec<bool> = self.ancestors(later_block, earlier_block.round());
        self.is_included(later_block, &marks, earlier_block)
    }
}

} // verus!
