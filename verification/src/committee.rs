//! The committee: who votes with how much stake, and how much stake is enough.
//!
//! The committee tolerates `f` faulty authorities out of `5f + 1`. A quorum is `4f + 1`, which
//! with unequal stakes reads more than four fifths of the total stake. In the same way, `2f + 1`
//! reads more than two fifths, and `f + 1` more than one fifth.

use std::marker::PhantomData;

use crate::types::{AuthorityIndex, RoundNumber, Stake};
use vstd::prelude::*;

verus! {

/// The sum of all `stakes`.
pub open spec fn total_stake(stakes: Seq<Stake>) -> nat
    decreases stakes.len(),
{
    if stakes.len() == 0 {
        0
    } else {
        total_stake(stakes.drop_last()) + stakes.last() as nat
    }
}

/// The sum of the stakes of `members`. The stake of authority `i` is `stakes[i]`; who is not in
/// the committee has none.
pub open spec fn stake_of(stakes: Seq<Stake>, members: Set<AuthorityIndex>) -> nat
    decreases stakes.len(),
{
    if stakes.len() == 0 {
        0
    } else {
        stake_of(stakes.drop_last(), members) + if members.contains((stakes.len() - 1) as u64) {
            stakes.last() as nat
        } else {
            0
        }
    }
}

/// More than four fifths of the total stake.
pub open spec fn is_quorum(stakes: Seq<Stake>, amount: nat) -> bool {
    5 * amount > 4 * total_stake(stakes)
}

/// More than two fifths of the total stake.
pub open spec fn is_indirect_quorum(stakes: Seq<Stake>, amount: nat) -> bool {
    5 * amount > 2 * total_stake(stakes)
}

/// More than one fifth of the total stake.
pub open spec fn is_validity_quorum(stakes: Seq<Stake>, amount: nat) -> bool {
    5 * amount > total_stake(stakes)
}

/// The leader of a round, by rotation.
pub open spec fn leader_by_rotation(stakes: Seq<Stake>, round: RoundNumber) -> AuthorityIndex {
    (round as int % stakes.len() as int) as u64
}

/// More members never have less stake.
pub proof fn lemma_stake_of_is_monotone(
    stakes: Seq<Stake>,
    a: Set<AuthorityIndex>,
    b: Set<AuthorityIndex>,
)
    requires
        a.subset_of(b),
    ensures
        stake_of(stakes, a) <= stake_of(stakes, b),
    decreases stakes.len(),
{
    if stakes.len() > 0 {
        lemma_stake_of_is_monotone(stakes.drop_last(), a, b);
    }
}

/// No set of members has more than the total stake.
pub proof fn lemma_stake_of_at_most_total(stakes: Seq<Stake>, members: Set<AuthorityIndex>)
    ensures
        stake_of(stakes, members) <= total_stake(stakes),
    decreases stakes.len(),
{
    if stakes.len() > 0 {
        lemma_stake_of_at_most_total(stakes.drop_last(), members);
    }
}

/// What two sets of members have together, and what they have in common, add up.
pub proof fn lemma_stake_of_union(
    stakes: Seq<Stake>,
    a: Set<AuthorityIndex>,
    b: Set<AuthorityIndex>,
)
    ensures
        stake_of(stakes, a) + stake_of(stakes, b) == stake_of(stakes, a.union(b)) + stake_of(
            stakes,
            a.intersect(b),
        ),
    decreases stakes.len(),
{
    if stakes.len() > 0 {
        lemma_stake_of_union(stakes.drop_last(), a, b);
    }
}

/// Nobody has no stake.
pub proof fn lemma_stake_of_nobody(stakes: Seq<Stake>)
    ensures
        stake_of(stakes, Set::empty()) == 0,
    decreases stakes.len(),
{
    if stakes.len() > 0 {
        lemma_stake_of_nobody(stakes.drop_last());
    }
}

/// A new member brings its own stake.
pub(crate) proof fn lemma_stake_of_insert(stakes: Seq<Stake>, members: Set<AuthorityIndex>, new: AuthorityIndex)
    requires
        !members.contains(new),
        stakes.len() <= u64::MAX,
    ensures
        stake_of(stakes, members.insert(new)) == stake_of(stakes, members) + if new
            < stakes.len() {
            stakes[new as int] as nat
        } else {
            0
        },
    decreases stakes.len(),
{
    if stakes.len() > 0 {
        lemma_stake_of_insert(stakes.drop_last(), members, new);
    }
}

/// The authorities, with their stakes. It is never empty, and the total stake fits a `Stake`.
#[derive(Debug)]
pub struct Committee {
    stakes: Vec<Stake>,
    total_stake: Stake,
}

impl View for Committee {
    type V = Seq<Stake>;

    closed spec fn view(&self) -> Seq<Stake> {
        self.stakes@
    }
}

impl Committee {
    /// There is an authority, and the total stake is on record.
    pub closed spec fn wf(&self) -> bool {
        &&& self.stakes.len() > 0
        &&& self.total_stake == total_stake(self.stakes@)
    }

    /// What a well formed committee gives.
    pub proof fn lemma_wf(&self)
        requires
            self.wf(),
        ensures
            0 < self@.len() <= usize::MAX,
            total_stake(self@) <= Stake::MAX,
    {
    }

    /// The committee in which authority `i` has stake `stakes[i]`.
    pub fn new(stakes: Vec<Stake>) -> (committee: Self)
        requires
            stakes.len() > 0,
            total_stake(stakes@) <= Stake::MAX,
        ensures
            committee.wf(),
            committee@ == stakes@,
    {
        let mut total: Stake = 0;
        let mut i: usize = 0;
        while i < stakes.len()
            invariant
                i <= stakes.len(),
                total == total_stake(stakes@.take(i as int)),
                total_stake(stakes@) <= Stake::MAX,
            decreases stakes.len() - i,
        {
            proof {
                lemma_total_stake_of_prefix(stakes@, i + 1);
                assert(stakes@.take(i + 1).drop_last() =~= stakes@.take(i as int));
            }
            total = total + stakes[i];
            i += 1;
        }
        assert(stakes@.take(i as int) =~= stakes@);
        Committee { stakes, total_stake: total }
    }

    /// The number of authorities.
    pub fn len(&self) -> (len: usize)
        ensures
            len == self@.len(),
    {
        self.stakes.len()
    }

    /// The stake of an authority; who is not in the committee has none.
    pub fn get_stake(&self, authority: AuthorityIndex) -> (stake: Stake)
        ensures
            stake == if authority < self@.len() {
                self@[authority as int]
            } else {
                0
            },
    {
        if authority < self.stakes.len() as u64 {
            self.stakes[authority as usize]
        } else {
            0
        }
    }

    /// The leader of a round: the authorities take turns.
    pub fn elect_leader(&self, round: RoundNumber) -> (leader: AuthorityIndex)
        requires
            self.wf(),
        ensures
            leader == leader_by_rotation(self@, round),
            leader < self@.len(),
    {
        round % (self.stakes.len() as u64)
    }

    /// Whether `amount` is at least `4f + 1`.
    pub fn is_quorum(&self, amount: Stake) -> (reached: bool)
        requires
            self.wf(),
        ensures
            reached == is_quorum(self@, amount as nat),
    {
        5 * (amount as u128) > 4 * (self.total_stake as u128)
    }

    /// Whether `amount` is at least `2f + 1`.
    pub fn is_indirect_quorum(&self, amount: Stake) -> (reached: bool)
        requires
            self.wf(),
        ensures
            reached == is_indirect_quorum(self@, amount as nat),
    {
        5 * (amount as u128) > 2 * (self.total_stake as u128)
    }

    /// The least stake that makes a quorum, `4f + 1`.
    pub fn quorum_threshold(&self) -> (threshold: Stake)
        requires
            self.wf(),
        ensures
            is_quorum(self@, threshold as nat),
            forall|less: nat| less < threshold ==> !#[trigger] is_quorum(self@, less),
    {
        (4 * (self.total_stake as u128) / 5 + 1) as u64
    }

    /// The least stake that makes an indirect quorum, `2f + 1`.
    pub fn indirect_threshold(&self) -> (threshold: Stake)
        requires
            self.wf(),
        ensures
            is_indirect_quorum(self@, threshold as nat),
            forall|less: nat| less < threshold ==> !#[trigger] is_indirect_quorum(self@, less),
    {
        (2 * (self.total_stake as u128) / 5 + 1) as u64
    }

    /// The least stake that an honest authority must have a part in, `f + 1`.
    pub fn validity_threshold(&self) -> (threshold: Stake)
        requires
            self.wf(),
        ensures
            is_validity_quorum(self@, threshold as nat),
            forall|less: nat| less < threshold ==> !#[trigger] is_validity_quorum(self@, less),
    {
        self.total_stake / 5 + 1
    }
}

/// A part of the committee does not have more stake than the committee.
proof fn lemma_total_stake_of_prefix(stakes: Seq<Stake>, len: int)
    requires
        0 <= len <= stakes.len(),
    ensures
        total_stake(stakes.take(len)) <= total_stake(stakes),
    decreases stakes.len(),
{
    if len < stakes.len() {
        lemma_total_stake_of_prefix(stakes.drop_last(), len);
        assert(stakes.drop_last().take(len) =~= stakes.take(len));
    } else {
        assert(stakes.take(len) =~= stakes);
    }
}

/// How much stake is enough.
pub trait CommitteeThreshold: Sized {
    /// `amount` is enough in a committee with these stakes.
    spec fn reached(stakes: Seq<Stake>, amount: nat) -> bool;

    /// Whether `amount` is enough in `committee`.
    fn is_threshold(committee: &Committee, amount: Stake) -> (reached: bool)
        requires
            committee.wf(),
        ensures
            reached == Self::reached(committee@, amount as nat),
    ;
}

/// `4f + 1`.
pub struct QuorumThreshold;

/// `2f + 1`.
pub struct IndirectQuorumThreshold;

impl CommitteeThreshold for QuorumThreshold {
    open spec fn reached(stakes: Seq<Stake>, amount: nat) -> bool {
        is_quorum(stakes, amount)
    }

    fn is_threshold(committee: &Committee, amount: Stake) -> (reached: bool) {
        committee.is_quorum(amount)
    }
}

impl CommitteeThreshold for IndirectQuorumThreshold {
    open spec fn reached(stakes: Seq<Stake>, amount: nat) -> bool {
        is_indirect_quorum(stakes, amount)
    }

    fn is_threshold(committee: &Committee, amount: Stake) -> (reached: bool) {
        committee.is_indirect_quorum(amount)
    }
}

/// Adds up the stake of a set of authorities. An authority counts once, however often it is
/// added.
#[verifier::reject_recursive_types(TH)]
pub struct StakeAggregator<TH> {
    votes: Vec<AuthorityIndex>,
    stake: Stake,
    threshold: PhantomData<TH>,
}

impl<TH> View for StakeAggregator<TH> {
    type V = Set<AuthorityIndex>;

    closed spec fn view(&self) -> Set<AuthorityIndex> {
        self.votes@.to_set()
    }
}

impl<TH: CommitteeThreshold> StakeAggregator<TH> {
    /// The stake that was added up is that of the authorities in a committee with these stakes.
    pub closed spec fn wf(&self, stakes: Seq<Stake>) -> bool {
        self.stake == stake_of(stakes, self@)
    }

    pub fn new() -> (aggregator: Self)
        ensures
            aggregator@ == Set::<AuthorityIndex>::empty(),
            forall|stakes: Seq<Stake>| #[trigger] aggregator.wf(stakes),
    {
        let aggregator = StakeAggregator { votes: Vec::new(), stake: 0, threshold: PhantomData };
        proof {
            assert(aggregator@ =~= Set::<AuthorityIndex>::empty());
            assert forall|stakes: Seq<Stake>| #[trigger] aggregator.wf(stakes) by {
                lemma_stake_of_nobody(stakes);
            }
        }
        aggregator
    }

    /// The stake of the authorities that were added.
    pub fn stake(&self, committee: &Committee) -> (stake: Stake)
        requires
            self.wf(committee@),
        ensures
            stake == stake_of(committee@, self@),
    {
        self.stake
    }

    /// Adds an authority, and tells whether the stake is enough now.
    pub fn add(&mut self, vote: AuthorityIndex, committee: &Committee) -> (reached: bool)
        requires
            committee.wf(),
            old(self).wf(committee@),
        ensures
            final(self).wf(committee@),
            final(self)@ == old(self)@.insert(vote),
            reached == TH::reached(committee@, stake_of(committee@, final(self)@)),
    {
        let mut k: usize = 0;
        let mut known: bool = false;
        while k < self.votes.len()
            invariant
                k <= self.votes.len(),
                known == self.votes@.take(k as int).contains(vote),
            decreases self.votes.len() - k,
        {
            if self.votes[k] == vote {
                known = true;
            }
            proof {
                let before = self.votes@.take(k as int);
                let after = self.votes@.take(k + 1);
                assert(after =~= before.push(self.votes@[k as int]));
                if before.contains(vote) {
                    let j = choose|j: int| 0 <= j < before.len() && before[j] == vote;
                    assert(after[j] == vote);
                }
                assert(after[k as int] == self.votes@[k as int]);
            }
            k += 1;
        }
        assert(self.votes@.take(k as int) =~= self.votes@);
        if !known {
            proof {
                lemma_stake_of_insert(committee@, self@, vote);
                lemma_stake_of_at_most_total(committee@, self@.insert(vote));
            }
            self.stake = self.stake + committee.get_stake(vote);
            let ghost before = self.votes@;
            self.votes.push(vote);
            assert(self@ =~= old(self)@.insert(vote)) by {
                let after = self.votes@;
                assert forall|a: AuthorityIndex| before.contains(a) implies after.contains(a) by {
                    let j = choose|j: int| 0 <= j < before.len() && before[j] == a;
                    assert(after[j] == a);
                }
                assert(after[before.len() as int] == vote);
            }
        } else {
            assert(self@ =~= old(self)@.insert(vote));
        }
        TH::is_threshold(committee, self.stake)
    }
}

} // verus!
