use vstd::prelude::*;
use crate::aggregator::{
    ABAProofMaker, ABARandomCoinMaker, Aggregator, QCMaker, TCMaker, aba_proof_assembled, aba_vals_checked, timeouts_checked,
    votes_checked,
};
use crate::config::{Authority, Committee, SeqNumber};
use crate::crypto::{Digest, PublicKey, SignatureService, TssPublicKeySet, ed25519_signature};
use crate::error::{ConsensusError, ConsensusResult};
use crate::messages::{
    ABAProof, ABAVal, Block, QC, RandomnessShare, TC, Timeout, Vote, aba_proof_outcome, aba_val_signed, block_outcome,
    qc_outcome, qc_signed, share_check, timeout_outcome,
};
use crate::util::VecMap;

verus! {

/// ABA phase before the view change has a TC to start from.
pub const INIT_PHASE: u8 = 0;
/// ABA phase in which values are broadcast and echoed.
pub const VAL_PHASE: u8 = 1;
/// ABA phase in which auxiliary values are broadcast.
pub const AUX_PHASE: u8 = 2;
/// ABA phase in which the common coin is tossed.
pub const COIN_PHASE: u8 = 3;

/// Messages of the chains (HotStuff) travel on their own channel.
pub const HOTSTUFF: u8 = 0;
/// Messages of the view change travel on their own channel.
pub const TCVBA: u8 = 1;


/// How far the chain of our own block jumps ahead when a new epoch starts.
pub const NEXT_EPOCH_HEIGHT: u64 = 10;
/// How many heights the leader chain may fall behind another chain before a
/// view change starts.
pub const LAMBDA_VAL: u64 = 10;

// ---------------------------------------------------------------------------
// Chains
// ---------------------------------------------------------------------------

/// The state of one authority's chain as this node sees it.
pub struct Chain {
    pub name: PublicKey,
    pub height: SeqNumber,
    pub last_voted_height: SeqNumber,
    pub last_committed_height: SeqNumber,
    pub aggregator: Aggregator,
    pub high_qc: QC,
    pub height_to_digest: VecMap<SeqNumber, Digest>,
}

/// Whether the heights of two QCs and their digests agree.
pub open spec fn same_qc(a: QC, b: QC) -> bool {
    a.hash == b.hash && a.epoch == b.epoch && a.height == b.height && a.votes@ == b.votes@
}

/// Whether a chain may vote for `block`: the block is not of an older
/// epoch, does not come from the leader while the view changes, is higher
/// than every block voted for, and extends its QC directly or genesis.
pub open spec fn may_vote(last_voted: SeqNumber, block: Block, epoch: SeqNumber, is_view_change: bool, leader: PublicKey) -> bool {
    &&& epoch <= block.epoch
    &&& !(is_view_change && block.author == leader)
    &&& block.height > last_voted
    &&& (block.qc.height + 1 == block.height || block.qc.is_genesis())
}

/// Where committing a chain up to some height goes on.
pub enum CommitStep {
    /// Everything up to the height is committed.
    Done,
    /// The next block to commit has this digest.
    Fetch(Digest),
    /// The digest of the next height is not known yet.
    Missing,
}

impl Chain {
    /// The aggregator is well formed, counts with the committee's stake, and
    /// holds only checked votes and timeouts.
    pub open spec fn wf(self, c: Committee) -> bool {
        &&& self.aggregator.wf()
        &&& self.aggregator.committee.members() == c.members()
        &&& votes_checked(self.aggregator)
        &&& timeouts_checked(self.aggregator)
        &&& self.height_to_digest.wf()
    }

    /// The other fields than the vote heights are those of `other`.
    pub open spec fn same_but_votes(self, other: Chain) -> bool {
        &&& self.name == other.name
        &&& self.height == other.height
        &&& self.last_committed_height == other.last_committed_height
        &&& self.aggregator == other.aggregator
        &&& same_qc(self.high_qc, other.high_qc)
        &&& self.height_to_digest@ == other.height_to_digest@
    }

    /// `self` is `old` after taking `qc` in `epoch`: the chain moved past the
    /// QC's height (dropping the vote makers below its new height and the
    /// timeout makers of earlier epochs), recorded the certified digest, and
    /// kept the higher of the two QCs.
    pub open spec fn took_qc(self, old: Chain, qc: QC, epoch: SeqNumber) -> bool {
        &&& self.height == if qc.height < old.height { old.height } else { (qc.height + 1) as SeqNumber }
        &&& self.height_to_digest@ == old.height_to_digest@.insert(qc.height, qc.hash)
        &&& qc.height > old.high_qc.height ==> same_qc(self.high_qc, qc)
        &&& qc.height <= old.high_qc.height ==> same_qc(self.high_qc, old.high_qc)
        &&& self.name == old.name
        &&& self.last_voted_height == old.last_voted_height
        &&& self.last_committed_height == old.last_committed_height
        &&& self.aggregator.committee == old.aggregator.committee
        &&& qc.height < old.height ==> self.aggregator == old.aggregator
        &&& qc.height >= old.height ==> {
            &&& forall|h: SeqNumber| self.aggregator.votes_aggregators@.contains_key(h)
                <==> (old.aggregator.votes_aggregators@.contains_key(h) && h >= self.height)
            &&& forall|e: SeqNumber| self.aggregator.timeouts_aggregators@.contains_key(e)
                <==> (old.aggregator.timeouts_aggregators@.contains_key(e) && e >= epoch)
        }
    }

    /// The chain is a fresh chain of `name` counting with `committee`:
    /// height 1, nothing voted or committed, the genesis QC (epoch 0, no
    /// votes) as highest QC, no digest known by height, and an aggregator
    /// with the committee's members that has gathered nothing.
    pub open spec fn is_fresh(self, name: PublicKey, committee: Committee) -> bool {
        &&& self.name == name
        &&& self.height == 1
        &&& self.last_voted_height == 0
        &&& self.last_committed_height == 0
        &&& self.high_qc.is_genesis()
        &&& self.high_qc.epoch == 0
        &&& self.high_qc.votes@.len() == 0
        &&& self.height_to_digest@ == Map::<SeqNumber, Digest>::empty()
        &&& self.aggregator.committee.members() == committee.members()
        &&& self.aggregator.committee.spec_epoch() == committee.spec_epoch()
        &&& self.aggregator.votes_aggregators@ == Map::<SeqNumber, VecMap<Digest, QCMaker>>::empty()
        &&& self.aggregator.timeouts_aggregators@ == Map::<SeqNumber, TCMaker>::empty()
        &&& self.aggregator.aba_vals_aggregators@ == Map::<(SeqNumber, SeqNumber, u8, u64), ABAProofMaker>::empty()
        &&& self.aggregator.aba_randomcoin_aggregators@ == Map::<(SeqNumber, SeqNumber), ABARandomCoinMaker>::empty()
    }

    /// A fresh chain of `name`: height 1, nothing voted or committed.
    pub fn new(name: PublicKey, committee: Committee) -> (ch: Chain)
        requires
            committee.wf(),
        ensures
            ch.wf(committee),
            ch.is_fresh(name, committee),
            ch.aggregator.committee == committee,
    {
        Chain {
            name,
            height: 1,
            last_voted_height: 0,
            last_committed_height: 0,
            aggregator: Aggregator::new(committee),
            high_qc: QC::genesis(),
            height_to_digest: VecMap::new(),
        }
    }

    /// Raises the height last voted for to `target`, if it is higher.
    pub fn increase_last_voted_round(&mut self, target: SeqNumber)
        ensures
            final(self).last_voted_height == if target > old(self).last_voted_height {
                target
            } else {
                old(self).last_voted_height
            },
            final(self).same_but_votes(*old(self)),
    {
        if target > self.last_voted_height {
            self.last_voted_height = target;
        }
    }

    /// Decides whether to vote for `block` and, if so, records its height as
    /// the last voted for. Votes go to strictly increasing heights, so two
    /// blocks of one height never both get a vote.
    pub fn make_vote(&mut self, block: &Block, epoch: SeqNumber, is_view_change: bool, leader: &PublicKey) -> (ok: bool)
        requires
            block.qc.height < SeqNumber::MAX,
        ensures
            ok == may_vote(old(self).last_voted_height, *block, epoch, is_view_change, *leader),
            ok ==> final(self).last_voted_height == block.height,
            !ok ==> final(self).last_voted_height == old(self).last_voted_height,
            final(self).last_voted_height >= old(self).last_voted_height,
            final(self).same_but_votes(*old(self)),
    {
        if epoch > block.epoch {
            return false;
        }
        if is_view_change && block.author == *leader {
            return false;
        }
        let safety_rule_1 = block.height > self.last_voted_height;
        let genesis = QC::genesis();
        proof {
            crate::crypto::lemma_digest_view_eq(block.qc.hash, genesis.hash);
        }
        let safety_rule_2 = block.qc.height + 1 == block.height || block.qc == genesis;
        if !(safety_rule_1 && safety_rule_2) {
            return false;
        }
        self.increase_last_voted_round(block.height);
        true
    }

    /// Records the digest certified at the QC's height and keeps the QC if
    /// it is the highest seen. The highest QC never goes down.
    pub fn update_high_qc(&mut self, qc: &QC)
        requires
            old(self).height_to_digest.wf(),
        ensures
            final(self).height_to_digest.wf(),
            final(self).height_to_digest@ == old(self).height_to_digest@.insert(qc.height, qc.hash),
            qc.height > old(self).high_qc.height ==> same_qc(final(self).high_qc, *qc),
            qc.height <= old(self).high_qc.height ==> same_qc(final(self).high_qc, old(self).high_qc),
            final(self).high_qc.height >= old(self).high_qc.height,
            final(self).name == old(self).name,
            final(self).height == old(self).height,
            final(self).last_voted_height == old(self).last_voted_height,
            final(self).last_committed_height == old(self).last_committed_height,
            final(self).aggregator == old(self).aggregator,
    {
        self.height_to_digest.insert(qc.height, qc.hash);
        if qc.height > self.high_qc.height {
            self.high_qc = qc.clone();
        }
    }

    /// Moves the chain past `height`, unless it is there already, and drops
    /// the vote and timeout makers left behind. The height never goes down.
    pub fn advance_height(&mut self, height: SeqNumber, epoch: SeqNumber)
        requires
            old(self).aggregator.wf(),
            height < SeqNumber::MAX,
        ensures
            final(self).aggregator.wf(),
            final(self).height == if height < old(self).height { old(self).height } else { (height + 1) as SeqNumber },
            final(self).height >= old(self).height,
            height >= old(self).height ==> ({
                let a = final(self).aggregator;
                let o = old(self).aggregator;
                &&& a.committee == o.committee
                &&& forall|h: SeqNumber| a.votes_aggregators@.contains_key(h)
                    <==> (o.votes_aggregators@.contains_key(h) && h >= final(self).height)
                &&& forall|e: SeqNumber| a.timeouts_aggregators@.contains_key(e)
                    <==> (o.timeouts_aggregators@.contains_key(e) && e >= epoch)
            }),
            height < old(self).height ==> final(self).aggregator == old(self).aggregator,
            final(self).aggregator.committee == old(self).aggregator.committee,
            forall|e: SeqNumber| #[trigger] final(self).aggregator.timeouts_aggregators@.contains_key(e)
                ==> old(self).aggregator.timeouts_aggregators@.contains_key(e)
                && final(self).aggregator.timeouts_aggregators@[e] == old(self).aggregator.timeouts_aggregators@[e],
            forall|e: SeqNumber| e >= epoch && #[trigger] old(self).aggregator.timeouts_aggregators@.contains_key(e)
                ==> final(self).aggregator.timeouts_aggregators@.contains_key(e),
            final(self).name == old(self).name,
            final(self).last_voted_height == old(self).last_voted_height,
            final(self).last_committed_height == old(self).last_committed_height,
            same_qc(final(self).high_qc, old(self).high_qc),
            final(self).height_to_digest@ == old(self).height_to_digest@,
            final(self).height_to_digest.wf() == old(self).height_to_digest.wf(),
            votes_checked(old(self).aggregator) ==> votes_checked(final(self).aggregator),
            timeouts_checked(old(self).aggregator) ==> timeouts_checked(final(self).aggregator),
    {
        if height < self.height {
            return;
        }
        self.height = height + 1;
        let h = self.height;
        let ghost before = self.aggregator;
        self.aggregator.cleanup(&epoch, &h);
        proof {
            if votes_checked(before) {
                let a = self.aggregator;
                assert forall|h2: SeqNumber, d: Digest, i: int| #![trigger a.vote_maker(h2, d).votes[i]]
                    0 <= i < a.vote_maker(h2, d).votes.len() implies {
                    &&& a.committee.stake_of(a.vote_maker(h2, d).votes[i].0) > 0
                    &&& crate::crypto::ed25519_verify_strict(d@, a.vote_maker(h2, d).votes[i].0@, a.vote_maker(h2, d).votes[i].1@)
                } by {
                    if a.votes_aggregators@.contains_key(h2) {
                        assert(a.votes_aggregators@[h2] == before.votes_aggregators@[h2]);
                        assert(a.vote_maker(h2, d) == before.vote_maker(h2, d));
                        assert(before.vote_maker(h2, d).votes[i] == a.vote_maker(h2, d).votes[i]);
                    }
                }
            }
            if timeouts_checked(before) {
                let a = self.aggregator;
                assert forall|e2: SeqNumber, i: int| #![trigger a.timeout_maker(e2).votes[i]]
                    0 <= i < a.timeout_maker(e2).votes.len() implies {
                    &&& a.committee.stake_of(a.timeout_maker(e2).votes[i].0) > 0
                    &&& crate::crypto::ed25519_verify_strict(
                        crate::crypto::hash_digest(crate::messages::timeout_bytes(e2, a.timeout_maker(e2).votes[i].2)),
                        a.timeout_maker(e2).votes[i].0@,
                        a.timeout_maker(e2).votes[i].1@,
                    )
                } by {
                    if a.timeouts_aggregators@.contains_key(e2) {
                        assert(a.timeouts_aggregators@[e2] == before.timeouts_aggregators@[e2]);
                        assert(a.timeout_maker(e2) == before.timeout_maker(e2));
                        assert(before.timeout_maker(e2).votes[i] == a.timeout_maker(e2).votes[i]);
                    }
                }
            }
        }
    }

    /// Advances past the QC's height and records it as a candidate highest QC.
    pub fn process_qc(&mut self, qc: &QC, epoch: SeqNumber)
        requires
            old(self).aggregator.wf(),
            old(self).height_to_digest.wf(),
            qc.height < SeqNumber::MAX,
        ensures
            final(self).aggregator.wf(),
            final(self).aggregator.committee == old(self).aggregator.committee,
            forall|e: SeqNumber| #[trigger] final(self).aggregator.timeouts_aggregators@.contains_key(e)
                ==> old(self).aggregator.timeouts_aggregators@.contains_key(e)
                && final(self).aggregator.timeouts_aggregators@[e] == old(self).aggregator.timeouts_aggregators@[e],
            forall|e: SeqNumber| e >= epoch && #[trigger] old(self).aggregator.timeouts_aggregators@.contains_key(e)
                ==> final(self).aggregator.timeouts_aggregators@.contains_key(e),
            final(self).height_to_digest.wf(),
            final(self).height == if qc.height < old(self).height { old(self).height } else { (qc.height + 1) as SeqNumber },
            final(self).height_to_digest@ == old(self).height_to_digest@.insert(qc.height, qc.hash),
            qc.height > old(self).high_qc.height ==> same_qc(final(self).high_qc, *qc),
            qc.height <= old(self).high_qc.height ==> same_qc(final(self).high_qc, old(self).high_qc),
            final(self).name == old(self).name,
            final(self).last_voted_height == old(self).last_voted_height,
            final(self).last_committed_height == old(self).last_committed_height,
            final(self).took_qc(*old(self), *qc, epoch),
            votes_checked(old(self).aggregator) ==> votes_checked(final(self).aggregator),
            timeouts_checked(old(self).aggregator) ==> timeouts_checked(final(self).aggregator),
    {
        self.advance_height(qc.height, epoch);
        self.update_high_qc(qc);
    }

    /// What committing up to `height` needs next: nothing, the block of the
    /// next uncommitted height, or a digest not known yet.
    pub fn commit_step(&self, height: SeqNumber) -> (s: CommitStep)
        requires
            self.height_to_digest.wf(),
        ensures
            self.last_committed_height >= height ==> s is Done,
            self.last_committed_height < height ==> match s {
                CommitStep::Fetch(d) => self.height_to_digest@.contains_key((self.last_committed_height + 1) as SeqNumber)
                    && d == self.height_to_digest@[(self.last_committed_height + 1) as SeqNumber],
                CommitStep::Missing => !self.height_to_digest@.contains_key((self.last_committed_height + 1) as SeqNumber),
                CommitStep::Done => false,
            },
    {
        if self.last_committed_height >= height {
            return CommitStep::Done;
        }
        match self.height_to_digest.get(&(self.last_committed_height + 1)) {
            Some(d) => CommitStep::Fetch(*d),
            None => CommitStep::Missing,
        }
    }

    /// Moves our own chain ahead by `NEXT_EPOCH_HEIGHT` heights, as a new
    /// epoch starts.
    pub fn skip_heights(&mut self)
        requires
            old(self).height <= SeqNumber::MAX - NEXT_EPOCH_HEIGHT,
        ensures
            final(self).height == old(self).height + NEXT_EPOCH_HEIGHT,
            final(self).name == old(self).name,
            final(self).last_voted_height == old(self).last_voted_height,
            final(self).last_committed_height == old(self).last_committed_height,
            final(self).aggregator == old(self).aggregator,
            same_qc(final(self).high_qc, old(self).high_qc),
            final(self).height_to_digest@ == old(self).height_to_digest@,
    {
        self.height = self.height + NEXT_EPOCH_HEIGHT;
    }

    /// Checks a vote for a block of this chain and adds it to the chain's
    /// aggregator: votes for heights the chain has left are ignored.
    pub fn handle_vote(&mut self, vote: &Vote, committee: &Committee) -> (r: ConsensusResult<Option<QC>>)
        requires
            old(self).wf(*committee),
            committee.wf(),
        ensures
            final(self).wf(*committee),
            vote.height < old(self).height ==> r == Ok::<Option<QC>, ConsensusError>(None) && final(self).aggregator == old(self).aggregator,
            vote.height >= old(self).height && committee.stake_of(vote.author) == 0
                ==> r == Err::<Option<QC>, ConsensusError>(ConsensusError::UnknownAuthority(vote.author)),
            vote.height >= old(self).height && committee.stake_of(vote.author) > 0 && !crate::crypto::ed25519_verify_strict(
                crate::crypto::Hash::spec_digest(vote), vote.author@, vote.signature@)
                ==> r == Err::<Option<QC>, ConsensusError>(ConsensusError::InvalidSignature),
            vote.height >= old(self).height && committee.stake_of(vote.author) > 0 && crate::crypto::ed25519_verify_strict(
                crate::crypto::Hash::spec_digest(vote), vote.author@, vote.signature@)
                ==> ({
                    let d = crate::aggregator::digest_key(crate::crypto::Hash::spec_digest(vote));
                    crate::aggregator::QCMaker::append_post(
                        old(self).aggregator.vote_maker(vote.height, d),
                        *vote,
                        old(self).aggregator.committee,
                        final(self).aggregator.vote_maker(vote.height, d),
                        r,
                    )
                }),
            final(self).name == old(self).name,
            final(self).height == old(self).height,
            final(self).last_voted_height == old(self).last_voted_height,
            final(self).last_committed_height == old(self).last_committed_height,
            same_qc(final(self).high_qc, old(self).high_qc),
            final(self).height_to_digest@ == old(self).height_to_digest@,
            r matches Ok(Some(qc)) ==> qc_signed(qc) && qc.hash == vote.hash && qc.height == vote.height
                && (forall|v: ConsensusResult<()>| #[trigger] qc_outcome(*committee, qc, v)
                    ==> v is Ok || v == Err::<(), ConsensusError>(ConsensusError::InvalidSignature))
                && ((forall|i: int| 0 <= i < qc.votes@.len() ==> crate::crypto::ed25519_key_torsion_free(#[trigger] qc.votes@[i].0@))
                    ==> forall|v: ConsensusResult<()>| #[trigger] qc_outcome(*committee, qc, v) ==> v is Ok),
    {
        if vote.height < self.height {
            return Ok(None);
        }
        match vote.verify(committee) {
            Ok(()) => {},
            Err(e) => return Err(e),
        }
        let ghost before_add = self.aggregator;
        let r = self.aggregator.add_vote(*vote);
        let ghost gr = r;
        proof {
            let a = self.aggregator;
            assert forall|e2: SeqNumber, i: int| #![trigger a.timeout_maker(e2).votes[i]]
                0 <= i < a.timeout_maker(e2).votes.len() implies {
                &&& a.committee.stake_of(a.timeout_maker(e2).votes[i].0) > 0
                &&& crate::crypto::ed25519_verify_strict(
                    crate::crypto::hash_digest(crate::messages::timeout_bytes(e2, a.timeout_maker(e2).votes[i].2)),
                    a.timeout_maker(e2).votes[i].0@,
                    a.timeout_maker(e2).votes[i].1@,
                )
            } by {
                assert(a.timeout_maker(e2) == before_add.timeout_maker(e2));
                assert(before_add.timeout_maker(e2).votes[i] == a.timeout_maker(e2).votes[i]);
            }
        }
        proof {
            if let Ok(Some(qc)) = gr {
                let d = crate::aggregator::digest_key(crate::crypto::Hash::spec_digest(vote));
                let a = self.aggregator;
                let now = a.vote_maker(vote.height, d);
                let h = vote.height;
                assert(now.votes == qc.votes@);
                assert(now.votes.len() > 0);
                assert(a.votes_aggregators@.contains_key(h));
                assert(a.votes_aggregators@[h]@.contains_key(d));
                assert(crate::aggregator::QCMaker::wf(now, a.committee));
                assert(crate::crypto::Hash::spec_digest(&qc) == crate::crypto::Hash::spec_digest(vote));
                assert forall|i: int| 0 <= i < qc.votes@.len() implies crate::crypto::ed25519_verify_strict(
                    crate::crypto::Hash::spec_digest(&qc),
                    #[trigger] qc.votes@[i].0@,
                    qc.votes@[i].1@,
                ) by {
                    assert(now.votes[i] == qc.votes@[i]);
                }
                assert forall|i: int| 0 <= i < qc.votes@.len() implies committee.stake_of(#[trigger] qc.votes@[i].0) > 0 by {
                    assert(now.votes[i] == qc.votes@[i]);
                    assert(a.committee.stake_of(now.votes[i].0) > 0);
                }
                assert(crate::messages::voters(qc.votes@) == now.used);
                assert forall|v: ConsensusResult<()>| #[trigger] qc_outcome(*committee, qc, v)
                    implies v is Ok || v == Err::<(), ConsensusError>(ConsensusError::InvalidSignature) by {
                    crate::aggregator::lemma_assembled_qc_verifies(*committee, qc, v);
                }
                if forall|i: int| 0 <= i < qc.votes@.len() ==> crate::crypto::ed25519_key_torsion_free(#[trigger] qc.votes@[i].0@) {
                    assert forall|v: ConsensusResult<()>| #[trigger] qc_outcome(*committee, qc, v) implies v is Ok by {
                        crate::aggregator::lemma_assembled_qc_verifies(*committee, qc, v);
                    }
                }
            }
        }
        r
    }
}

/// Votes go to strictly increasing heights: after a vote for `first`, and
/// whatever raised the last voted height since, a vote for `second` is for
/// a higher block.
pub proof fn lemma_votes_increase(
    last_voted: SeqNumber,
    first: Block,
    later_last_voted: SeqNumber,
    second: Block,
    epoch1: SeqNumber,
    epoch2: SeqNumber,
    view_change1: bool,
    view_change2: bool,
    leader1: PublicKey,
    leader2: PublicKey,
)
    requires
        may_vote(last_voted, first, epoch1, view_change1, leader1),
        later_last_voted >= first.height,
        may_vote(later_last_voted, second, epoch2, view_change2, leader2),
    ensures
        second.height > first.height,
{
}


// ---------------------------------------------------------------------------
// The node
// ---------------------------------------------------------------------------

/// The values of a list without repeats, as a set.
pub open spec fn value_set(v: Seq<u64>) -> Set<u64> {
    v.to_set()
}

/// What the node does once the coin of an ABA round is known.
pub enum CoinStep {
    /// The agreement has decided; the auxiliary proof of the round is to be
    /// broadcast, unless it was already.
    Decided(Option<ABAProof>),
    /// The agreement goes on to the next round with this input.
    Advance(u64),
}

/// Whether two ABA proofs agree field by field.
pub open spec fn same_proof(a: ABAProof, b: ABAProof) -> bool {
    a.epoch == b.epoch && a.round == b.round && a.val == b.val && a.phase == b.phase && a.votes@ == b.votes@ && a.tag == b.tag
}

/// The largest value of a non-empty list.
pub open spec fn is_max(v: Seq<u64>, m: u64) -> bool {
    &&& v.contains(m)
    &&& forall|i: int| 0 <= i < v.len() ==> v[i] <= m
}

/// Which parts of the node a step may change.
pub struct Touched {
    pub round_state: bool,
    pub chains: bool,
    pub aggregator: bool,
    pub tc_cache: bool,
    pub val_caches: bool,
    pub aux_cache: bool,
    pub aux_counts: bool,
    pub coin_cache: bool,
    pub proof_cache: bool,
}

/// A step that changes nothing.
pub open spec fn touch_none() -> Touched {
    Touched {
        round_state: false,
        chains: false,
        aggregator: false,
        tc_cache: false,
        val_caches: false,
        aux_cache: false,
        aux_counts: false,
        coin_cache: false,
        proof_cache: false,
    }
}

/// What a node knows and has decided: the chains of all authorities, and the
/// state of the binary agreement that ends an epoch whose leader stalls.
pub struct Core {
    pub name: PublicKey,
    pub committee: Committee,
    pub signature_service: SignatureService,
    pub pk_set: TssPublicKeySet,
    pub epoch: SeqNumber,
    pub total_epoch: SeqNumber,
    pub tc_processed: bool,
    pub val_value_broadcasted: bool,
    pub aux_value_broadcasted: bool,
    pub coin_share_broadcasted: bool,
    pub aux_proof_broadcasted: bool,
    pub is_view_change: bool,
    pub pubkey_to_chain: VecMap<PublicKey, Chain>,
    pub tc_cache: VecMap<SeqNumber, TC>,
    pub aggregator: Aggregator,
    pub bin_values: Vec<u64>,
    pub aba_round: SeqNumber,
    pub phase: u8,
    pub aba_output_val: Option<u64>,
    pub aba_input_val: VecMap<SeqNumber, u64>,
    pub aba_val_phase_cache1: VecMap<(SeqNumber, SeqNumber), ABAProof>,
    pub aba_val_phase_cache2: VecMap<(SeqNumber, SeqNumber), ABAProof>,
    pub aba_aux_phase_cache: VecMap<(SeqNumber, SeqNumber), ABAProof>,
    pub aux_value_nums: VecMap<(SeqNumber, SeqNumber), u64>,
    pub aba_coin_cache: VecMap<(SeqNumber, SeqNumber), usize>,
    pub aba_proof_cache: VecMap<(SeqNumber, SeqNumber), ABAProof>,
}

impl Core {
    /// The committee is well formed, every chain belongs to the authority it
    /// is filed under and counts with the committee, every TC kept verifies,
    /// every ABA value gathered is signed and every ABA proof kept is
    /// assembled from signed values, the binary values are distinct, and
    /// every coin is 0 or 1.
    pub open spec fn wf(self) -> bool {
        &&& self.committee.wf()
        &&& self.aggregator.wf()
        &&& self.aggregator.committee.members() == self.committee.members()
        &&& self.pubkey_to_chain.wf()
        &&& forall|k: PublicKey| #[trigger] self.pubkey_to_chain@.contains_key(k) ==> {
            &&& self.pubkey_to_chain@[k].wf(self.committee)
            &&& self.pubkey_to_chain@[k].name == k
        }
        &&& self.tc_cache.wf()
        &&& forall|e: SeqNumber| #[trigger] self.tc_cache@.contains_key(e)
            ==> crate::messages::tc_check(self.committee, self.tc_cache@[e]) is Ok
        &&& self.bin_values@.no_duplicates()
        &&& self.aba_input_val.wf()
        &&& self.aba_val_phase_cache1.wf()
        &&& self.aba_val_phase_cache2.wf()
        &&& self.aba_aux_phase_cache.wf()
        &&& aba_vals_checked(self.aggregator)
        &&& forall|k: (SeqNumber, SeqNumber)|
            ABARandomCoinMaker::members_only(#[trigger] self.aggregator.coin_maker(k), self.aggregator.committee)
        &&& forall|k: (SeqNumber, SeqNumber)| #[trigger] self.aba_val_phase_cache1@.contains_key(k)
            ==> aba_proof_assembled(self.committee, self.aba_val_phase_cache1@[k])
        &&& forall|k: (SeqNumber, SeqNumber)| #[trigger] self.aba_val_phase_cache2@.contains_key(k)
            ==> aba_proof_assembled(self.committee, self.aba_val_phase_cache2@[k])
        &&& forall|k: (SeqNumber, SeqNumber)| #[trigger] self.aba_aux_phase_cache@.contains_key(k)
            ==> aba_proof_assembled(self.committee, self.aba_aux_phase_cache@[k])
        &&& self.aux_value_nums.wf()
        &&& self.aba_coin_cache.wf()
        &&& forall|k: (SeqNumber, SeqNumber)| #[trigger] self.aba_coin_cache@.contains_key(k) ==> self.aba_coin_cache@[k] < 2
        &&& self.aba_proof_cache.wf()
    }

    /// A node at epoch 0, round 1 of the agreement, with a fresh chain for
    /// every authority.
    pub fn new(name: PublicKey, committee: Committee, signature_service: SignatureService, pk_set: TssPublicKeySet) -> (core: Core)
        requires
            committee.wf(),
        ensures
            core.wf(),
            core.name == name,
            core.committee.members() == committee.members(),
            core.signature_service == signature_service,
            core.pk_set == pk_set,
            core.epoch == 0,
            core.total_epoch == 0,
            !core.tc_processed && !core.val_value_broadcasted && !core.aux_value_broadcasted,
            !core.coin_share_broadcasted && !core.aux_proof_broadcasted && !core.is_view_change,
            core.aba_round == 1,
            core.phase == INIT_PHASE,
            core.aba_output_val is None,
            core.bin_values@.len() == 0,
            core.tc_cache@.len() == 0,
            core.aba_input_val@.len() == 0,
            core.aba_val_phase_cache1@.len() == 0,
            core.aba_val_phase_cache2@.len() == 0,
            core.aba_aux_phase_cache@.len() == 0,
            core.aux_value_nums@.len() == 0,
            core.aba_coin_cache@.len() == 0,
            core.aba_proof_cache@.len() == 0,
            core.aggregator.aba_vals_aggregators@.len() == 0,
            core.aggregator.aba_randomcoin_aggregators@.len() == 0,
            forall|k: PublicKey| core.pubkey_to_chain@.contains_key(k) <==> committee.has_member(k),
            forall|k: PublicKey| #[trigger] core.pubkey_to_chain@.contains_key(k) ==> core.pubkey_to_chain@[k].is_fresh(k, core.committee),
    {
        let authorities = committee.authorities();
        let mut chains: VecMap<PublicKey, Chain> = VecMap::new();
        let mut i: usize = 0;
        while i < authorities.len()
            invariant
                committee.wf(),
                authorities@ == committee.members(),
                i <= authorities@.len(),
                chains.wf(),
                forall|k: PublicKey| chains@.contains_key(k) <==> exists|j: int| 0 <= j < i && authorities@[j].name == k,
                forall|k: PublicKey| #[trigger] chains@.contains_key(k) ==> ({
                    let ch = chains@[k];
                    &&& ch.wf(committee)
                    &&& ch.is_fresh(k, committee)
                }),
            decreases authorities@.len() - i,
        {
            let pk = authorities[i].name;
            let c = committee.clone();
            let ch = Chain::new(pk, c);
            chains.insert(pk, ch);
            proof {
                assert forall|k: PublicKey| chains@.contains_key(k) <==> exists|j: int| 0 <= j < i + 1 && authorities@[j].name == k by {
                    if k == pk {
                        assert(authorities@[i as int].name == k);
                    }
                }
            }
            i = i + 1;
        }
        let aggregator = Aggregator::new(committee.clone());
        let core = Core {
            name,
            committee,
            signature_service,
            pk_set,
            epoch: 0,
            total_epoch: 0,
            tc_processed: false,
            val_value_broadcasted: false,
            aux_value_broadcasted: false,
            coin_share_broadcasted: false,
            aux_proof_broadcasted: false,
            is_view_change: false,
            pubkey_to_chain: chains,
            tc_cache: VecMap::new(),
            aggregator,
            bin_values: Vec::new(),
            aba_round: 1,
            phase: INIT_PHASE,
            aba_output_val: None,
            aba_input_val: VecMap::new(),
            aba_val_phase_cache1: VecMap::new(),
            aba_val_phase_cache2: VecMap::new(),
            aba_aux_phase_cache: VecMap::new(),
            aux_value_nums: VecMap::new(),
            aba_coin_cache: VecMap::new(),
            aba_proof_cache: VecMap::new(),
        };
        proof {
            assert(core.bin_values@.no_duplicates());
        }
        core
    }

    /// The fields of the agreement's current round and epoch are those of `o`.
    pub open spec fn same_round_state(self, o: Core) -> bool {
        &&& self.epoch == o.epoch
        &&& self.total_epoch == o.total_epoch
        &&& self.tc_processed == o.tc_processed
        &&& self.val_value_broadcasted == o.val_value_broadcasted
        &&& self.aux_value_broadcasted == o.aux_value_broadcasted
        &&& self.coin_share_broadcasted == o.coin_share_broadcasted
        &&& self.aux_proof_broadcasted == o.aux_proof_broadcasted
        &&& self.is_view_change == o.is_view_change
        &&& self.bin_values@ == o.bin_values@
        &&& self.aba_round == o.aba_round
        &&& self.phase == o.phase
        &&& self.aba_output_val == o.aba_output_val
        &&& self.aba_input_val@ == o.aba_input_val@
    }

    /// Everything but the parts named in `t` is as in `o`.
    pub open spec fn unchanged_but(self, o: Core, t: Touched) -> bool {
        &&& self.name == o.name
        &&& self.committee == o.committee
        &&& self.signature_service == o.signature_service
        &&& self.pk_set@ == o.pk_set@
        &&& !t.round_state ==> self.same_round_state(o)
        &&& !t.chains ==> self.pubkey_to_chain@ == o.pubkey_to_chain@
        &&& !t.aggregator ==> self.aggregator == o.aggregator
        &&& !t.tc_cache ==> self.tc_cache@ == o.tc_cache@
        &&& !t.val_caches ==> self.aba_val_phase_cache1@ == o.aba_val_phase_cache1@
            && self.aba_val_phase_cache2@ == o.aba_val_phase_cache2@
        &&& !t.aux_cache ==> self.aba_aux_phase_cache@ == o.aba_aux_phase_cache@
        &&& !t.aux_counts ==> self.aux_value_nums@ == o.aux_value_nums@
        &&& !t.coin_cache ==> self.aba_coin_cache@ == o.aba_coin_cache@
        &&& !t.proof_cache ==> self.aba_proof_cache@ == o.aba_proof_cache@
    }

    /// Whether an ABA message for (epoch, round) comes too late: the
    /// agreement has decided, or the message is for an earlier epoch or an
    /// earlier round of this epoch.
    pub open spec fn expired(self, epoch: SeqNumber, round: SeqNumber) -> bool {
        self.aba_output_val is Some || epoch < self.epoch || (epoch == self.epoch && round < self.aba_round)
    }

    /// Which ABA messages are taken: after a decision none; before it, a
    /// message of a later epoch, or of the current epoch and its current or
    /// a later round, is taken, and one of an earlier epoch or an earlier
    /// round of the current epoch is not. So a message that is taken stays
    /// taken for every later (epoch, round).
    pub proof fn law_expiry(self, epoch: SeqNumber, round: SeqNumber, later_epoch: SeqNumber, later_round: SeqNumber)
        ensures
            self.aba_output_val is Some ==> self.expired(epoch, round),
            self.aba_output_val is None && epoch > self.epoch ==> !self.expired(epoch, round),
            self.aba_output_val is None && epoch == self.epoch && round >= self.aba_round ==> !self.expired(epoch, round),
            epoch < self.epoch ==> self.expired(epoch, round),
            epoch == self.epoch && round < self.aba_round ==> self.expired(epoch, round),
            !self.expired(epoch, round) && (later_epoch > epoch || (later_epoch == epoch && later_round >= round))
                ==> !self.expired(later_epoch, later_round),
    {
    }

    /// Whether an ABA message for (epoch, round) comes too late.
    pub fn is_expired_aba_message(&self, epoch: SeqNumber, round: SeqNumber) -> (b: bool)
        ensures
            b == self.expired(epoch, round),
    {
        if self.aba_output_val.is_some() {
            return true;
        }
        epoch < self.epoch || (epoch == self.epoch && round < self.aba_round)
    }

    /// Keeps a TC for an epoch that is not over yet, once it verifies.
    pub fn handle_tc(&mut self, tc: TC) -> (r: ConsensusResult<()>)
        requires
            old(self).wf(),
        ensures
            final(self).wf(),
            tc.epoch < old(self).epoch ==> r is Ok && final(self).tc_cache@ == old(self).tc_cache@,
            tc.epoch >= old(self).epoch ==> match crate::messages::tc_check(old(self).committee, tc) {
                Ok(()) => r is Ok && final(self).tc_cache@ == old(self).tc_cache@.insert(tc.epoch, tc),
                Err(e) => r == Err::<(), ConsensusError>(e) && final(self).tc_cache@ == old(self).tc_cache@,
            },
            final(self).unchanged_but(*old(self), Touched { tc_cache: true, ..touch_none() }),
    {
        if tc.epoch < self.epoch {
            return Ok(());
        }
        match tc.verify(&self.committee) {
            Ok(()) => {},
            Err(e) => return Err(e),
        }
        let e = tc.epoch;
        self.tc_cache.insert(e, tc);
        Ok(())
    }

    /// Checks a timeout for this epoch or a later one, takes its QC into
    /// `chain` (the chain of the epoch's leader), and adds it to the chain's
    /// timeouts; a TC that this completes is kept.
    pub fn handle_timeout(&mut self, timeout: &Timeout, chain: &mut Chain) -> (r: ConsensusResult<()>)
        requires
            old(self).wf(),
            old(chain).wf(old(self).committee),
            timeout.high_qc.height < SeqNumber::MAX,
        ensures
            final(self).wf(),
            final(chain).wf(old(self).committee),
            final(self).unchanged_but(*old(self), Touched { tc_cache: true, ..touch_none() }),
            timeout.epoch < old(self).epoch ==> r is Ok && final(self).tc_cache@ == old(self).tc_cache@
                && final(chain).aggregator == old(chain).aggregator && final(chain).height == old(chain).height,
            timeout.epoch >= old(self).epoch ==> exists|v: ConsensusResult<()>| {
                &&& #[trigger] timeout_outcome(old(self).committee, *timeout, v)
                &&& v is Err ==> r == v && final(self).tc_cache@ == old(self).tc_cache@
                    && final(chain).aggregator == old(chain).aggregator && final(chain).height == old(chain).height
                &&& v is Ok ==> {
                    &&& final(chain).height == if timeout.high_qc.height < old(chain).height {
                        old(chain).height
                    } else {
                        (timeout.high_qc.height + 1) as SeqNumber
                    }
                    &&& final(chain).height_to_digest@ == old(chain).height_to_digest@.insert(timeout.high_qc.height, timeout.high_qc.hash)
                    &&& timeout.high_qc.height > old(chain).high_qc.height ==> same_qc(final(chain).high_qc, timeout.high_qc)
                    &&& timeout.high_qc.height <= old(chain).high_qc.height ==> same_qc(final(chain).high_qc, old(chain).high_qc)
                    &&& exists|rt: ConsensusResult<Option<TC>>| {
                        &&& #[trigger] TCMaker::append_post(
                            old(chain).aggregator.timeout_maker(timeout.epoch),
                            *timeout,
                            old(chain).aggregator.committee,
                            final(chain).aggregator.timeout_maker(timeout.epoch),
                            rt,
                        )
                        &&& match rt {
                            Err(e) => r == Err::<(), ConsensusError>(e) && final(self).tc_cache@ == old(self).tc_cache@,
                            Ok(None) => r is Ok && final(self).tc_cache@ == old(self).tc_cache@,
                            Ok(Some(tc)) => r is Ok && final(self).tc_cache@ == old(self).tc_cache@.insert(tc.epoch, tc),
                        }
                    }
                }
            },
            final(chain).name == old(chain).name,
            final(chain).last_voted_height == old(chain).last_voted_height,
            final(chain).last_committed_height == old(chain).last_committed_height,
    {
        if timeout.epoch < self.epoch {
            return Ok(());
        }
        let v = timeout.verify(&self.committee);
        if v.is_err() {
            return v;
        }
        let ghost before = *chain;
        chain.process_qc(&timeout.high_qc, self.epoch);
        proof {
            let a = chain.aggregator.timeouts_aggregators@;
            let o = before.aggregator.timeouts_aggregators@;
            let te = timeout.epoch;
            if o.contains_key(te) {
                assert(a.contains_key(te));
                assert(a[te] == o[te]);
            } else {
                assert(!a.contains_key(te));
            }
            assert(chain.aggregator.timeout_maker(te) == before.aggregator.timeout_maker(te));
        }
        let ghost before_add = chain.aggregator;
        let rt = chain.aggregator.add_timeout(timeout.clone());
        let ghost grt = rt;
        proof {
            let a = chain.aggregator;
            assert forall|h2: SeqNumber, d: Digest, i: int| #![trigger a.vote_maker(h2, d).votes[i]]
                0 <= i < a.vote_maker(h2, d).votes.len() implies {
                &&& a.committee.stake_of(a.vote_maker(h2, d).votes[i].0) > 0
                &&& crate::crypto::ed25519_verify_strict(d@, a.vote_maker(h2, d).votes[i].0@, a.vote_maker(h2, d).votes[i].1@)
            } by {
                assert(a.vote_maker(h2, d) == before_add.vote_maker(h2, d));
                assert(before_add.vote_maker(h2, d).votes[i] == a.vote_maker(h2, d).votes[i]);
            }
        }
        proof {
            if let Ok(Some(tc)) = grt {
                let a = chain.aggregator;
                let now = a.timeout_maker(timeout.epoch);
                assert(now.votes == tc.votes@);
                assert(now.votes.len() > 0);
                assert(a.timeouts_aggregators@.contains_key(timeout.epoch));
                assert(TCMaker::wf(now, a.committee));
                assert(crate::messages::timeout_voters(tc.votes@) == now.used);
                assert forall|i: int| 0 <= i < tc.votes@.len() implies self.committee.stake_of(#[trigger] tc.votes@[i].0) > 0 by {
                    assert(now.votes[i] == tc.votes@[i]);
                    assert(a.committee.stake_of(now.votes[i].0) > 0);
                }
                assert forall|i: int| 0 <= i < tc.votes@.len() implies crate::crypto::ed25519_verify_strict(
                    crate::crypto::hash_digest(crate::messages::timeout_bytes(tc.epoch, #[trigger] tc.votes@[i].2)),
                    tc.votes@[i].0@,
                    tc.votes@[i].1@,
                ) by {
                    assert(now.votes[i] == tc.votes@[i]);
                }
                assert(crate::messages::tc_signatures_valid(tc.epoch, tc.votes@));
                crate::aggregator::lemma_assembled_tc_verifies(self.committee, tc);
            }
        }
        let r = match rt {
            Err(e) => Err(e),
            Ok(None) => Ok(()),
            Ok(Some(tc)) => {
                let e = tc.epoch;
                self.tc_cache.insert(e, tc);
                Ok(())
            },
        };
        proof {
            assert(timeout_outcome(old(self).committee, *timeout, v));
            assert(TCMaker::append_post(
                old(chain).aggregator.timeout_maker(timeout.epoch),
                *timeout,
                old(chain).aggregator.committee,
                chain.aggregator.timeout_maker(timeout.epoch),
                grt,
            ));
        }
        r
    }

    /// What handling a value of the value phase does, from `o` to `f` with
    /// answer `r`: an unsigned value is refused and changes nothing; a signed
    /// one is added to the aggregator, and a proof of f+1 (tag set) or of a
    /// quorum that this completes is kept, each in its own cache.
    pub open spec fn val_phase_post(o: Core, v: ABAVal, f: Core, r: ConsensusResult<()>) -> bool {
        &&& f.unchanged_but(o, Touched { aggregator: true, val_caches: true, ..touch_none() })
        &&& !aba_val_signed(v) ==> {
            &&& r == Err::<(), ConsensusError>(ConsensusError::InvalidSignature)
            &&& f.aggregator == o.aggregator
            &&& f.aba_val_phase_cache1@ == o.aba_val_phase_cache1@
            &&& f.aba_val_phase_cache2@ == o.aba_val_phase_cache2@
        }
        &&& aba_val_signed(v) ==> exists|rp: ConsensusResult<Option<ABAProof>>| {
            &&& #[trigger] ABAProofMaker::append_post(
                o.aggregator.aba_maker((v.epoch, v.round, v.phase, v.val)),
                v,
                o.aggregator.committee,
                f.aggregator.aba_maker((v.epoch, v.round, v.phase, v.val)),
                rp,
            )
            &&& match rp {
                Err(e) => r == Err::<(), ConsensusError>(e)
                    && f.aba_val_phase_cache1@ == o.aba_val_phase_cache1@
                    && f.aba_val_phase_cache2@ == o.aba_val_phase_cache2@,
                Ok(None) => r is Ok
                    && f.aba_val_phase_cache1@ == o.aba_val_phase_cache1@
                    && f.aba_val_phase_cache2@ == o.aba_val_phase_cache2@,
                Ok(Some(p)) => r is Ok && if p.tag {
                    f.aba_val_phase_cache1@ == o.aba_val_phase_cache1@.insert((p.epoch, p.round), p)
                        && f.aba_val_phase_cache2@ == o.aba_val_phase_cache2@
                } else {
                    f.aba_val_phase_cache2@ == o.aba_val_phase_cache2@.insert((p.epoch, p.round), p)
                        && f.aba_val_phase_cache1@ == o.aba_val_phase_cache1@
                },
            }
        }
    }

    /// What handling a value of the auxiliary phase does, from `o` to `f`
    /// with answer `r`: an unsigned value is refused and changes nothing; a
    /// signed one is counted for its (epoch, round) and added to the
    /// aggregator, and a quorum proof that this completes is kept.
    pub open spec fn aux_phase_post(o: Core, v: ABAVal, f: Core, r: ConsensusResult<()>) -> bool {
        &&& f.unchanged_but(o, Touched { aggregator: true, aux_cache: true, aux_counts: true, ..touch_none() })
        &&& !aba_val_signed(v) ==> {
            &&& r == Err::<(), ConsensusError>(ConsensusError::InvalidSignature)
            &&& f.aggregator == o.aggregator
            &&& f.aba_aux_phase_cache@ == o.aba_aux_phase_cache@
            &&& f.aux_value_nums@ == o.aux_value_nums@
        }
        &&& aba_val_signed(v) ==> f.aux_value_nums@ == o.aux_value_nums@.insert(
            (v.epoch, v.round),
            (o.aux_count((v.epoch, v.round)) + 1) as u64,
        )
        &&& aba_val_signed(v) ==> exists|rp: ConsensusResult<Option<ABAProof>>| {
            &&& #[trigger] ABAProofMaker::append_post(
                o.aggregator.aba_maker((v.epoch, v.round, v.phase, v.val)),
                v,
                o.aggregator.committee,
                f.aggregator.aba_maker((v.epoch, v.round, v.phase, v.val)),
                rp,
            )
            &&& match rp {
                Err(e) => r == Err::<(), ConsensusError>(e) && f.aba_aux_phase_cache@ == o.aba_aux_phase_cache@,
                Ok(None) => r is Ok && f.aba_aux_phase_cache@ == o.aba_aux_phase_cache@,
                Ok(Some(p)) => r is Ok && f.aba_aux_phase_cache@ == o.aba_aux_phase_cache@.insert((p.epoch, p.round), p),
            }
        }
    }

    /// Checks a value of the value phase and adds it to the aggregator; a
    /// proof of f+1 (tag set) or of a quorum that this completes is kept,
    /// each in its own cache.
    pub fn handle_val_phase(&mut self, aba_val: ABAVal) -> (r: ConsensusResult<()>)
        requires
            old(self).wf(),
        ensures
            final(self).wf(),
            Core::val_phase_post(*old(self), aba_val, *final(self), r),
    {
        match aba_val.verify() {
            Ok(()) => {},
            Err(e) => return Err(e),
        }
        let ghost before_agg = self.aggregator;
        let rp = self.aggregator.add_aba_val(aba_val);
        let ghost grp = rp;
        proof {
            crate::aggregator::lemma_add_aba_val_checked(before_agg, self.aggregator, aba_val, grp);
        }
        let r = match rp {
            Err(e) => Err(e),
            Ok(None) => Ok(()),
            Ok(Some(p)) => {
                let k = (p.epoch, p.round);
                if p.tag {
                    self.aba_val_phase_cache1.insert(k, p);
                } else {
                    self.aba_val_phase_cache2.insert(k, p);
                }
                Ok(())
            },
        };
        proof {
            let k4 = (aba_val.epoch, aba_val.round, aba_val.phase, aba_val.val);
            assert(ABAProofMaker::append_post(old(self).aggregator.aba_maker(k4), aba_val, old(self).aggregator.committee,
                self.aggregator.aba_maker(k4), grp));
            assert forall|k: (SeqNumber, SeqNumber)| #[trigger] self.aggregator.coin_maker(k) == old(self).aggregator.coin_maker(k) by {}
        }
        r
    }

    /// The number of auxiliary values counted for (epoch, round).
    pub open spec fn aux_count(self, k: (SeqNumber, SeqNumber)) -> u64 {
        if self.aux_value_nums@.contains_key(k) {
            self.aux_value_nums@[k]
        } else {
            0
        }
    }

    /// Checks an auxiliary value, counts it for its (epoch, round), and adds
    /// it to the aggregator; a quorum proof that this completes is kept.
    pub fn handle_aux_phase(&mut self, aba_val: ABAVal) -> (r: ConsensusResult<()>)
        requires
            old(self).wf(),
            old(self).aux_count((aba_val.epoch, aba_val.round)) < u64::MAX,
        ensures
            final(self).wf(),
            Core::aux_phase_post(*old(self), aba_val, *final(self), r),
    {
        match aba_val.verify() {
            Ok(()) => {},
            Err(e) => return Err(e),
        }
        let k = (aba_val.epoch, aba_val.round);
        let count: u64 = match self.aux_value_nums.get(&k) {
            Some(n) => *n,
            None => 0,
        };
        self.aux_value_nums.insert(k, count + 1);
        let ghost before_agg = self.aggregator;
        let rp = self.aggregator.add_aba_val(aba_val);
        let ghost grp = rp;
        proof {
            crate::aggregator::lemma_add_aba_val_checked(before_agg, self.aggregator, aba_val, grp);
        }
        let r = match rp {
            Err(e) => Err(e),
            Ok(None) => Ok(()),
            Ok(Some(p)) => {
                let kp = (p.epoch, p.round);
                self.aba_aux_phase_cache.insert(kp, p);
                Ok(())
            },
        };
        proof {
            let k4 = (aba_val.epoch, aba_val.round, aba_val.phase, aba_val.val);
            assert(ABAProofMaker::append_post(old(self).aggregator.aba_maker(k4), aba_val, old(self).aggregator.committee,
                self.aggregator.aba_maker(k4), grp));
            assert forall|k: (SeqNumber, SeqNumber)| #[trigger] self.aggregator.coin_maker(k) == old(self).aggregator.coin_maker(k) by {}
        }
        r
    }

    /// Routes an ABA value that is not too late to its phase: values of the
    /// value and auxiliary phases are taken, any other phase is refused.
    pub fn handle_aba_val(&mut self, aba_val: ABAVal) -> (r: ConsensusResult<()>)
        requires
            old(self).wf(),
            old(self).aux_count((aba_val.epoch, aba_val.round)) < u64::MAX,
        ensures
            final(self).wf(),
            old(self).expired(aba_val.epoch, aba_val.round) ==> r is Ok && final(self).unchanged_but(*old(self), touch_none()),
            !old(self).expired(aba_val.epoch, aba_val.round) && aba_val.phase != VAL_PHASE && aba_val.phase != AUX_PHASE
                ==> r == Err::<(), ConsensusError>(ConsensusError::InvalidPhase(aba_val.phase))
                && final(self).unchanged_but(*old(self), touch_none()),
            !old(self).expired(aba_val.epoch, aba_val.round) && aba_val.phase == VAL_PHASE
                ==> Core::val_phase_post(*old(self), aba_val, *final(self), r),
            !old(self).expired(aba_val.epoch, aba_val.round) && aba_val.phase == AUX_PHASE
                ==> Core::aux_phase_post(*old(self), aba_val, *final(self), r),
    {
        if self.is_expired_aba_message(aba_val.epoch, aba_val.round) {
            return Ok(());
        }
        let phase = aba_val.phase;
        if phase == VAL_PHASE {
            self.handle_val_phase(aba_val)
        } else if phase == AUX_PHASE {
            self.handle_aux_phase(aba_val)
        } else {
            Err(ConsensusError::InvalidPhase(phase))
        }
    }

    /// Checks a coin share that is not too late and adds it to the
    /// aggregator; a coin that this tosses is kept for its (epoch, round).
    pub fn handle_coin_share(&mut self, share: RandomnessShare) -> (r: ConsensusResult<()>)
        requires
            old(self).wf(),
        ensures
            final(self).wf(),
            final(self).unchanged_but(*old(self), Touched { aggregator: true, coin_cache: true, ..touch_none() }),
            old(self).expired(share.epoch, share.round) ==> r is Ok && final(self).unchanged_but(*old(self), touch_none()),
            !old(self).expired(share.epoch, share.round) && share_check(old(self).committee, old(self).pk_set@, share) is Err
                ==> r == share_check(old(self).committee, old(self).pk_set@, share)
                && final(self).unchanged_but(*old(self), touch_none()),
            !old(self).expired(share.epoch, share.round) && share_check(old(self).committee, old(self).pk_set@, share) is Ok
                ==> exists|rc: ConsensusResult<Option<usize>>| {
                    &&& #[trigger] ABARandomCoinMaker::append_post(
                        old(self).aggregator.coin_maker((share.epoch, share.round)),
                        share,
                        old(self).aggregator.committee,
                        old(self).pk_set@,
                        final(self).aggregator.coin_maker((share.epoch, share.round)),
                        rc,
                    )
                    &&& match rc {
                        Err(e) => r == Err::<(), ConsensusError>(e) && final(self).aba_coin_cache@ == old(self).aba_coin_cache@,
                        Ok(None) => r is Ok && final(self).aba_coin_cache@ == old(self).aba_coin_cache@,
                        Ok(Some(coin)) => r is Ok && final(self).aba_coin_cache@ == old(self).aba_coin_cache@.insert((share.epoch, share.round), coin),
                    }
                },
    {
        if self.is_expired_aba_message(share.epoch, share.round) {
            return Ok(());
        }
        match share.verify(&self.committee, &self.pk_set) {
            Ok(()) => {},
            Err(e) => return Err(e),
        }
        proof {
            self.committee.lemma_stake_member(share.author);
            assert(ABARandomCoinMaker::members_only(self.aggregator.coin_maker((share.epoch, share.round)), self.aggregator.committee));
        }
        let rc = self.aggregator.add_aba_random(share, &self.pk_set);
        let ghost grc = rc;
        let r = match rc {
            Err(e) => Err(e),
            Ok(None) => Ok(()),
            Ok(Some(coin)) => {
                self.aba_coin_cache.insert((share.epoch, share.round), coin);
                Ok(())
            },
        };
        proof {
            let k2 = (share.epoch, share.round);
            assert(ABARandomCoinMaker::append_post(old(self).aggregator.coin_maker(k2), share, old(self).aggregator.committee,
                old(self).pk_set@, self.aggregator.coin_maker(k2), grc));
            assert forall|k: (SeqNumber, SeqNumber)|
                ABARandomCoinMaker::members_only(#[trigger] self.aggregator.coin_maker(k), self.aggregator.committee) by {
                if k == k2 {
                    let m0 = old(self).aggregator.coin_maker(k2);
                    assert(ABARandomCoinMaker::members_only(m0, old(self).aggregator.committee));
                    if !m0.used.contains(share.author) {
                        assert forall|i: int| 0 <= i < self.aggregator.coin_maker(k).used.len()
                            implies self.aggregator.committee.has_member(#[trigger] self.aggregator.coin_maker(k).used[i]) by {
                            if i < m0.used.len() {
                                assert(self.aggregator.coin_maker(k).used[i] == m0.used[i]);
                            }
                        }
                    }
                }
            }
            assert forall|k: (SeqNumber, SeqNumber, u8, u64)| #[trigger] self.aggregator.aba_maker(k) == old(self).aggregator.aba_maker(k) by {}
        }
        r
    }

    /// Checks an ABA proof that is not too late and keeps it.
    pub fn handle_aba_proof(&mut self, proof: ABAProof) -> (r: ConsensusResult<()>)
        requires
            old(self).wf(),
        ensures
            final(self).wf(),
            final(self).unchanged_but(*old(self), Touched { proof_cache: true, ..touch_none() }),
            old(self).expired(proof.epoch, proof.round) ==> r is Ok && final(self).aba_proof_cache@ == old(self).aba_proof_cache@,
            !old(self).expired(proof.epoch, proof.round) ==> exists|v: ConsensusResult<()>| {
                &&& #[trigger] aba_proof_outcome(old(self).committee, proof, v)
                &&& v is Err ==> r == v && final(self).aba_proof_cache@ == old(self).aba_proof_cache@
                &&& v is Ok ==> r is Ok && final(self).aba_proof_cache@ == old(self).aba_proof_cache@.insert((proof.epoch, proof.round), proof)
            },
    {
        if self.is_expired_aba_message(proof.epoch, proof.round) {
            return Ok(());
        }
        let v = proof.verify(&self.committee);
        if v.is_err() {
            return v;
        }
        let k = (proof.epoch, proof.round);
        self.aba_proof_cache.insert(k, proof);
        Ok(())
    }

    /// Decides a proven value whose parity is the coin of its round.
    pub fn process_aba_proof(&mut self, proof: &ABAProof) -> (r: ConsensusResult<()>)
        requires
            old(self).wf(),
        ensures
            final(self).wf(),
            r is Ok,
            ({
                let k = (proof.epoch, proof.round);
                if old(self).aba_coin_cache@.contains_key(k) && proof.val % 2 == old(self).aba_coin_cache@[k] {
                    final(self).aba_output_val == Some(proof.val)
                } else {
                    final(self).aba_output_val == old(self).aba_output_val
                }
            }),
            final(self).unchanged_but(*old(self), Touched { round_state: true, ..touch_none() }),
            final(self).epoch == old(self).epoch,
            final(self).total_epoch == old(self).total_epoch,
            final(self).tc_processed == old(self).tc_processed,
            final(self).val_value_broadcasted == old(self).val_value_broadcasted,
            final(self).aux_value_broadcasted == old(self).aux_value_broadcasted,
            final(self).coin_share_broadcasted == old(self).coin_share_broadcasted,
            final(self).aux_proof_broadcasted == old(self).aux_proof_broadcasted,
            final(self).is_view_change == old(self).is_view_change,
            final(self).bin_values@ == old(self).bin_values@,
            final(self).aba_round == old(self).aba_round,
            final(self).phase == old(self).phase,
            final(self).aba_input_val@ == old(self).aba_input_val@,
    {
        match self.aba_coin_cache.get(&(proof.epoch, proof.round)) {
            Some(coin) => {
                if proof.val % 2 == *coin as u64 {
                    self.aba_output_val = Some(proof.val);
                }
            },
            None => {},
        }
        Ok(())
    }

    /// What the coin of (epoch, round) decides. With one binary value: its
    /// parity matching the coin decides it, else the next round starts from
    /// it. With none or two: an auxiliary proof whose value has the coin's
    /// parity decides that value, else the next round starts from the coin.
    /// The auxiliary proof is handed out for broadcast once per round.
    pub fn process_coin_share(&mut self, epoch: SeqNumber, round: SeqNumber, coin: usize) -> (step: CoinStep)
        requires
            old(self).wf(),
            old(self).bin_values@.len() == 1 && old(self).bin_values@[0] % 2 == coin
                ==> old(self).aba_aux_phase_cache@.contains_key((epoch, round)),
        ensures
            final(self).wf(),
            final(self).unchanged_but(*old(self), Touched { round_state: true, ..touch_none() }),
            ({
                let o = *old(self);
                let k = (epoch, round);
                let decided = if o.bin_values@.len() == 1 {
                    if o.bin_values@[0] % 2 == coin { Some(o.bin_values@[0]) } else { None }
                } else if o.aba_aux_phase_cache@.contains_key(k) && o.aba_aux_phase_cache@[k].val % 2 == coin {
                    Some(o.aba_aux_phase_cache@[k].val)
                } else {
                    None
                };
                match decided {
                    Some(v) => {
                        &&& final(self).aba_output_val == Some(v)
                        &&& final(self).aux_proof_broadcasted
                        &&& step matches CoinStep::Decided(p) && (p is Some <==> !o.aux_proof_broadcasted)
                            && (p matches Some(q) ==> same_proof(q, o.aba_aux_phase_cache@[k]))
                        &&& final(self).same_round_state(Core { aba_output_val: Some(v), aux_proof_broadcasted: true, ..o })
                    },
                    None => {
                        &&& step == CoinStep::Advance(if o.bin_values@.len() == 1 { o.bin_values@[0] } else { coin as u64 })
                        &&& final(self).same_round_state(o)
                    },
                }
            }),
    {
        let k = (epoch, round);
        if self.bin_values.len() == 1 {
            let v = self.bin_values[0];
            if v % 2 == coin as u64 {
                self.aba_output_val = Some(v);
                let p = if !self.aux_proof_broadcasted {
                    self.aux_proof_broadcasted = true;
                    match self.aba_aux_phase_cache.get(&k) {
                        Some(proof) => Some(proof.clone()),
                        None => None,
                    }
                } else {
                    None
                };
                return CoinStep::Decided(p);
            }
            return CoinStep::Advance(v);
        }
        let mut decided: Option<u64> = None;
        match self.aba_aux_phase_cache.get(&k) {
            Some(proof) => {
                if proof.val % 2 == coin as u64 {
                    decided = Some(proof.val);
                }
            },
            None => {},
        }
        match decided {
            Some(v) => {
                self.aba_output_val = Some(v);
                let p = if !self.aux_proof_broadcasted {
                    self.aux_proof_broadcasted = true;
                    match self.aba_aux_phase_cache.get(&k) {
                        Some(proof) => Some(proof.clone()),
                        None => None,
                    }
                } else {
                    None
                };
                CoinStep::Decided(p)
            },
            None => CoinStep::Advance(coin as u64),
        }
    }

    /// Starts the next ABA round with `input_val`: back to the value phase,
    /// with nothing broadcast yet and no binary values, keeping only what
    /// belongs to this round or later of this epoch (coins are kept: a coin
    /// may serve several rounds).
    pub fn advance_aba_round(&mut self, input_val: u64)
        requires
            old(self).wf(),
            old(self).aba_round < SeqNumber::MAX,
        ensures
            final(self).wf(),
            final(self).unchanged_but(*old(self), Touched { round_state: true, val_caches: true, aux_cache: true, aux_counts: true, proof_cache: true, ..touch_none() }),
            final(self).aba_round == old(self).aba_round + 1,
            final(self).phase == VAL_PHASE,
            final(self).aba_input_val@ == old(self).aba_input_val@.insert(final(self).aba_round, input_val),
            !final(self).val_value_broadcasted,
            !final(self).aux_value_broadcasted,
            !final(self).coin_share_broadcasted,
            !final(self).aux_proof_broadcasted,
            final(self).bin_values@.len() == 0,
            final(self).epoch == old(self).epoch,
            final(self).total_epoch == old(self).total_epoch,
            final(self).tc_processed == old(self).tc_processed,
            final(self).is_view_change == old(self).is_view_change,
            final(self).aba_output_val == old(self).aba_output_val,
            ({
                let keep = |k: (SeqNumber, SeqNumber)| k.0 == old(self).epoch && k.1 >= final(self).aba_round;
                &&& forall|k: (SeqNumber, SeqNumber)| final(self).aba_val_phase_cache1@.contains_key(k) <==> old(self).aba_val_phase_cache1@.contains_key(k) && keep(k)
                &&& forall|k: (SeqNumber, SeqNumber)| final(self).aba_val_phase_cache2@.contains_key(k) <==> old(self).aba_val_phase_cache2@.contains_key(k) && keep(k)
                &&& forall|k: (SeqNumber, SeqNumber)| final(self).aba_aux_phase_cache@.contains_key(k) <==> old(self).aba_aux_phase_cache@.contains_key(k) && keep(k)
                &&& forall|k: (SeqNumber, SeqNumber)| final(self).aux_value_nums@.contains_key(k) <==> old(self).aux_value_nums@.contains_key(k) && keep(k)
                &&& forall|k: (SeqNumber, SeqNumber)| final(self).aba_proof_cache@.contains_key(k) <==> old(self).aba_proof_cache@.contains_key(k) && keep(k)
            }),
            forall|k: (SeqNumber, SeqNumber)| #[trigger] final(self).aba_val_phase_cache1@.contains_key(k) ==> final(self).aba_val_phase_cache1@[k] == old(self).aba_val_phase_cache1@[k],
            forall|k: (SeqNumber, SeqNumber)| #[trigger] final(self).aba_val_phase_cache2@.contains_key(k) ==> final(self).aba_val_phase_cache2@[k] == old(self).aba_val_phase_cache2@[k],
            forall|k: (SeqNumber, SeqNumber)| #[trigger] final(self).aba_aux_phase_cache@.contains_key(k) ==> final(self).aba_aux_phase_cache@[k] == old(self).aba_aux_phase_cache@[k],
            forall|k: (SeqNumber, SeqNumber)| #[trigger] final(self).aux_value_nums@.contains_key(k) ==> final(self).aux_value_nums@[k] == old(self).aux_value_nums@[k],
            forall|k: (SeqNumber, SeqNumber)| #[trigger] final(self).aba_proof_cache@.contains_key(k) ==> final(self).aba_proof_cache@[k] == old(self).aba_proof_cache@[k],
    {
        self.aba_round = self.aba_round + 1;
        self.phase = VAL_PHASE;
        let round = self.aba_round;
        self.aba_input_val.insert(round, input_val);
        let current_epoch = self.epoch;
        let current_aba = self.aba_round;
        self.val_value_broadcasted = false;
        self.aux_value_broadcasted = false;
        self.coin_share_broadcasted = false;
        self.aux_proof_broadcasted = false;
        self.bin_values = Vec::new();
        self.aba_val_phase_cache1.retain(
            (|k: &(SeqNumber, SeqNumber)| -> (b: bool)
                ensures
                    b == (k.0 == current_epoch && k.1 >= current_aba),
                { k.0 == current_epoch && k.1 >= current_aba }),
            Ghost(|k: (SeqNumber, SeqNumber)| k.0 == current_epoch && k.1 >= current_aba),
        );
        self.aba_val_phase_cache2.retain(
            (|k: &(SeqNumber, SeqNumber)| -> (b: bool)
                ensures
                    b == (k.0 == current_epoch && k.1 >= current_aba),
                { k.0 == current_epoch && k.1 >= current_aba }),
            Ghost(|k: (SeqNumber, SeqNumber)| k.0 == current_epoch && k.1 >= current_aba),
        );
        self.aba_aux_phase_cache.retain(
            (|k: &(SeqNumber, SeqNumber)| -> (b: bool)
                ensures
                    b == (k.0 == current_epoch && k.1 >= current_aba),
                { k.0 == current_epoch && k.1 >= current_aba }),
            Ghost(|k: (SeqNumber, SeqNumber)| k.0 == current_epoch && k.1 >= current_aba),
        );
        self.aux_value_nums.retain(
            (|k: &(SeqNumber, SeqNumber)| -> (b: bool)
                ensures
                    b == (k.0 == current_epoch && k.1 >= current_aba),
                { k.0 == current_epoch && k.1 >= current_aba }),
            Ghost(|k: (SeqNumber, SeqNumber)| k.0 == current_epoch && k.1 >= current_aba),
        );
        self.aba_proof_cache.retain(
            (|k: &(SeqNumber, SeqNumber)| -> (b: bool)
                ensures
                    b == (k.0 == current_epoch && k.1 >= current_aba),
                { k.0 == current_epoch && k.1 >= current_aba }),
            Ghost(|k: (SeqNumber, SeqNumber)| k.0 == current_epoch && k.1 >= current_aba),
        );
        proof {
            assert(self.bin_values@.no_duplicates());
        }
    }

    /// The phase that `update_phase` moves to from `o`, and whether it looks
    /// up the count of auxiliary values of the round (in the auxiliary phase
    /// with a coin).
    pub open spec fn next_phase(o: Core) -> (u8, bool) {
        let k = (o.epoch, o.aba_round);
        let p1 = if o.phase == INIT_PHASE && o.tc_processed { VAL_PHASE } else { o.phase };
        let p2 = if p1 == VAL_PHASE && o.bin_values@.len() > 0 { AUX_PHASE } else { p1 };
        let probe = p2 == AUX_PHASE && o.aba_coin_cache@.contains_key(k);
        let p3 = if probe && o.aux_count(k) >= o.committee.quorum()
            && (o.bin_values@.len() == 2 || o.aba_aux_phase_cache@.contains_key(k)) {
            COIN_PHASE
        } else {
            p2
        };
        (p3, probe)
    }

    /// `self` is `o` after one move through the phases while the view
    /// changes: the phase is the next phase, the rest of the round state is
    /// kept, and a looked-up count of auxiliary values that was missing is
    /// recorded as 0; nothing else changes.
    pub open spec fn phase_updated(self, o: Core) -> bool {
        let k = (o.epoch, o.aba_round);
        let (p3, probe) = Core::next_phase(o);
        &&& self.phase == p3
        &&& self.unchanged_but(o, Touched { round_state: true, aux_counts: true, ..touch_none() })
        &&& self.same_round_state(Core { phase: p3, ..o })
        &&& self.aux_value_nums@ == if probe && !o.aux_value_nums@.contains_key(k) {
            o.aux_value_nums@.insert(k, 0)
        } else {
            o.aux_value_nums@
        }
    }

    /// How the phase moves while the view changes: never back, out of the
    /// initial phase only once the TC has been taken, to the auxiliary phase
    /// or later only with a binary value, and into the coin phase only when
    /// the round has its coin, more than two thirds of the stake in
    /// auxiliary values, and both binary values or an auxiliary proof; the
    /// epoch, the round and the decision stay.
    pub proof fn law_phase_moves(o: Core, f: Core)
        requires
            f.phase_updated(o),
        ensures
            f.phase >= o.phase,
            o.phase <= COIN_PHASE ==> f.phase <= COIN_PHASE,
            o.phase == INIT_PHASE && f.phase != INIT_PHASE ==> o.tc_processed,
            o.phase < AUX_PHASE && f.phase >= AUX_PHASE ==> o.bin_values@.len() > 0,
            o.phase != COIN_PHASE && f.phase == COIN_PHASE ==> {
                let k = (o.epoch, o.aba_round);
                &&& o.aux_count(k) >= 2 * o.committee.total_stake() / 3 + 1
                &&& o.aba_coin_cache@.contains_key(k)
                &&& (o.bin_values@.len() == 2 || o.aba_aux_phase_cache@.contains_key(k))
            },
            f.epoch == o.epoch && f.aba_round == o.aba_round && f.aba_output_val == o.aba_output_val,
            f.bin_values@ == o.bin_values@ && f.tc_processed == o.tc_processed,
    {
    }

    /// Moves the agreement on through its phases while the view changes:
    /// to the value phase once the TC has been taken, to the auxiliary phase
    /// once there is a binary value, and to the coin phase once the round has
    /// a coin, a quorum of auxiliary values, and either both binary values or
    /// an auxiliary proof. Looking up the count of auxiliary values records a
    /// count of 0 when there is none. The phase never goes back.
    pub fn update_phase(&mut self)
        requires
            old(self).wf(),
        ensures
            final(self).wf(),
            final(self).phase >= old(self).phase,
            !old(self).is_view_change ==> final(self).unchanged_but(*old(self), touch_none()),
            old(self).is_view_change ==> final(self).phase_updated(*old(self)),
    {
        if !self.is_view_change {
            return;
        }
        if self.phase == INIT_PHASE && self.tc_processed {
            self.phase = VAL_PHASE;
        }
        if self.phase == VAL_PHASE && self.bin_values.len() > 0 {
            self.phase = AUX_PHASE;
        }
        let k = (self.epoch, self.aba_round);
        if self.phase == AUX_PHASE && self.aba_coin_cache.contains_key(&k) {
            let count: u64 = match self.aux_value_nums.get(&k) {
                Some(n) => *n,
                None => {
                    self.aux_value_nums.insert(k, 0);
                    0
                },
            };
            let quorum = self.committee.quorum_threshold();
            if count >= quorum as u64 && (self.bin_values.len() == 2 || self.aba_aux_phase_cache.contains_key(&k)) {
                self.phase = COIN_PHASE;
            }
        }
    }

    /// Ends the epoch after the agreement decided `output_height` on the
    /// leader chain `chain`: the next epoch starts with a fresh agreement
    /// (round 1, initial phase, nothing decided, broadcast or cached), the
    /// chain forgets the heights up to the output and its highest QC, and
    /// everything kept for earlier epochs is dropped.
    pub fn enter_next_epoch(&mut self, chain: &mut Chain, output_height: u64)
        requires
            old(self).wf(),
            old(chain).height_to_digest.wf(),
            old(self).epoch < SeqNumber::MAX,
        ensures
            final(self).wf(),
            final(chain).height_to_digest.wf(),
            final(self).epoch == old(self).epoch + 1,
            final(self).total_epoch == old(self).total_epoch,
            !final(self).is_view_change && !final(self).tc_processed,
            !final(self).val_value_broadcasted && !final(self).aux_value_broadcasted,
            !final(self).coin_share_broadcasted && !final(self).aux_proof_broadcasted,
            final(self).bin_values@.len() == 0,
            final(self).aba_round == 1,
            final(self).phase == INIT_PHASE,
            final(self).aba_output_val is None,
            final(self).aba_input_val@ == Map::<SeqNumber, u64>::empty(),
            final(self).pubkey_to_chain@ == old(self).pubkey_to_chain@,
            final(self).name == old(self).name,
            final(self).committee == old(self).committee,
            final(self).pk_set@ == old(self).pk_set@,
            forall|e: SeqNumber| final(self).tc_cache@.contains_key(e) <==> old(self).tc_cache@.contains_key(e) && e >= final(self).epoch,
            forall|k: (SeqNumber, SeqNumber)| final(self).aba_val_phase_cache1@.contains_key(k) <==> old(self).aba_val_phase_cache1@.contains_key(k) && k.0 >= final(self).epoch,
            forall|k: (SeqNumber, SeqNumber)| final(self).aba_val_phase_cache2@.contains_key(k) <==> old(self).aba_val_phase_cache2@.contains_key(k) && k.0 >= final(self).epoch,
            forall|k: (SeqNumber, SeqNumber)| final(self).aba_aux_phase_cache@.contains_key(k) <==> old(self).aba_aux_phase_cache@.contains_key(k) && k.0 >= final(self).epoch,
            forall|k: (SeqNumber, SeqNumber)| final(self).aba_coin_cache@.contains_key(k) <==> old(self).aba_coin_cache@.contains_key(k) && k.0 >= final(self).epoch,
            forall|k: (SeqNumber, SeqNumber)| final(self).aux_value_nums@.contains_key(k) <==> old(self).aux_value_nums@.contains_key(k) && k.0 >= final(self).epoch,
            forall|k: (SeqNumber, SeqNumber)| final(self).aba_proof_cache@.contains_key(k) <==> old(self).aba_proof_cache@.contains_key(k) && k.0 >= final(self).epoch,
            forall|k: (SeqNumber, SeqNumber, u8, u64)| final(self).aggregator.aba_vals_aggregators@.contains_key(k)
                <==> old(self).aggregator.aba_vals_aggregators@.contains_key(k) && k.0 >= final(self).epoch,
            forall|k: (SeqNumber, SeqNumber, u8, u64)| #[trigger] final(self).aggregator.aba_vals_aggregators@.contains_key(k)
                ==> final(self).aggregator.aba_vals_aggregators@[k] == old(self).aggregator.aba_vals_aggregators@[k],
            forall|k: (SeqNumber, SeqNumber)| final(self).aggregator.aba_randomcoin_aggregators@.contains_key(k)
                <==> old(self).aggregator.aba_randomcoin_aggregators@.contains_key(k) && k.0 >= final(self).epoch,
            forall|k: (SeqNumber, SeqNumber)| #[trigger] final(self).aggregator.aba_randomcoin_aggregators@.contains_key(k)
                ==> final(self).aggregator.aba_randomcoin_aggregators@[k] == old(self).aggregator.aba_randomcoin_aggregators@[k],
            final(self).aggregator.committee == old(self).aggregator.committee,
            final(self).aggregator.votes_aggregators@ == old(self).aggregator.votes_aggregators@,
            final(self).aggregator.timeouts_aggregators@ == old(self).aggregator.timeouts_aggregators@,
            forall|h: SeqNumber| final(chain).height_to_digest@.contains_key(h)
                <==> old(chain).height_to_digest@.contains_key(h) && h > output_height,
            forall|h: SeqNumber| #[trigger] final(chain).height_to_digest@.contains_key(h)
                ==> final(chain).height_to_digest@[h] == old(chain).height_to_digest@[h],
            final(chain).high_qc.is_genesis() && final(chain).high_qc.epoch == 0 && final(chain).high_qc.votes@.len() == 0,
            final(chain).name == old(chain).name,
            final(chain).height == old(chain).height,
            final(chain).last_voted_height == old(chain).last_voted_height,
            final(chain).last_committed_height == old(chain).last_committed_height,
            final(chain).aggregator == old(chain).aggregator,
    {
        self.epoch = self.epoch + 1;
        let out = output_height;
        chain.height_to_digest.retain(
            (|k: &SeqNumber| -> (b: bool)
                ensures
                    b == (*k > out),
                { *k > out }),
            Ghost(|k: SeqNumber| k > out),
        );
        chain.high_qc = QC::genesis();
        let current_epoch = self.epoch;
        self.is_view_change = false;
        self.tc_processed = false;
        self.val_value_broadcasted = false;
        self.aux_value_broadcasted = false;
        self.coin_share_broadcasted = false;
        self.aux_proof_broadcasted = false;
        self.aggregator.cleanup_aba(&current_epoch);
        self.bin_values = Vec::new();
        self.aba_round = 1;
        self.phase = INIT_PHASE;
        self.aba_output_val = None;
        self.aba_input_val = VecMap::new();
        self.tc_cache.retain(
            (|k: &SeqNumber| -> (b: bool)
                ensures
                    b == (*k >= current_epoch),
                { *k >= current_epoch }),
            Ghost(|k: SeqNumber| k >= current_epoch),
        );
        self.aba_val_phase_cache1.retain(
            (|k: &(SeqNumber, SeqNumber)| -> (b: bool)
                ensures
                    b == (k.0 >= current_epoch),
                { k.0 >= current_epoch }),
            Ghost(|k: (SeqNumber, SeqNumber)| k.0 >= current_epoch),
        );
        self.aba_val_phase_cache2.retain(
            (|k: &(SeqNumber, SeqNumber)| -> (b: bool)
                ensures
                    b == (k.0 >= current_epoch),
                { k.0 >= current_epoch }),
            Ghost(|k: (SeqNumber, SeqNumber)| k.0 >= current_epoch),
        );
        self.aba_aux_phase_cache.retain(
            (|k: &(SeqNumber, SeqNumber)| -> (b: bool)
                ensures
                    b == (k.0 >= current_epoch),
                { k.0 >= current_epoch }),
            Ghost(|k: (SeqNumber, SeqNumber)| k.0 >= current_epoch),
        );
        self.aba_coin_cache.retain(
            (|k: &(SeqNumber, SeqNumber)| -> (b: bool)
                ensures
                    b == (k.0 >= current_epoch),
                { k.0 >= current_epoch }),
            Ghost(|k: (SeqNumber, SeqNumber)| k.0 >= current_epoch),
        );
        self.aux_value_nums.retain(
            (|k: &(SeqNumber, SeqNumber)| -> (b: bool)
                ensures
                    b == (k.0 >= current_epoch),
                { k.0 >= current_epoch }),
            Ghost(|k: (SeqNumber, SeqNumber)| k.0 >= current_epoch),
        );
        self.aba_proof_cache.retain(
            (|k: &(SeqNumber, SeqNumber)| -> (b: bool)
                ensures
                    b == (k.0 >= current_epoch),
                { k.0 >= current_epoch }),
            Ghost(|k: (SeqNumber, SeqNumber)| k.0 >= current_epoch),
        );
        proof {
            assert(self.bin_values@.no_duplicates());
            assert forall|k: (SeqNumber, SeqNumber)|
                ABARandomCoinMaker::members_only(#[trigger] self.aggregator.coin_maker(k), self.aggregator.committee) by {
                assert(ABARandomCoinMaker::members_only(old(self).aggregator.coin_maker(k), old(self).aggregator.committee));
                if self.aggregator.aba_randomcoin_aggregators@.contains_key(k) {
                    assert(self.aggregator.coin_maker(k) == old(self).aggregator.coin_maker(k));
                }
            }
        }
    }

    /// Takes a TC as the start of the agreement: the input of round 1 is the
    /// highest QC height that the TC reports.
    pub fn start_aba(&mut self, tc: &TC) -> (input: u64)
        requires
            old(self).wf(),
            tc.votes@.len() > 0,
        ensures
            final(self).wf(),
            is_max(tc.votes@.map_values(|v: (PublicKey, crate::crypto::Signature, SeqNumber)| v.2), input),
            final(self).aba_input_val@ == old(self).aba_input_val@.insert(1, input),
            final(self).unchanged_but(*old(self), Touched { round_state: true, ..touch_none() }),
            final(self).same_round_state(Core { aba_input_val: final(self).aba_input_val, ..*old(self) }),
    {
        let rounds = tc.high_qc_rounds();
        let mut m = rounds[0];
        let mut i: usize = 1;
        assert(rounds@.subrange(0, 1)[0] == m);
        while i < rounds.len()
            invariant
                1 <= i <= rounds@.len(),
                rounds@.subrange(0, i as int).contains(m),
                forall|j: int| 0 <= j < i ==> rounds@[j] <= m,
            decreases rounds@.len() - i,
        {
            if rounds[i] > m {
                m = rounds[i];
                assert(rounds@.subrange(0, i + 1)[i as int] == m);
            } else {
                let ghost j = choose|j: int| 0 <= j < i && rounds@.subrange(0, i as int)[j] == m;
                assert(rounds@.subrange(0, i + 1)[j] == m);
            }
            i = i + 1;
        }
        assert(rounds@.subrange(0, rounds@.len() as int) =~= rounds@);
        self.aba_input_val.insert(1, m);
        m
    }

    /// Records that the TC of this epoch has been taken, once its input has
    /// been sent and handled; `pending_aba_work` then no longer offers it.
    pub fn finish_tc(&mut self)
        requires
            old(self).wf(),
        ensures
            final(self).wf(),
            final(self).tc_processed,
            final(self).unchanged_but(*old(self), Touched { round_state: true, ..touch_none() }),
            final(self).same_round_state(Core { tc_processed: true, ..*old(self) }),
    {
        self.tc_processed = true;
    }

    /// Whether a value proven by f+1 is to be echoed: it differs from our
    /// input of its round and we have not echoed in this round yet. Echoing
    /// is recorded.
    pub fn process_val_phase_1(&mut self, proof: &ABAProof) -> (echo: bool)
        requires
            old(self).wf(),
            old(self).aba_input_val@.contains_key(proof.round),
        ensures
            final(self).wf(),
            echo == (old(self).aba_input_val@[proof.round] != proof.val && !old(self).val_value_broadcasted),
            final(self).val_value_broadcasted == (old(self).val_value_broadcasted || echo),
            final(self).unchanged_but(*old(self), Touched { round_state: true, ..touch_none() }),
            final(self).same_round_state(Core { val_value_broadcasted: final(self).val_value_broadcasted, ..*old(self) }),
    {
        let input = match self.aba_input_val.get(&proof.round) {
            Some(v) => *v,
            None => 0,
        };
        if input == proof.val {
            return false;
        }
        if !self.val_value_broadcasted {
            self.val_value_broadcasted = true;
            return true;
        }
        false
    }

    /// Takes a value proven by a quorum as a binary value. The first time in
    /// a round that a binary value arrives while one is known already, an
    /// auxiliary value is to be broadcast; that is recorded.
    pub fn process_val_phase_2(&mut self, proof: &ABAProof) -> (aux: bool)
        requires
            old(self).wf(),
        ensures
            final(self).wf(),
            aux == (old(self).bin_values@.len() > 0 && !old(self).aux_value_broadcasted),
            final(self).aux_value_broadcasted == (old(self).aux_value_broadcasted || aux),
            value_set(final(self).bin_values@) == value_set(old(self).bin_values@).insert(proof.val),
            final(self).unchanged_but(*old(self), Touched { round_state: true, ..touch_none() }),
            final(self).same_round_state(Core {
                aux_value_broadcasted: final(self).aux_value_broadcasted,
                bin_values: final(self).bin_values,
                ..*old(self)
            }),
    {
        let mut aux = false;
        if self.bin_values.len() > 0 && !self.aux_value_broadcasted {
            self.aux_value_broadcasted = true;
            aux = true;
        }
        let mut present = false;
        let mut i: usize = 0;
        while i < self.bin_values.len()
            invariant
                i <= self.bin_values@.len(),
                present <==> exists|j: int| 0 <= j < i && #[trigger] self.bin_values@[j] == proof.val,
            decreases self.bin_values@.len() - i,
        {
            if self.bin_values[i] == proof.val {
                present = true;
            }
            i = i + 1;
        }
        assert(present <==> self.bin_values@.contains(proof.val));
        let ghost before = self.bin_values@;
        if !present {
            self.bin_values.push(proof.val);
            proof {
                crate::util::lemma_push_no_duplicates(before, proof.val);
            }
        }
        proof {
            assert forall|x: u64| value_set(self.bin_values@).contains(x) <==> value_set(before).insert(proof.val).contains(x) by {
                if present {
                    assert(self.bin_values@ == before);
                } else {
                    assert(self.bin_values@ == before.push(proof.val));
                    if x == proof.val {
                        assert(self.bin_values@[before.len() as int] == x);
                    }
                    if before.contains(x) {
                        let j = choose|j: int| 0 <= j < before.len() && before[j] == x;
                        assert(self.bin_values@[j] == x);
                    }
                    if self.bin_values@.contains(x) {
                        let j = choose|j: int| 0 <= j < self.bin_values@.len() && self.bin_values@[j] == x;
                        if j < before.len() {
                            assert(before[j] == x);
                        }
                    }
                }
            }
            assert(value_set(self.bin_values@) =~= value_set(before).insert(proof.val));
        }
        aux
    }

    /// Whether our coin share for the round is to be broadcast: the first
    /// time only. Broadcasting is recorded.
    pub fn process_aux_phase(&mut self) -> (share: bool)
        requires
            old(self).wf(),
        ensures
            final(self).wf(),
            share == !old(self).coin_share_broadcasted,
            final(self).coin_share_broadcasted,
            final(self).unchanged_but(*old(self), Touched { round_state: true, ..touch_none() }),
            final(self).same_round_state(Core { coin_share_broadcasted: true, ..*old(self) }),
    {
        if !self.coin_share_broadcasted {
            self.coin_share_broadcasted = true;
            return true;
        }
        false
    }
}

/// The references that a proposal on the chain of `own` carries: for every
/// member of the committee, in order, other than `own`, the digest certified
/// by the highest QC of its chain, when that QC is not genesis.
pub open spec fn proposal_refs(members: Seq<Authority>, chains: Map<PublicKey, Chain>, own: PublicKey) -> Seq<(PublicKey, Digest)>
    decreases members.len(),
{
    if members.len() == 0 {
        Seq::empty()
    } else {
        let prev = proposal_refs(members.drop_last(), chains, own);
        let n = members.last().name;
        if n != own && chains.contains_key(n) && !chains[n].high_qc.is_genesis() {
            prev.push((n, chains[n].high_qc.hash))
        } else {
            prev
        }
    }
}

/// What a proposal on the chain of `own` refers to: never its own chain;
/// each reference names a member whose chain has a QC above genesis, with
/// the digest that QC certifies; and every other member whose chain has
/// such a QC is referred to.
pub proof fn law_proposal_refs(members: Seq<Authority>, chains: Map<PublicKey, Chain>, own: PublicKey)
    ensures
        forall|i: int| 0 <= i < proposal_refs(members, chains, own).len()
            ==> (#[trigger] proposal_refs(members, chains, own)[i]).0 != own,
        forall|i: int| 0 <= i < proposal_refs(members, chains, own).len() ==> {
            let (n, d) = #[trigger] proposal_refs(members, chains, own)[i];
            &&& chains.contains_key(n)
            &&& !chains[n].high_qc.is_genesis()
            &&& d == chains[n].high_qc.hash
            &&& exists|j: int| 0 <= j < members.len() && members[j].name == n
        },
        forall|j: int| 0 <= j < members.len() && members[j].name != own && chains.contains_key(#[trigger] members[j].name)
            && !chains[members[j].name].high_qc.is_genesis()
            ==> proposal_refs(members, chains, own).contains((members[j].name, chains[members[j].name].high_qc.hash)),
    decreases members.len(),
{
    if members.len() > 0 {
        let prev_m = members.drop_last();
        law_proposal_refs(prev_m, chains, own);
        let prev = proposal_refs(prev_m, chains, own);
        let refs = proposal_refs(members, chains, own);
        let n = members.last().name;
        assert forall|i: int| 0 <= i < refs.len() implies (#[trigger] refs[i]).0 != own && {
            let (n2, d) = refs[i];
            &&& chains.contains_key(n2)
            &&& !chains[n2].high_qc.is_genesis()
            &&& d == chains[n2].high_qc.hash
            &&& exists|j: int| 0 <= j < members.len() && members[j].name == n2
        } by {
            if i < prev.len() {
                assert(refs[i] == prev[i]);
                let (n2, d) = prev[i];
                let j = choose|j: int| 0 <= j < prev_m.len() && prev_m[j].name == n2;
                assert(members[j] == prev_m[j]);
            } else {
                assert(members[members.len() - 1].name == n);
            }
        }
        assert forall|j: int| 0 <= j < members.len() && members[j].name != own && chains.contains_key(#[trigger] members[j].name)
            && !chains[members[j].name].high_qc.is_genesis()
            implies refs.contains((members[j].name, chains[members[j].name].high_qc.hash)) by {
            let e = (members[j].name, chains[members[j].name].high_qc.hash);
            if j < members.len() - 1 {
                assert(prev_m[j] == members[j]);
                assert(prev.contains(e));
                let k = choose|k: int| 0 <= k < prev.len() && prev[k] == e;
                assert(refs[k] == e);
            } else {
                assert(refs[refs.len() - 1] == e);
            }
        }
    }
}

/// Whether some chain is more than `LAMBDA_VAL` heights ahead of `height`.
pub open spec fn some_chain_ahead(chains: Map<PublicKey, Chain>, height: SeqNumber) -> bool {
    exists|k: PublicKey| #[trigger] chains.contains_key(k) && height + LAMBDA_VAL < chains[k].height
}

/// The two-chain commit rule: `b0` is the leader's and `b1` extends it at
/// the next height.
pub fn commit_rule(leader: &PublicKey, b0: &Block, b1: &Block) -> (b: bool)
    ensures
        b == (b0.author == *leader && b0.height + 1 == b1.height),
{
    b0.author == *leader && b1.height > 0 && b0.height == b1.height - 1
}

/// Whether references are in ascending order of their keys.
pub open spec fn refs_sorted(s: Seq<(PublicKey, Digest)>) -> bool {
    forall|i: int, j: int| 0 <= i < j < s.len() ==> !crate::crypto::bytes_lt(s[j].0@, s[i].0@)
}

/// Sorts references by key, in the order of the keys' bytes, before the
/// blocks they name are committed.
pub fn sort_references(refs: &mut Vec<(PublicKey, Digest)>)
    ensures
        refs_sorted(final(refs)@),
        final(refs)@.to_multiset() == old(refs)@.to_multiset(),
{
    let mut out: Vec<(PublicKey, Digest)> = Vec::new();
    let mut i: usize = 0;
    proof {
        assert(refs@.subrange(0, 0) =~= Seq::<(PublicKey, Digest)>::empty());
        broadcast use vstd::seq_lib::group_to_multiset_ensures;
    }
    while i < refs.len()
        invariant
            i <= refs@.len(),
            refs_sorted(out@),
            out@.to_multiset() == refs@.subrange(0, i as int).to_multiset(),
        decreases refs@.len() - i,
    {
        let e = refs[i];
        let mut p: usize = 0;
        while p < out.len() && !e.0.precedes(&out[p].0)
            invariant
                p <= out@.len(),
                forall|k: int| 0 <= k < p ==> !crate::crypto::bytes_lt(e.0@, #[trigger] out@[k].0@),
            decreases out@.len() - p,
        {
            p = p + 1;
        }
        let ghost before = out@;
        proof {
            assert forall|k: int| p <= k < before.len() implies !crate::crypto::bytes_lt(#[trigger] before[k].0@, e.0@) by {
                if crate::crypto::bytes_lt(before[k].0@, e.0@) {
                    assert(crate::crypto::bytes_lt(e.0@, before[p as int].0@));
                    if k == p {
                        crate::crypto::lemma_bytes_lt_transitive(before[k].0@, e.0@, before[k].0@);
                        crate::crypto::lemma_bytes_lt_irreflexive(before[k].0@);
                    } else {
                        crate::crypto::lemma_bytes_lt_transitive(before[k].0@, e.0@, before[p as int].0@);
                    }
                }
            }
        }
        out.insert(p, e);
        proof {
            vstd::seq_lib::to_multiset_insert(before, p as int, e);
            assert(refs@.subrange(0, i + 1) =~= refs@.subrange(0, i as int).push(e));
            vstd::seq_lib::to_multiset_build(refs@.subrange(0, i as int), e);
            assert(out@ =~= before.insert(p as int, e));
            assert forall|a: int, b: int| 0 <= a < b < out@.len() implies !crate::crypto::bytes_lt(#[trigger] out@[b].0@, #[trigger] out@[a].0@) by {
                if a < p && b < p {
                    assert(out@[a] == before[a] && out@[b] == before[b]);
                } else if a < p && b == p {
                } else if a < p {
                    assert(out@[a] == before[a] && out@[b] == before[b - 1]);
                } else if a == p {
                    assert(out@[b] == before[b - 1]);
                } else {
                    assert(out@[a] == before[a - 1] && out@[b] == before[b - 1]);
                }
            }
        }
        i = i + 1;
    }
    assert(refs@.subrange(0, refs@.len() as int) =~= refs@);
    *refs = out;
}

/// What the agreement asks of the node after its phase was updated.
pub enum PhaseStep {
    /// The view is not changing: nothing to do.
    Idle,
    /// The agreement decided a height whose digest the leader chain does not
    /// know yet.
    Wait,
    /// The agreement decided this height, certified with this digest on the
    /// leader chain: commit that block and start the next epoch.
    Commit(u64, Digest),
    /// The agreement goes on: process what its current phase has gathered.
    Continue,
}

/// The parts of the agreement whose gathered messages are processed in turn.
pub enum AbaStage {
    Tc,
    ValEcho,
    ValBinary,
    Aux,
    Coin,
    Help,
}

/// A gathered message of the agreement that is ready to be processed.
pub enum AbaWork {
    /// The TC that starts the agreement of this epoch.
    Tc(TC),
    /// A value proven by f+1 in the current round.
    ValEcho(ABAProof),
    /// A value proven by a quorum in the current round.
    ValBinary(ABAProof),
    /// A quorum of auxiliary values in the current round.
    Aux(ABAProof),
    /// The coin of the current round.
    Coin(usize),
    /// A decision proof for the current round, taken while the view changes.
    Help(ABAProof),
}

impl Core {
    /// Whether this node votes for `block` on `chain`: the block is at the
    /// chain's height or extends genesis, and the voting rule of the chain
    /// allows it (`leader` leads the current epoch). A vote is recorded as
    /// the chain's last voted height.
    pub fn process_block_vote(&self, block: &Block, chain: &mut Chain, leader: &PublicKey) -> (vote: bool)
        requires
            block.qc.height < SeqNumber::MAX,
        ensures
            vote == ((block.height == old(chain).height || block.qc.is_genesis())
                && may_vote(old(chain).last_voted_height, *block, self.epoch, self.is_view_change, *leader)),
            vote ==> final(chain).last_voted_height == block.height,
            !vote ==> final(chain).last_voted_height == old(chain).last_voted_height,
            final(chain).same_but_votes(*old(chain)),
    {
        let genesis = QC::genesis();
        proof {
            crate::crypto::lemma_digest_view_eq(block.qc.hash, genesis.hash);
        }
        if block.height == chain.height || block.qc == genesis {
            chain.make_vote(block, self.epoch, self.is_view_change, leader)
        } else {
            false
        }
    }

    /// Whether a block processed on its chain may lead to a commit: it is
    /// from `leader`, the view is not changing, and it is not of a later
    /// epoch.
    pub fn may_commit(&self, block: &Block, leader: &PublicKey) -> (b: bool)
        ensures
            b == (block.author == *leader && !self.is_view_change && block.epoch <= self.epoch),
    {
        block.author == *leader && !self.is_view_change && block.epoch <= self.epoch
    }

    /// Checks a proposal on `chain`: its author must own the chain and the
    /// block must verify; then the chain takes the block's QC.
    pub fn accept_proposal(&self, block: &Block, chain: &mut Chain) -> (r: ConsensusResult<()>)
        requires
            self.committee.wf(),
            old(chain).wf(self.committee),
            block.qc.height < SeqNumber::MAX,
        ensures
            final(chain).wf(self.committee),
            block.author != old(chain).name ==> *final(chain) == *old(chain) && match r {
                Err(ConsensusError::WrongAuthor { digest, author, height }) => digest@ == crate::crypto::Hash::spec_digest(block)
                    && author == block.author && height == block.height,
                _ => false,
            },
            block.author == old(chain).name ==> exists|v: ConsensusResult<()>| {
                &&& #[trigger] block_outcome(self.committee, *block, v)
                &&& v is Err ==> r == v && *final(chain) == *old(chain)
                &&& v is Ok ==> r is Ok && final(chain).took_qc(*old(chain), block.qc, self.epoch)
            },
    {
        if block.author != chain.name {
            let digest = crate::crypto::Hash::digest(block);
            return Err(ConsensusError::WrongAuthor { digest, author: block.author, height: block.height });
        }
        let v = block.verify(&self.committee);
        if v.is_err() {
            return v;
        }
        chain.process_qc(&block.qc, self.epoch);
        proof {
            assert(block_outcome(self.committee, *block, v));
        }
        Ok(())
    }

    /// Decides whether the node times out the leader chain `chain`. A TC
    /// for the current epoch puts the node into the view change; while the
    /// view changes there is nothing more to do. Otherwise, when some chain
    /// is more than `LAMBDA_VAL` heights ahead of the leader chain, the view
    /// change starts and the node is to time the leader chain out.
    pub fn check_timeout(&mut self, chain: &Chain) -> (timeout: bool)
        requires
            old(self).wf(),
        ensures
            final(self).wf(),
            ({
                let o = *old(self);
                let tc = o.tc_cache@.contains_key(o.epoch);
                let ahead = some_chain_ahead(o.pubkey_to_chain@, chain.height);
                &&& timeout == (!tc && !o.is_view_change && ahead)
                &&& final(self).is_view_change == (o.is_view_change || tc || ahead)
                &&& final(self).unchanged_but(o, Touched { round_state: true, ..touch_none() })
                &&& final(self).same_round_state(Core { is_view_change: final(self).is_view_change, ..o })
            }),
    {
        if self.tc_cache.contains_key(&self.epoch) {
            self.is_view_change = true;
        }
        if self.is_view_change {
            return false;
        }
        let current = chain.height;
        let keys = self.pubkey_to_chain.keys();
        let mut ahead = false;
        let mut i: usize = 0;
        while i < keys.len() && !ahead
            invariant
                self.wf(),
                i <= keys@.len(),
                forall|k: PublicKey| self.pubkey_to_chain@.contains_key(k) <==> keys@.contains(k),
                !ahead ==> forall|j: int| 0 <= j < i ==> !(current + LAMBDA_VAL < #[trigger] self.pubkey_to_chain@[keys@[j]].height),
                ahead ==> some_chain_ahead(self.pubkey_to_chain@, current),
                current == chain.height,
            decreases keys@.len() - i,
        {
            let k = keys[i];
            assert(keys@.contains(k)) by {
                assert(keys@[i as int] == k);
            }
            match self.pubkey_to_chain.get(&k) {
                Some(other) => {
                    if other.height > LAMBDA_VAL && current < other.height - LAMBDA_VAL {
                        ahead = true;
                    }
                    assert(*other == self.pubkey_to_chain@[keys@[i as int]]);
                },
                None => {
                    assert(self.pubkey_to_chain@.contains_key(k));
                },
            }
            i = i + 1;
        }
        proof {
            if !ahead {
                assert forall|k: PublicKey| #[trigger] self.pubkey_to_chain@.contains_key(k)
                    implies !(current + LAMBDA_VAL < self.pubkey_to_chain@[k].height) by {
                    assert(keys@.contains(k));
                    let j = choose|j: int| 0 <= j < keys@.len() && keys@[j] == k;
                    assert(self.pubkey_to_chain@[keys@[j]].height == self.pubkey_to_chain@[k].height);
                }
            }
        }
        if ahead {
            self.is_view_change = true;
        }
        ahead
    }

    /// Times out the leader chain `chain`: no block at or below its height
    /// gets our vote any more, and the timeout carries the chain's highest
    /// QC, signed by the node.
    pub fn local_timeout_round(&self, chain: &mut Chain) -> (t: Timeout)
        ensures
            final(chain).last_voted_height == if old(chain).height > old(chain).last_voted_height {
                old(chain).height
            } else {
                old(chain).last_voted_height
            },
            final(chain).same_but_votes(*old(chain)),
            same_qc(t.high_qc, old(chain).high_qc),
            t.epoch == self.epoch,
            t.author == self.name,
            t.signature@ == ed25519_signature(self.signature_service.key(), crate::crypto::Hash::spec_digest(&t)),
    {
        let h = chain.height;
        chain.increase_last_voted_round(h);
        Timeout::new(chain.high_qc.clone(), self.epoch, self.name, &self.signature_service)
    }

    /// Makes our block on `chain` with the payload `payload`, signed by the
    /// node. It carries the chain's highest QC and its
    /// epoch, or, to start a new epoch (`tag`), the genesis QC and the
    /// current epoch; and it refers to the highest certified block of every
    /// other chain that has one.
    pub fn generate_proposal(&self, chain: &Chain, tag: bool, payload: Vec<Digest>) -> (b: Block)
        requires
            self.wf(),
        ensures
            b.author == self.name,
            b.height == chain.height,
            tag ==> b.qc.is_genesis() && b.qc.epoch == 0 && b.qc.votes@.len() == 0 && b.epoch == self.epoch,
            !tag ==> same_qc(b.qc, chain.high_qc) && b.epoch == chain.high_qc.epoch,
            b.payload@ == payload@,
            b.references@ == proposal_refs(self.committee.members(), self.pubkey_to_chain@, chain.name),
            b.signature@ == ed25519_signature(self.signature_service.key(), crate::crypto::Hash::spec_digest(&b)),
    {
        let auths = self.committee.authorities();
        let mut references: Vec<(PublicKey, Digest)> = Vec::new();
        let genesis = QC::genesis();
        let mut i: usize = 0;
        assert(auths@.subrange(0, 0) =~= Seq::<Authority>::empty());
        while i < auths.len()
            invariant
                self.wf(),
                i <= auths@.len(),
                auths@ == self.committee.members(),
                genesis.hash@ == crate::crypto::zero_bytes(32) && genesis.height == 0,
                references@ == proposal_refs(auths@.subrange(0, i as int), self.pubkey_to_chain@, chain.name),
            decreases auths@.len() - i,
        {
            let name = auths[i].name;
            proof {
                let sub = auths@.subrange(0, i + 1);
                assert(sub.drop_last() =~= auths@.subrange(0, i as int));
                assert(sub.last().name == name);
            }
            if name != chain.name {
                match self.pubkey_to_chain.get(&name) {
                    Some(other) => {
                        proof {
                            crate::crypto::lemma_digest_view_eq(other.high_qc.hash, genesis.hash);
                        }
                        if !(other.high_qc == genesis) {
                            references.push((name, other.high_qc.hash));
                        }
                    },
                    None => {},
                }
            }
            i = i + 1;
        }
        assert(auths@.subrange(0, auths@.len() as int) =~= auths@);
        let (qc, epoch) = if tag {
            (QC::genesis(), self.epoch)
        } else {
            let q = chain.high_qc.clone();
            let e = q.epoch;
            (q, e)
        };
        Block::new(qc, self.name, chain.height, epoch, payload, references, &self.signature_service)
    }

    /// After a decision, moves the agreement on while the view changes
    /// (as `update_phase` says) and tells what is next: nothing while the
    /// view is not changing; once a height is decided, its block on the
    /// leader chain `chain` is to be committed, when the chain knows its
    /// digest; else the gathered messages of the current phase are to be
    /// processed.
    pub fn update_aba_phase(&mut self, chain: &Chain) -> (step: PhaseStep)
        requires
            old(self).wf(),
            chain.height_to_digest.wf(),
        ensures
            final(self).wf(),
            !old(self).is_view_change ==> step is Idle && final(self).unchanged_but(*old(self), touch_none()),
            old(self).is_view_change ==> match final(self).aba_output_val {
                Some(h) => if chain.height_to_digest@.contains_key(h) {
                    step == PhaseStep::Commit(h, chain.height_to_digest@[h])
                } else {
                    step is Wait
                },
                None => step is Continue,
            },
            final(self).phase >= old(self).phase,
            final(self).aba_output_val == old(self).aba_output_val,
            final(self).unchanged_but(*old(self), Touched { round_state: true, aux_counts: true, ..touch_none() }),
            old(self).is_view_change ==> final(self).phase_updated(*old(self)),
    {
        if !self.is_view_change {
            return PhaseStep::Idle;
        }
        self.update_phase();
        match self.aba_output_val {
            Some(h) => match chain.height_to_digest.get(&h) {
                Some(d) => PhaseStep::Commit(h, *d),
                None => PhaseStep::Wait,
            },
            None => PhaseStep::Continue,
        }
    }

    /// The gathered message that a stage of the agreement is to process
    /// now, if any: the TC of this epoch while it has not been taken; in
    /// the value phase or later, the proofs of f+1 and of a quorum for the
    /// current round; in the auxiliary phase or later, the proof of a
    /// quorum of auxiliary values; in the coin phase, the coin; and while
    /// the view changes, a decision proof of the current round.
    pub fn pending_aba_work(&self, stage: AbaStage) -> (w: Option<AbaWork>)
        requires
            self.wf(),
        ensures
            ({
                let k = (self.epoch, self.aba_round);
                match stage {
                    AbaStage::Tc => if !self.tc_processed && self.tc_cache@.contains_key(self.epoch) {
                        w matches Some(AbaWork::Tc(tc)) && tc.epoch == self.tc_cache@[self.epoch].epoch
                            && tc.votes@ == self.tc_cache@[self.epoch].votes@
                    } else {
                        w is None
                    },
                    AbaStage::ValEcho => if self.phase >= VAL_PHASE && self.aba_val_phase_cache1@.contains_key(k) {
                        w matches Some(AbaWork::ValEcho(p)) && same_proof(p, self.aba_val_phase_cache1@[k])
                    } else {
                        w is None
                    },
                    AbaStage::ValBinary => if self.phase >= VAL_PHASE && self.aba_val_phase_cache2@.contains_key(k) {
                        w matches Some(AbaWork::ValBinary(p)) && same_proof(p, self.aba_val_phase_cache2@[k])
                    } else {
                        w is None
                    },
                    AbaStage::Aux => if self.phase >= AUX_PHASE && self.aba_aux_phase_cache@.contains_key(k) {
                        w matches Some(AbaWork::Aux(p)) && same_proof(p, self.aba_aux_phase_cache@[k])
                    } else {
                        w is None
                    },
                    AbaStage::Coin => if self.phase >= COIN_PHASE && self.aba_coin_cache@.contains_key(k) {
                        w == Some(AbaWork::Coin(self.aba_coin_cache@[k]))
                    } else {
                        w is None
                    },
                    AbaStage::Help => if self.is_view_change && self.aba_proof_cache@.contains_key(k) {
                        w matches Some(AbaWork::Help(p)) && same_proof(p, self.aba_proof_cache@[k])
                    } else {
                        w is None
                    },
                }
            }),
    {
        let k = (self.epoch, self.aba_round);
        match stage {
            AbaStage::Tc => {
                if self.tc_processed {
                    return None;
                }
                match self.tc_cache.get(&self.epoch) {
                    Some(tc) => Some(AbaWork::Tc(tc.clone())),
                    None => None,
                }
            },
            AbaStage::ValEcho => {
                if self.phase < VAL_PHASE {
                    return None;
                }
                match self.aba_val_phase_cache1.get(&k) {
                    Some(p) => Some(AbaWork::ValEcho(p.clone())),
                    None => None,
                }
            },
            AbaStage::ValBinary => {
                if self.phase < VAL_PHASE {
                    return None;
                }
                match self.aba_val_phase_cache2.get(&k) {
                    Some(p) => Some(AbaWork::ValBinary(p.clone())),
                    None => None,
                }
            },
            AbaStage::Aux => {
                if self.phase < AUX_PHASE {
                    return None;
                }
                match self.aba_aux_phase_cache.get(&k) {
                    Some(p) => Some(AbaWork::Aux(p.clone())),
                    None => None,
                }
            },
            AbaStage::Coin => {
                if self.phase < COIN_PHASE {
                    return None;
                }
                match self.aba_coin_cache.get(&k) {
                    Some(c) => Some(AbaWork::Coin(*c)),
                    None => None,
                }
            },
            AbaStage::Help => {
                if !self.is_view_change {
                    return None;
                }
                match self.aba_proof_cache.get(&k) {
                    Some(p) => Some(AbaWork::Help(p.clone())),
                    None => None,
                }
            },
        }
    }
}

} // verus!
