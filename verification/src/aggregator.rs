use vstd::prelude::*;
use crate::config::{Committee, SeqNumber, Stake};
use crate::protocol::VAL_PHASE;
use crate::crypto::{
    Digest, PublicKey, Signature, TssPublicKeySet, coin_of, coin_from_signature, contains_public_key, ed25519_verify_strict,
    hash_digest, tss_combined,
};
use crate::error::{ConsensusError, ConsensusResult};
use crate::messages::{
    ABAProof, ABAVal, QC, RandomnessShare, TC, Timeout, Vote, VoteFault, aba_bytes, aba_proof_outcome, aba_proof_signed, qc_outcome, qc_signed, tally, tc_check,
    tc_signatures_valid, timeout_bytes, timeout_outcome,
    voters, timeout_voters,
};
use crate::util::{VecMap, copy_vec, insert_all, lemma_push_no_duplicates, sorted_insert_exec};

verus! {

// ---------------------------------------------------------------------------
// Counting the stake of distinct voters
// ---------------------------------------------------------------------------

/// `weight` counts stake of the distinct voters `used`, never more than
/// they hold together.
pub open spec fn tally_wf(c: Committee, weight: Stake, used: Seq<PublicKey>) -> bool {
    &&& used.no_duplicates()
    &&& weight + c.remaining(used) <= c.total_stake()
}

/// A quorum of the stake of `used` has been spent on a certificate already:
/// what `weight` counts now comes on top of it.
pub open spec fn quorum_spent(c: Committee, weight: Stake, used: Seq<PublicKey>) -> bool {
    weight + c.quorum() + c.remaining(used) <= c.total_stake()
}

/// The stake that the members among `used` hold together.
pub open spec fn counted(c: Committee, used: Seq<PublicKey>) -> int {
    c.total_stake() - c.remaining(used)
}

/// Less than a quorum is left once a quorum is counted: two quorums do not fit
/// in the total.
proof fn lemma_two_quorums(total: nat)
    ensures
        total < 2 * (2 * total / 3 + 1),
{
    assert(total < 2 * (2 * total / 3 + 1)) by (nonlinear_arith);
}

/// Distinct voters who all hold stake count as the stake they hold together.
pub proof fn lemma_tally_distinct(c: Committee, names: Seq<PublicKey>)
    requires
        c.wf(),
        names.no_duplicates(),
        forall|i: int| 0 <= i < names.len() ==> c.stake_of(#[trigger] names[i]) > 0,
    ensures
        tally(c, names) == Ok::<nat, VoteFault>(counted(c, names) as nat),
        counted(c, names) >= 0,
    decreases names.len(),
{
    if names.len() == 0 {
        c.lemma_remaining_empty();
        assert(names =~= Seq::<PublicKey>::empty());
    } else {
        let prev = names.drop_last();
        let last = names.last();
        assert forall|i: int| 0 <= i < prev.len() implies c.stake_of(#[trigger] prev[i]) > 0 by {
            assert(prev[i] == names[i]);
        }
        lemma_tally_distinct(c, prev);
        assert(!prev.contains(last)) by {
            if prev.contains(last) {
                let k = choose|k: int| 0 <= k < prev.len() && prev[k] == last;
                assert(names[k] == names[names.len() - 1]);
            }
        }
        c.lemma_remaining_push(prev, last);
        assert(prev.push(last) =~= names);
        assert(c.remaining(names) == c.remaining(prev.push(last)));
        assert(c.stake_of(names[names.len() - 1]) > 0);
    }
}

/// A QC assembled from votes of distinct members whose stake reaches a
/// quorum (as `QCMaker::append` makes them from checked votes) passes the
/// count of `QC::verify`, so only the batch check of its signatures can
/// refuse it; when every vote's signature verifies on the QC's digest under
/// a torsion-free key, it passes `QC::verify`.
pub proof fn lemma_assembled_qc_verifies(c: Committee, qc: QC, r: ConsensusResult<()>)
    requires
        c.wf(),
        voters(qc.votes@).no_duplicates(),
        forall|i: int| 0 <= i < qc.votes@.len() ==> c.stake_of(#[trigger] qc.votes@[i].0) > 0,
        counted(c, voters(qc.votes@)) >= c.quorum(),
        qc_outcome(c, qc, r),
    ensures
        r is Ok || r == Err::<(), ConsensusError>(ConsensusError::InvalidSignature),
        crate::messages::votes_batchable(crate::crypto::Hash::spec_digest(&qc), qc.votes@) ==> r is Ok,
{
    let names = voters(qc.votes@);
    assert forall|i: int| 0 <= i < names.len() implies c.stake_of(#[trigger] names[i]) > 0 by {
        assert(names[i] == qc.votes@[i].0);
    }
    lemma_tally_distinct(c, names);
}

/// A TC assembled from timeouts of distinct members whose stake reaches a
/// quorum, each signed on its own digest, passes `TC::verify`.
pub proof fn lemma_assembled_tc_verifies(c: Committee, tc: TC)
    requires
        c.wf(),
        timeout_voters(tc.votes@).no_duplicates(),
        forall|i: int| 0 <= i < tc.votes@.len() ==> c.stake_of(#[trigger] tc.votes@[i].0) > 0,
        counted(c, timeout_voters(tc.votes@)) >= c.quorum(),
        tc_signatures_valid(tc.epoch, tc.votes@),
    ensures
        tc_check(c, tc) is Ok,
{
    let names = timeout_voters(tc.votes@);
    assert forall|i: int| 0 <= i < names.len() implies c.stake_of(#[trigger] names[i]) > 0 by {
        assert(names[i] == tc.votes@[i].0);
    }
    lemma_tally_distinct(c, names);
}

/// Records `author` as a voter and adds its stake to `weight`, unless it has
/// voted before.
fn add_voter(c: &Committee, weight: Stake, used: &mut Vec<PublicKey>, author: PublicKey) -> (r: Option<Stake>)
    requires
        c.wf(),
        tally_wf(*c, weight, old(used)@),
    ensures
        r is None <==> old(used)@.contains(author),
        r is None ==> final(used)@ == old(used)@,
        r is Some ==> final(used)@ == old(used)@.push(author),
        r is Some ==> r->0 as nat == weight + c.stake_of(author),
        r is Some ==> tally_wf(*c, r->0, final(used)@),
        r is Some && quorum_spent(*c, weight, old(used)@) ==> quorum_spent(*c, r->0, final(used)@),
{
    if contains_public_key(used, &author) {
        return None;
    }
    let s = c.stake(&author);
    proof {
        c.lemma_remaining_push(used@, author);
        c.lemma_total_bound();
    }
    let ghost before = used@;
    used.push(author);
    proof {
        lemma_push_no_duplicates(before, author);
    }
    Some(weight + s)
}

/// What a maker holds: the weight counted since the last certificate, the
/// votes in the order they came, and their distinct authors.
pub struct MakerView<T> {
    pub weight: Stake,
    pub votes: Seq<T>,
    pub used: Seq<PublicKey>,
}

/// A maker with nothing collected.
pub open spec fn empty_maker<T>() -> MakerView<T> {
    MakerView { weight: 0, votes: Seq::empty(), used: Seq::empty() }
}

/// The maker view of a map entry, or an empty maker if there is none.
pub open spec fn maker_or_empty<K, T>(m: Map<K, MakerView<T>>, k: K) -> MakerView<T> {
    if m.contains_key(k) {
        m[k]
    } else {
        empty_maker()
    }
}

// ---------------------------------------------------------------------------
// QC maker
// ---------------------------------------------------------------------------

/// Collects votes for one block until they hold a quorum.
pub struct QCMaker {
    pub weight: Stake,
    pub votes: Vec<(PublicKey, Signature)>,
    pub used: Vec<PublicKey>,
}

impl View for QCMaker {
    type V = MakerView<(PublicKey, Signature)>;

    open spec fn view(&self) -> MakerView<(PublicKey, Signature)> {
        MakerView { weight: self.weight, votes: self.votes@, used: self.used@ }
    }
}

impl QCMaker {
    /// The voters are the distinct authors of the votes, and `weight` counts
    /// at most their stake.
    pub open spec fn wf(m: MakerView<(PublicKey, Signature)>, c: Committee) -> bool {
        &&& tally_wf(c, m.weight, m.used)
        &&& m.used == voters(m.votes)
    }

    /// What appending `vote` to `old` does: a repeated author is refused and
    /// nothing changes; otherwise the vote is recorded, and once the stake
    /// reaches a quorum a QC for the vote's block is made of all the votes
    /// and the weight drops to 0.
    pub open spec fn append_post(old: MakerView<(PublicKey, Signature)>, vote: Vote, c: Committee, new: MakerView<(PublicKey, Signature)>, r: ConsensusResult<Option<QC>>) -> bool {
        if old.used.contains(vote.author) {
            &&& r == Err::<Option<QC>, ConsensusError>(ConsensusError::AuthorityReuseinQC(vote.author))
            &&& new.weight == old.weight
            &&& new.votes == old.votes
            &&& new.used == old.used
        } else {
            &&& new.used == old.used.push(vote.author)
            &&& new.votes == old.votes.push((vote.author, vote.signature))
            &&& if old.weight + c.stake_of(vote.author) >= c.quorum() {
                &&& new.weight == 0
                &&& r matches Ok(Some(qc))
                &&& qc.hash == vote.hash
                &&& qc.epoch == vote.epoch
                &&& qc.height == vote.height
                &&& qc.votes@ == new.votes
            } else {
                &&& new.weight == old.weight + c.stake_of(vote.author)
                &&& r matches Ok(None)
            }
        }
    }

    pub fn new() -> (m: Self)
        ensures
            m@ == empty_maker::<(PublicKey, Signature)>(),
    {
        QCMaker { weight: 0, votes: Vec::new(), used: Vec::new() }
    }

    /// An empty maker is well formed for every committee.
    pub proof fn lemma_empty_wf(c: Committee)
        ensures
            QCMaker::wf(empty_maker(), c),
    {
        c.lemma_remaining_empty();
        assert(voters(Seq::<(PublicKey, Signature)>::empty()) =~= Seq::<PublicKey>::empty());
    }

    /// Adds a vote; returns the QC once the votes hold a quorum of stake.
    /// A QC is made at most once: after it, the votes still to come cannot
    /// reach a second quorum. The voters of a QC made here are distinct and
    /// hold a quorum of stake.
    pub fn append(&mut self, vote: Vote, committee: &Committee) -> (r: ConsensusResult<Option<QC>>)
        requires
            committee.wf(),
            QCMaker::wf(old(self)@, *committee),
        ensures
            QCMaker::wf(final(self)@, *committee),
            QCMaker::append_post(old(self)@, vote, *committee, final(self)@, r),
            r matches Ok(Some(qc)) ==> quorum_spent(*committee, final(self).weight, final(self).used@),
            r matches Ok(Some(qc)) ==> voters(qc.votes@).no_duplicates() && counted(*committee, voters(qc.votes@)) >= committee.quorum(),
            quorum_spent(*committee, old(self).weight, old(self).used@) ==> quorum_spent(*committee, final(self).weight, final(self).used@) && !(r matches Ok(Some(_))),
    {
        let author = vote.author;
        let ghost old_self = *self;
        match add_voter(committee, self.weight, &mut self.used, author) {
            None => Err(ConsensusError::AuthorityReuseinQC(author)),
            Some(w) => {
                self.votes.push((author, vote.signature));
                self.weight = w;
                proof {
                    assert(self.used@ =~= voters(self.votes@));
                    lemma_two_quorums(committee.total_stake());
                    committee.lemma_remaining_push(old_self.used@, author);
                }
                if self.weight >= committee.quorum_threshold() {
                    self.weight = 0;
                    return Ok(Some(QC { hash: vote.hash, epoch: vote.epoch, height: vote.height, votes: copy_vec(&self.votes) }));
                }
                Ok(None)
            },
        }
    }
}


/// One append on a well-formed QC maker keeps it well formed; a QC spends
/// a quorum, and a spent quorum stays spent and yields no further QC.
proof fn lemma_qc_append_step(
    c: Committee,
    old: MakerView<(PublicKey, Signature)>,
    v: Vote,
    new: MakerView<(PublicKey, Signature)>,
    r: ConsensusResult<Option<QC>>,
)
    requires
        c.wf(),
        QCMaker::wf(old, c),
        QCMaker::append_post(old, v, c, new, r),
    ensures
        QCMaker::wf(new, c),
        r matches Ok(Some(_)) ==> quorum_spent(c, new.weight, new.used),
        quorum_spent(c, old.weight, old.used) ==> quorum_spent(c, new.weight, new.used) && !(r matches Ok(Some(_))),
{
    lemma_two_quorums(c.total_stake());
    if !old.used.contains(v.author) {
        c.lemma_remaining_push(old.used, v.author);
        crate::util::lemma_push_no_duplicates(old.used, v.author);
        assert(new.used == voters(new.votes)) by {
            assert(voters(new.votes) =~= voters(old.votes).push(v.author));
        }
    } else {
        assert(new == old);
    }
}

/// A QC maker that starts empty and is fed a run of votes (each result and
/// maker after it as `append` gives them) makes at most one QC: after the
/// first, no later vote makes another.
pub proof fn lemma_qc_made_once(
    c: Committee,
    makers: Seq<MakerView<(PublicKey, Signature)>>,
    votes: Seq<Vote>,
    results: Seq<ConsensusResult<Option<QC>>>,
)
    requires
        c.wf(),
        makers.len() == votes.len() + 1,
        results.len() == votes.len(),
        makers[0] == empty_maker::<(PublicKey, Signature)>(),
        forall|i: int| 0 <= i < votes.len()
            ==> QCMaker::append_post(makers[i], #[trigger] votes[i], c, makers[i + 1], results[i]),
    ensures
        forall|i: int, j: int| 0 <= i < j < votes.len() && (#[trigger] results[i] matches Ok(Some(_)))
            ==> !(#[trigger] results[j] matches Ok(Some(_))),
{
    assert forall|i: int, j: int| 0 <= i < j < votes.len() && (#[trigger] results[i] matches Ok(Some(_)))
        implies !(#[trigger] results[j] matches Ok(Some(_))) by {
        lemma_qc_run(c, makers, votes, results, j);
    }
}

/// The stake of the authors of the first `n` votes.
pub open spec fn stake_of_first(c: Committee, votes: Seq<Vote>, n: int) -> int
    decreases n,
{
    if n <= 0 {
        0
    } else {
        stake_of_first(c, votes, n - 1) + c.stake_of(votes[n - 1].author)
    }
}

/// A QC maker that starts empty and is fed votes of distinct authors (each
/// result and maker after it as `append` gives them) makes its QC exactly at
/// the vote whose author's stake first brings the running total to a
/// quorum; every other vote gives no QC and no error.
pub proof fn lemma_qc_at_first_quorum(
    c: Committee,
    makers: Seq<MakerView<(PublicKey, Signature)>>,
    votes: Seq<Vote>,
    results: Seq<ConsensusResult<Option<QC>>>,
)
    requires
        c.wf(),
        makers.len() == votes.len() + 1,
        results.len() == votes.len(),
        makers[0] == empty_maker::<(PublicKey, Signature)>(),
        forall|i: int| 0 <= i < votes.len()
            ==> QCMaker::append_post(makers[i], #[trigger] votes[i], c, makers[i + 1], results[i]),
        forall|i: int, j: int| 0 <= i < j < votes.len() ==> (#[trigger] votes[i]).author != (#[trigger] votes[j]).author,
    ensures
        forall|i: int| 0 <= i < votes.len() ==> ((#[trigger] results[i] matches Ok(Some(_)))
            <==> stake_of_first(c, votes, i) < c.quorum() <= stake_of_first(c, votes, i + 1)),
        forall|i: int| 0 <= i < votes.len() ==> (#[trigger] results[i] matches Ok(Some(_)) || results[i] matches Ok(None)),
{
    assert forall|i: int| 0 <= i < votes.len() implies ((#[trigger] results[i] matches Ok(Some(_)))
        <==> stake_of_first(c, votes, i) < c.quorum() <= stake_of_first(c, votes, i + 1))
        && (results[i] matches Ok(Some(_)) || results[i] matches Ok(None)) by {
        lemma_qc_first_run(c, makers, votes, results, i);
        assert(QCMaker::append_post(makers[i], votes[i], c, makers[i + 1], results[i]));
        lemma_qc_append_step(c, makers[i], votes[i], makers[i + 1], results[i]);
        assert(!makers[i].used.contains(votes[i].author)) by {
            if makers[i].used.contains(votes[i].author) {
                let k = choose|k: int| 0 <= k < makers[i].used.len() && makers[i].used[k] == votes[i].author;
                assert(votes[k].author == votes[i].author);
            }
        }
    }
}

/// Along a run of votes of distinct authors: the maker has recorded exactly
/// the authors so far, and it counts their stake until it reaches a quorum,
/// after which the quorum is spent.
proof fn lemma_qc_first_run(
    c: Committee,
    makers: Seq<MakerView<(PublicKey, Signature)>>,
    votes: Seq<Vote>,
    results: Seq<ConsensusResult<Option<QC>>>,
    n: int,
)
    requires
        c.wf(),
        makers.len() == votes.len() + 1,
        results.len() == votes.len(),
        makers[0] == empty_maker::<(PublicKey, Signature)>(),
        forall|i: int| 0 <= i < votes.len()
            ==> QCMaker::append_post(makers[i], #[trigger] votes[i], c, makers[i + 1], results[i]),
        forall|i: int, j: int| 0 <= i < j < votes.len() ==> (#[trigger] votes[i]).author != (#[trigger] votes[j]).author,
        0 <= n <= votes.len(),
    ensures
        QCMaker::wf(makers[n], c),
        makers[n].used.len() == n,
        forall|k: int| 0 <= k < n ==> makers[n].used[k] == (#[trigger] votes[k]).author,
        stake_of_first(c, votes, n) < c.quorum() ==> makers[n].weight == stake_of_first(c, votes, n),
        stake_of_first(c, votes, n) >= c.quorum() ==> quorum_spent(c, makers[n].weight, makers[n].used),
    decreases n,
{
    if n == 0 {
        QCMaker::lemma_empty_wf(c);
    } else {
        let p = n - 1;
        lemma_qc_first_run(c, makers, votes, results, p);
        let o = makers[p];
        let v = votes[p];
        assert(QCMaker::append_post(o, v, c, makers[n], results[p]));
        assert(!o.used.contains(v.author)) by {
            if o.used.contains(v.author) {
                let k = choose|k: int| 0 <= k < o.used.len() && o.used[k] == v.author;
                assert(votes[k].author == votes[p].author);
            }
        }
        lemma_qc_append_step(c, o, v, makers[n], results[p]);
        assert forall|k: int| 0 <= k < n implies makers[n].used[k] == (#[trigger] votes[k]).author by {
            if k < p {
                assert(makers[n].used[k] == o.used[k]);
            }
        }
        if stake_of_first(c, votes, p) < c.quorum() {
            if stake_of_first(c, votes, n) >= c.quorum() {
                assert(results[p] matches Ok(Some(_)));
            }
        }
    }
}

/// Along such a run, every maker is well formed, and after a QC the quorum
/// stays spent.
proof fn lemma_qc_run(
    c: Committee,
    makers: Seq<MakerView<(PublicKey, Signature)>>,
    votes: Seq<Vote>,
    results: Seq<ConsensusResult<Option<QC>>>,
    n: int,
)
    requires
        c.wf(),
        makers.len() == votes.len() + 1,
        results.len() == votes.len(),
        makers[0] == empty_maker::<(PublicKey, Signature)>(),
        forall|i: int| 0 <= i < votes.len()
            ==> QCMaker::append_post(makers[i], #[trigger] votes[i], c, makers[i + 1], results[i]),
        0 <= n < votes.len(),
    ensures
        QCMaker::wf(makers[n], c),
        forall|i: int| 0 <= i < n && (#[trigger] results[i] matches Ok(Some(_)))
            ==> quorum_spent(c, makers[n].weight, makers[n].used),
        (exists|i: int| 0 <= i < n && (#[trigger] results[i] matches Ok(Some(_)))) ==> !(results[n] matches Ok(Some(_))),
    decreases n,
{
    if n == 0 {
        QCMaker::lemma_empty_wf(c);
    } else {
        lemma_qc_run(c, makers, votes, results, n - 1);
        let p = n - 1;
        assert(QCMaker::append_post(makers[p], votes[p], c, makers[p + 1], results[p]));
        lemma_qc_append_step(c, makers[p], votes[p], makers[n], results[p]);
    }
    assert(QCMaker::append_post(makers[n], votes[n], c, makers[n + 1], results[n]));
    lemma_qc_append_step(c, makers[n], votes[n], makers[n + 1], results[n]);
}

// ---------------------------------------------------------------------------
// TC maker
// ---------------------------------------------------------------------------

/// Collects timeouts for one epoch until they hold a quorum.
pub struct TCMaker {
    pub weight: Stake,
    pub votes: Vec<(PublicKey, Signature, SeqNumber)>,
    pub used: Vec<PublicKey>,
}

impl View for TCMaker {
    type V = MakerView<(PublicKey, Signature, SeqNumber)>;

    open spec fn view(&self) -> MakerView<(PublicKey, Signature, SeqNumber)> {
        MakerView { weight: self.weight, votes: self.votes@, used: self.used@ }
    }
}

impl TCMaker {
    /// The senders are the distinct authors of the timeouts, and `weight`
    /// counts at most their stake.
    pub open spec fn wf(m: MakerView<(PublicKey, Signature, SeqNumber)>, c: Committee) -> bool {
        &&& tally_wf(c, m.weight, m.used)
        &&& m.used == timeout_voters(m.votes)
    }

    /// What appending `timeout` to `old` does: a repeated author is refused
    /// and nothing changes; otherwise the timeout is recorded with the height
    /// of its QC, and once the stake reaches a quorum a TC for the timeout's
    /// epoch is made of all of them and the weight drops to 0.
    pub open spec fn append_post(old: MakerView<(PublicKey, Signature, SeqNumber)>, timeout: Timeout, c: Committee, new: MakerView<(PublicKey, Signature, SeqNumber)>, r: ConsensusResult<Option<TC>>) -> bool {
        if old.used.contains(timeout.author) {
            &&& r == Err::<Option<TC>, ConsensusError>(ConsensusError::AuthorityReuseinTC(timeout.author))
            &&& new.weight == old.weight
            &&& new.votes == old.votes
            &&& new.used == old.used
        } else {
            &&& new.used == old.used.push(timeout.author)
            &&& new.votes == old.votes.push((timeout.author, timeout.signature, timeout.high_qc.height))
            &&& if old.weight + c.stake_of(timeout.author) >= c.quorum() {
                &&& new.weight == 0
                &&& r matches Ok(Some(tc))
                &&& tc.epoch == timeout.epoch
                &&& tc.votes@ == new.votes
            } else {
                &&& new.weight == old.weight + c.stake_of(timeout.author)
                &&& r matches Ok(None)
            }
        }
    }

    pub fn new() -> (m: Self)
        ensures
            m@ == empty_maker::<(PublicKey, Signature, SeqNumber)>(),
    {
        TCMaker { weight: 0, votes: Vec::new(), used: Vec::new() }
    }

    /// An empty maker is well formed for every committee.
    pub proof fn lemma_empty_wf(c: Committee)
        ensures
            TCMaker::wf(empty_maker(), c),
    {
        c.lemma_remaining_empty();
        assert(timeout_voters(Seq::<(PublicKey, Signature, SeqNumber)>::empty()) =~= Seq::<PublicKey>::empty());
    }

    /// Adds a timeout; returns the TC once the timeouts hold a quorum of
    /// stake. A TC is made at most once, and its senders are distinct and
    /// hold a quorum of stake.
    pub fn append(&mut self, timeout: Timeout, committee: &Committee) -> (r: ConsensusResult<Option<TC>>)
        requires
            committee.wf(),
            TCMaker::wf(old(self)@, *committee),
        ensures
            TCMaker::wf(final(self)@, *committee),
            TCMaker::append_post(old(self)@, timeout, *committee, final(self)@, r),
            r matches Ok(Some(tc)) ==> quorum_spent(*committee, final(self).weight, final(self).used@),
            r matches Ok(Some(tc)) ==> timeout_voters(tc.votes@).no_duplicates()
                && counted(*committee, timeout_voters(tc.votes@)) >= committee.quorum(),
            quorum_spent(*committee, old(self).weight, old(self).used@) ==> quorum_spent(*committee, final(self).weight, final(self).used@) && !(r matches Ok(Some(_))),
    {
        let author = timeout.author;
        let ghost old_self = *self;
        match add_voter(committee, self.weight, &mut self.used, author) {
            None => Err(ConsensusError::AuthorityReuseinTC(author)),
            Some(w) => {
                self.votes.push((author, timeout.signature, timeout.high_qc.height));
                self.weight = w;
                proof {
                    assert(self.used@ =~= timeout_voters(self.votes@));
                    lemma_two_quorums(committee.total_stake());
                    committee.lemma_remaining_push(old_self.used@, author);
                }
                if self.weight >= committee.quorum_threshold() {
                    self.weight = 0;
                    return Ok(Some(TC { epoch: timeout.epoch, votes: copy_vec(&self.votes) }));
                }
                Ok(None)
            },
        }
    }
}

/// Whether two answers to a vote are alike: the same error, both no QC, or
/// QCs for the same block, epoch and height made of the same votes.
pub open spec fn same_vote_answer(r1: ConsensusResult<Option<QC>>, r2: ConsensusResult<Option<QC>>) -> bool {
    match (r1, r2) {
        (Ok(Some(q1)), Ok(Some(q2))) => q1.hash == q2.hash && q1.epoch == q2.epoch && q1.height == q2.height
            && q1.votes@ == q2.votes@,
        _ => r1 == r2,
    }
}

/// A vote is answered by the maker of its (height, digest) alone: two
/// aggregators over one committee whose makers for the vote's block hold the
/// same votes and weight answer it alike (as `add_vote` states its answer)
/// and end with equal makers for that block, whatever else either has
/// gathered; so an author's earlier vote for another block or height
/// neither counts toward this QC nor makes this vote a repeat.
pub proof fn lemma_vote_answer_by_its_block(
    a1: Aggregator,
    a2: Aggregator,
    f1: Aggregator,
    f2: Aggregator,
    v: Vote,
    r1: ConsensusResult<Option<QC>>,
    r2: ConsensusResult<Option<QC>>,
)
    requires
        a1.committee == a2.committee,
        a1.vote_maker(v.height, digest_key(crate::crypto::Hash::spec_digest(&v)))
            == a2.vote_maker(v.height, digest_key(crate::crypto::Hash::spec_digest(&v))),
        QCMaker::append_post(a1.vote_maker(v.height, digest_key(crate::crypto::Hash::spec_digest(&v))), v, a1.committee,
            f1.vote_maker(v.height, digest_key(crate::crypto::Hash::spec_digest(&v))), r1),
        QCMaker::append_post(a2.vote_maker(v.height, digest_key(crate::crypto::Hash::spec_digest(&v))), v, a2.committee,
            f2.vote_maker(v.height, digest_key(crate::crypto::Hash::spec_digest(&v))), r2),
    ensures
        f1.vote_maker(v.height, digest_key(crate::crypto::Hash::spec_digest(&v)))
            == f2.vote_maker(v.height, digest_key(crate::crypto::Hash::spec_digest(&v))),
        same_vote_answer(r1, r2),
{
}

/// The (height, digest) whose maker a vote goes to.
pub open spec fn vote_key(v: Vote) -> (SeqNumber, Digest) {
    (v.height, digest_key(crate::crypto::Hash::spec_digest(&v)))
}

/// What `add_vote` states of one call: from `a` with vote `v` to `f` with
/// answer `r`, only the maker of the vote's key changes, as appending the
/// vote to it says.
pub open spec fn vote_step(a: Aggregator, v: Vote, f: Aggregator, r: ConsensusResult<Option<QC>>) -> bool {
    &&& f.committee == a.committee
    &&& forall|h2: SeqNumber, d2: Digest| (h2, d2) != vote_key(v)
        ==> #[trigger] f.vote_maker(h2, d2) == a.vote_maker(h2, d2)
    &&& QCMaker::append_post(a.vote_maker(vote_key(v).0, vote_key(v).1), v, a.committee,
        f.vote_maker(vote_key(v).0, vote_key(v).1), r)
}

/// A run of `add_vote` calls: `aggs[i]` becomes `aggs[i + 1]` with vote
/// `votes[i]` and answer `results[i]`.
pub open spec fn vote_run(aggs: Seq<Aggregator>, votes: Seq<Vote>, results: Seq<ConsensusResult<Option<QC>>>) -> bool {
    &&& aggs.len() == votes.len() + 1
    &&& results.len() == votes.len()
    &&& forall|i: int| 0 <= i < votes.len() ==> vote_step(aggs[i], #[trigger] votes[i], aggs[i + 1], results[i])
}

/// `idx` lists, in increasing order, exactly the positions of the votes
/// with key `k`.
pub open spec fn lists_key(votes: Seq<Vote>, idx: Seq<int>, k: (SeqNumber, Digest)) -> bool {
    &&& forall|j: int| 0 <= j < idx.len() ==> 0 <= #[trigger] idx[j] < votes.len() && vote_key(votes[idx[j]]) == k
    &&& forall|j1: int, j2: int| 0 <= j1 < j2 < idx.len() ==> #[trigger] idx[j1] < #[trigger] idx[j2]
    &&& forall|i: int| 0 <= i < votes.len() && vote_key(#[trigger] votes[i]) == k ==> exists|j: int| 0 <= j < idx.len() && idx[j] == i
}

/// Votes with other keys leave the maker of `k` as it was.
proof fn lemma_vote_run_unchanged(
    aggs: Seq<Aggregator>,
    votes: Seq<Vote>,
    results: Seq<ConsensusResult<Option<QC>>>,
    k: (SeqNumber, Digest),
    from: int,
    to: int,
)
    requires
        vote_run(aggs, votes, results),
        0 <= from <= to <= votes.len(),
        forall|p: int| from <= p < to ==> vote_key(#[trigger] votes[p]) != k,
    ensures
        aggs[to].vote_maker(k.0, k.1) == aggs[from].vote_maker(k.0, k.1),
        aggs[to].committee == aggs[from].committee,
    decreases to - from,
{
    if from < to {
        lemma_vote_run_unchanged(aggs, votes, results, k, from, to - 1);
        assert(vote_step(aggs[to - 1], votes[to - 1], aggs[to], results[to - 1]));
        assert(vote_key(votes[to - 1]) != k);
        assert(aggs[to].vote_maker(k.0, k.1) == aggs[to - 1].vote_maker(k.0, k.1));
    }
}

/// Between two listed positions (or before the first) no vote has key `k`.
proof fn lemma_lists_key_gap(votes: Seq<Vote>, idx: Seq<int>, k: (SeqNumber, Digest), j: int, p: int)
    requires
        lists_key(votes, idx, k),
        0 <= j < idx.len(),
        0 <= p < idx[j],
        j > 0 ==> idx[j - 1] < p,
    ensures
        vote_key(votes[p]) != k,
{
    if vote_key(votes[p]) == k {
        assert(idx[j] < votes.len());
        let m = choose|m: int| 0 <= m < idx.len() && idx[m] == p;
        if m < j {
            if m < j - 1 {
                assert(idx[m] < idx[j - 1]);
            }
        } else if m > j {
            assert(idx[j] < idx[m]);
        }
    }
}

/// The maker of `k` is the same in both runs at their `j`-th vote with key
/// `k`.
proof fn lemma_vote_runs_agree(
    k: (SeqNumber, Digest),
    aggs1: Seq<Aggregator>,
    votes1: Seq<Vote>,
    results1: Seq<ConsensusResult<Option<QC>>>,
    idx1: Seq<int>,
    aggs2: Seq<Aggregator>,
    votes2: Seq<Vote>,
    results2: Seq<ConsensusResult<Option<QC>>>,
    idx2: Seq<int>,
    j: int,
)
    requires
        vote_run(aggs1, votes1, results1),
        vote_run(aggs2, votes2, results2),
        aggs1[0].committee == aggs2[0].committee,
        aggs1[0].vote_maker(k.0, k.1) == aggs2[0].vote_maker(k.0, k.1),
        lists_key(votes1, idx1, k),
        lists_key(votes2, idx2, k),
        idx1.len() == idx2.len(),
        forall|m: int| 0 <= m < idx1.len() ==> votes1[idx1[m]] == votes2[#[trigger] idx2[m]],
        0 <= j < idx1.len(),
    ensures
        aggs1[idx1[j]].vote_maker(k.0, k.1) == aggs2[idx2[j]].vote_maker(k.0, k.1),
        aggs1[idx1[j]].committee == aggs2[idx2[j]].committee,
    decreases j,
{
    let start1 = if j == 0 { 0 } else { idx1[j - 1] + 1 };
    let start2 = if j == 0 { 0 } else { idx2[j - 1] + 1 };
    if j > 0 {
        lemma_vote_runs_agree(k, aggs1, votes1, results1, idx1, aggs2, votes2, results2, idx2, j - 1);
        let p1 = idx1[j - 1];
        let p2 = idx2[j - 1];
        assert(idx1[j - 1] < idx1[j] && idx2[j - 1] < idx2[j]);
        assert(votes1[p1] == votes2[p2]);
        assert(vote_step(aggs1[p1], votes1[p1], aggs1[p1 + 1], results1[p1]));
        assert(vote_step(aggs2[p2], votes2[p2], aggs2[p2 + 1], results2[p2]));
        assert(vote_key(votes1[p1]) == k);
    }
    assert forall|p: int| start1 <= p < idx1[j] implies vote_key(#[trigger] votes1[p]) != k by {
        lemma_lists_key_gap(votes1, idx1, k, j, p);
    }
    assert forall|p: int| start2 <= p < idx2[j] implies vote_key(#[trigger] votes2[p]) != k by {
        lemma_lists_key_gap(votes2, idx2, k, j, p);
    }
    lemma_vote_run_unchanged(aggs1, votes1, results1, k, start1, idx1[j]);
    lemma_vote_run_unchanged(aggs2, votes2, results2, k, start2, idx2[j]);
}

/// Two runs of `add_vote` from aggregators over one committee whose makers
/// for a block `k` agree (as for two new aggregators), and whose votes for
/// that block come in the same order, answer each of those votes alike,
/// whatever other votes either run takes in between: an author's votes for
/// other blocks or heights neither count toward this QC nor make a vote a
/// repeat.
pub proof fn lemma_vote_runs_answer_alike(
    k: (SeqNumber, Digest),
    aggs1: Seq<Aggregator>,
    votes1: Seq<Vote>,
    results1: Seq<ConsensusResult<Option<QC>>>,
    idx1: Seq<int>,
    aggs2: Seq<Aggregator>,
    votes2: Seq<Vote>,
    results2: Seq<ConsensusResult<Option<QC>>>,
    idx2: Seq<int>,
)
    requires
        vote_run(aggs1, votes1, results1),
        vote_run(aggs2, votes2, results2),
        aggs1[0].committee == aggs2[0].committee,
        aggs1[0].vote_maker(k.0, k.1) == aggs2[0].vote_maker(k.0, k.1),
        lists_key(votes1, idx1, k),
        lists_key(votes2, idx2, k),
        idx1.len() == idx2.len(),
        forall|m: int| 0 <= m < idx1.len() ==> votes1[idx1[m]] == votes2[#[trigger] idx2[m]],
    ensures
        forall|m: int| 0 <= m < idx1.len() ==> same_vote_answer(results1[idx1[m]], #[trigger] results2[idx2[m]]),
{
    assert forall|m: int| 0 <= m < idx1.len() implies same_vote_answer(results1[idx1[m]], #[trigger] results2[idx2[m]]) by {
        lemma_vote_runs_agree(k, aggs1, votes1, results1, idx1, aggs2, votes2, results2, idx2, m);
        let p1 = idx1[m];
        let p2 = idx2[m];
        assert(votes1[p1] == votes2[p2]);
        assert(vote_step(aggs1[p1], votes1[p1], aggs1[p1 + 1], results1[p1]));
        assert(vote_step(aggs2[p2], votes2[p2], aggs2[p2 + 1], results2[p2]));
        assert(vote_key(votes1[p1]) == k);
    }
}

/// Every timeout that a maker holds is by an author with stake, and its
/// signature verifies on the digest of epoch `e` and the QC height it
/// carried.
pub open spec fn timeouts_of_epoch_checked(c: Committee, e: SeqNumber, votes: Seq<(PublicKey, Signature, SeqNumber)>) -> bool {
    &&& forall|i: int| 0 <= i < votes.len() ==> c.stake_of(#[trigger] votes[i].0) > 0
    &&& tc_signatures_valid(e, votes)
}

/// A TC maker that starts empty and is fed a run of timeouts of one epoch
/// `e`, each of which passes `Timeout::verify`, makes only TCs that pass
/// `TC::verify`.
pub proof fn lemma_tc_from_checked_timeouts(
    c: Committee,
    e: SeqNumber,
    makers: Seq<MakerView<(PublicKey, Signature, SeqNumber)>>,
    timeouts: Seq<Timeout>,
    results: Seq<ConsensusResult<Option<TC>>>,
)
    requires
        c.wf(),
        makers.len() == timeouts.len() + 1,
        results.len() == timeouts.len(),
        makers[0] == empty_maker::<(PublicKey, Signature, SeqNumber)>(),
        forall|i: int| 0 <= i < timeouts.len()
            ==> TCMaker::append_post(makers[i], #[trigger] timeouts[i], c, makers[i + 1], results[i]),
        forall|i: int| 0 <= i < timeouts.len() ==> (#[trigger] timeouts[i]).epoch == e,
        forall|i: int| 0 <= i < timeouts.len() ==> timeout_outcome(c, #[trigger] timeouts[i], Ok(())),
    ensures
        forall|i: int| 0 <= i < timeouts.len() ==> (#[trigger] results[i] matches Ok(Some(tc)) ==> tc_check(c, tc) is Ok),
{
    assert forall|i: int| 0 <= i < timeouts.len() implies (#[trigger] results[i] matches Ok(Some(tc)) ==> tc_check(c, tc) is Ok) by {
        lemma_tc_run(c, e, makers, timeouts, results, i);
        let t = timeouts[i];
        assert(TCMaker::append_post(makers[i], t, c, makers[i + 1], results[i]));
        if let Ok(Some(tc)) = results[i] {
            let old = makers[i];
            let new = makers[i + 1];
            lemma_two_quorums(c.total_stake());
            c.lemma_remaining_push(old.used, t.author);
            crate::util::lemma_push_no_duplicates(old.used, t.author);
            assert(timeout_voters(new.votes) =~= timeout_voters(old.votes).push(t.author));
            assert(tc.epoch == e);
            assert(timeout_outcome(c, t, Ok(())));
            assert forall|k: int| 0 <= k < tc.votes@.len() implies c.stake_of(#[trigger] tc.votes@[k].0) > 0 by {
                if k < old.votes.len() {
                    assert(tc.votes@[k] == old.votes[k]);
                }
            }
            assert forall|k: int| 0 <= k < tc.votes@.len() implies ed25519_verify_strict(
                hash_digest(timeout_bytes(tc.epoch, #[trigger] tc.votes@[k].2)), tc.votes@[k].0@, tc.votes@[k].1@) by {
                if k < old.votes.len() {
                    assert(tc.votes@[k] == old.votes[k]);
                }
            }
            lemma_assembled_tc_verifies(c, tc);
        }
    }
}

/// Along such a run, every maker is well formed and holds only checked
/// timeouts of the epoch.
proof fn lemma_tc_run(
    c: Committee,
    e: SeqNumber,
    makers: Seq<MakerView<(PublicKey, Signature, SeqNumber)>>,
    timeouts: Seq<Timeout>,
    results: Seq<ConsensusResult<Option<TC>>>,
    n: int,
)
    requires
        c.wf(),
        makers.len() == timeouts.len() + 1,
        results.len() == timeouts.len(),
        makers[0] == empty_maker::<(PublicKey, Signature, SeqNumber)>(),
        forall|i: int| 0 <= i < timeouts.len()
            ==> TCMaker::append_post(makers[i], #[trigger] timeouts[i], c, makers[i + 1], results[i]),
        forall|i: int| 0 <= i < timeouts.len() ==> (#[trigger] timeouts[i]).epoch == e,
        forall|i: int| 0 <= i < timeouts.len() ==> timeout_outcome(c, #[trigger] timeouts[i], Ok(())),
        0 <= n <= timeouts.len(),
    ensures
        TCMaker::wf(makers[n], c),
        timeouts_of_epoch_checked(c, e, makers[n].votes),
    decreases n,
{
    if n == 0 {
        TCMaker::lemma_empty_wf(c);
    } else {
        let p = n - 1;
        lemma_tc_run(c, e, makers, timeouts, results, p);
        let t = timeouts[p];
        let old = makers[p];
        let new = makers[n];
        assert(TCMaker::append_post(old, t, c, new, results[p]));
        assert(timeout_outcome(c, t, Ok(())));
        assert(t.epoch == e);
        if !old.used.contains(t.author) {
            c.lemma_remaining_push(old.used, t.author);
            crate::util::lemma_push_no_duplicates(old.used, t.author);
            assert(timeout_voters(new.votes) =~= timeout_voters(old.votes).push(t.author));
            assert forall|k: int| 0 <= k < new.votes.len() implies c.stake_of(#[trigger] new.votes[k].0) > 0 by {
                if k < old.votes.len() {
                    assert(new.votes[k] == old.votes[k]);
                }
            }
            assert forall|k: int| 0 <= k < new.votes.len() implies ed25519_verify_strict(
                hash_digest(timeout_bytes(e, #[trigger] new.votes[k].2)), new.votes[k].0@, new.votes[k].1@) by {
                if k < old.votes.len() {
                    assert(new.votes[k] == old.votes[k]);
                }
            }
        } else {
            assert(new.votes == old.votes);
        }
    }
}

// ---------------------------------------------------------------------------
// ABA proof maker
// ---------------------------------------------------------------------------

/// Collects the votes for one value in one phase of one ABA round.
pub struct ABAProofMaker {
    pub weight: Stake,
    pub votes: Vec<(PublicKey, Signature)>,
    pub used: Vec<PublicKey>,
}

impl View for ABAProofMaker {
    type V = MakerView<(PublicKey, Signature)>;

    open spec fn view(&self) -> MakerView<(PublicKey, Signature)> {
        MakerView { weight: self.weight, votes: self.votes@, used: self.used@ }
    }
}

impl ABAProofMaker {
    /// The voters are the distinct authors of the votes, and `weight` counts
    /// at most their stake.
    pub open spec fn wf(m: MakerView<(PublicKey, Signature)>, c: Committee) -> bool {
        &&& tally_wf(c, m.weight, m.used)
        &&& m.used == voters(m.votes)
    }

    /// What appending `v` to `old` does: a repeated author is refused and
    /// nothing changes; otherwise the vote is recorded; at a quorum a proof
    /// (tag unset) is made of all the votes and the weight drops to 0; else,
    /// in the value phase, a proof with the tag set is made when the stake is
    /// exactly the coin threshold (f+1).
    pub open spec fn append_post(old: MakerView<(PublicKey, Signature)>, v: ABAVal, c: Committee, new: MakerView<(PublicKey, Signature)>, r: ConsensusResult<Option<ABAProof>>) -> bool {
        if old.used.contains(v.author) {
            &&& r == Err::<Option<ABAProof>, ConsensusError>(ConsensusError::AuthorityReuseinABA(v.author, v.phase))
            &&& new.weight == old.weight
            &&& new.votes == old.votes
            &&& new.used == old.used
        } else {
            let w = old.weight + c.stake_of(v.author);
            &&& new.used == old.used.push(v.author)
            &&& new.votes == old.votes.push((v.author, v.signature))
            &&& if w >= c.quorum() {
                &&& new.weight == 0
                &&& r matches Ok(Some(p))
                &&& p.epoch == v.epoch && p.round == v.round && p.val == v.val && p.phase == v.phase
                &&& p.votes@ == new.votes
                &&& !p.tag
            } else {
                &&& new.weight == w
                &&& if w == c.coin_threshold() && v.phase == VAL_PHASE {
                    &&& r matches Ok(Some(p))
                    &&& p.epoch == v.epoch && p.round == v.round && p.val == v.val && p.phase == v.phase
                    &&& p.votes@ == new.votes
                    &&& p.tag
                } else {
                    r matches Ok(None)
                }
            }
        }
    }

    /// What a value gathered into a maker yields: a proof tagged as f+1
    /// only for a value of the value phase, with stake of at least f+1 (more
    /// than a third of the total); any other proof, and so every proof of
    /// another phase, has distinct voters whose stake reaches a quorum (more
    /// than two thirds of the total). A proof is for the value's epoch,
    /// round, phase and value, and holds its vote last.
    pub proof fn law_append_proofs(
        c: Committee,
        old: MakerView<(PublicKey, Signature)>,
        v: ABAVal,
        new: MakerView<(PublicKey, Signature)>,
        r: ConsensusResult<Option<ABAProof>>,
    )
        requires
            c.wf(),
            ABAProofMaker::wf(old, c),
            ABAProofMaker::append_post(old, v, c, new, r),
        ensures
            r matches Ok(Some(p)) ==> p.epoch == v.epoch && p.round == v.round && p.val == v.val && p.phase == v.phase
                && p.votes@.len() > 0 && p.votes@.last() == (v.author, v.signature),
            r matches Ok(Some(p)) ==> voters(p.votes@).no_duplicates(),
            r matches Ok(Some(p)) ==> (p.tag ==> v.phase == VAL_PHASE
                && counted(c, voters(p.votes@)) >= c.total_stake() / 3 + 1),
            r matches Ok(Some(p)) ==> (!p.tag ==> counted(c, voters(p.votes@)) >= 2 * c.total_stake() / 3 + 1),
            r matches Ok(Some(p)) ==> (v.phase != VAL_PHASE ==> !p.tag),
            old.used.contains(v.author) ==> r == Err::<Option<ABAProof>, ConsensusError>(ConsensusError::AuthorityReuseinABA(v.author, v.phase)),
    {
        if !old.used.contains(v.author) {
            c.lemma_remaining_push(old.used, v.author);
            crate::util::lemma_push_no_duplicates(old.used, v.author);
            assert(voters(new.votes) =~= voters(old.votes).push(v.author));
        }
    }

    pub fn new() -> (m: Self)
        ensures
            m@ == empty_maker::<(PublicKey, Signature)>(),
    {
        ABAProofMaker { weight: 0, votes: Vec::new(), used: Vec::new() }
    }

    /// An empty maker is well formed for every committee.
    pub proof fn lemma_empty_wf(c: Committee)
        ensures
            ABAProofMaker::wf(empty_maker(), c),
    {
        c.lemma_remaining_empty();
        assert(voters(Seq::<(PublicKey, Signature)>::empty()) =~= Seq::<PublicKey>::empty());
    }

    /// Adds a vote; returns a proof at a quorum, or at f+1 in the value
    /// phase. A quorum proof is made at most once, and its voters are
    /// distinct and hold a quorum of stake.
    pub fn append(&mut self, aba_val: ABAVal, committee: &Committee) -> (r: ConsensusResult<Option<ABAProof>>)
        requires
            committee.wf(),
            ABAProofMaker::wf(old(self)@, *committee),
        ensures
            ABAProofMaker::wf(final(self)@, *committee),
            ABAProofMaker::append_post(old(self)@, aba_val, *committee, final(self)@, r),
            r matches Ok(Some(p)) && !p.tag ==> quorum_spent(*committee, final(self).weight, final(self).used@),
            r matches Ok(Some(p)) ==> voters(p.votes@).no_duplicates()
                && counted(*committee, voters(p.votes@)) >= if p.tag { committee.coin_threshold() } else { committee.quorum() },
            quorum_spent(*committee, old(self).weight, old(self).used@) ==> quorum_spent(*committee, final(self).weight, final(self).used@) && !(r matches Ok(Some(p)) && !p.tag),
    {
        let author = aba_val.author;
        let ghost old_self = *self;
        match add_voter(committee, self.weight, &mut self.used, author) {
            None => Err(ConsensusError::AuthorityReuseinABA(author, aba_val.phase)),
            Some(w) => {
                self.votes.push((author, aba_val.signature));
                self.weight = w;
                proof {
                    assert(self.used@ =~= voters(self.votes@));
                    lemma_two_quorums(committee.total_stake());
                    committee.lemma_remaining_push(old_self.used@, author);
                }
                if self.weight >= committee.quorum_threshold() {
                    self.weight = 0;
                    return Ok(Some(ABAProof {
                        epoch: aba_val.epoch,
                        round: aba_val.round,
                        val: aba_val.val,
                        phase: aba_val.phase,
                        votes: copy_vec(&self.votes),
                        tag: false,
                    }));
                }
                if self.weight == committee.random_coin_threshold() && aba_val.phase == VAL_PHASE {
                    return Ok(Some(ABAProof {
                        epoch: aba_val.epoch,
                        round: aba_val.round,
                        val: aba_val.val,
                        phase: aba_val.phase,
                        votes: copy_vec(&self.votes),
                        tag: true,
                    }));
                }
                Ok(None)
            },
        }
    }
}


// ---------------------------------------------------------------------------
// Coin maker
// ---------------------------------------------------------------------------

/// The authors of a list of coin shares.
pub open spec fn share_authors(shares: Seq<RandomnessShare>) -> Seq<PublicKey> {
    shares.map_values(|s: RandomnessShare| s.author)
}

/// The (member id, share) pairs of a list of coin shares.
pub open spec fn share_pairs(c: Committee, shares: Seq<RandomnessShare>) -> Seq<(usize, [u8; 96])> {
    shares.map_values(|s: RandomnessShare| (c.id_of(s.author), s.signature_share))
}

/// Collects the coin shares of one ABA round until they hold f+1 stake.
pub struct ABARandomCoinMaker {
    pub weight: Stake,
    pub shares: Vec<RandomnessShare>,
    pub used: Vec<PublicKey>,
}

impl View for ABARandomCoinMaker {
    type V = MakerView<RandomnessShare>;

    open spec fn view(&self) -> MakerView<RandomnessShare> {
        MakerView { weight: self.weight, votes: self.shares@, used: self.used@ }
    }
}

impl ABARandomCoinMaker {
    /// The senders are the distinct authors of the shares, all of them
    /// members, and `weight` counts at most their stake.
    pub open spec fn wf(m: MakerView<RandomnessShare>, c: Committee) -> bool {
        &&& tally_wf(c, m.weight, m.used)
        &&& m.used == share_authors(m.votes)
    }

    /// Every sender of `m` is a member.
    pub open spec fn members_only(m: MakerView<RandomnessShare>, c: Committee) -> bool {
        forall|i: int| 0 <= i < m.used.len() ==> c.has_member(#[trigger] m.used[i])
    }

    /// Appending `share` to `m` asks the member id only of members: when the
    /// share is new and brings the stake to exactly f+1, its author and every
    /// earlier sender are members (the shares are then combined by member
    /// id, which only a member has; a stranger counts no stake).
    pub open spec fn ids_known(m: MakerView<RandomnessShare>, share: RandomnessShare, c: Committee) -> bool {
        !m.used.contains(share.author) && m.weight + c.stake_of(share.author) == c.coin_threshold()
            ==> c.has_member(share.author) && ABARandomCoinMaker::members_only(m, c)
    }

    /// What appending `share` to `old` does: a repeated author is refused
    /// and nothing changes; otherwise the share is recorded, and when the
    /// stake is exactly the coin threshold (f+1) the shares, ordered by
    /// member id, are combined and the coin is the parity of the first eight
    /// bytes of the signature (no coin if they do not combine).
    pub open spec fn append_post(
        old: MakerView<RandomnessShare>,
        share: RandomnessShare,
        c: Committee,
        pk_set: Seq<u8>,
        new: MakerView<RandomnessShare>,
        r: ConsensusResult<Option<usize>>,
    ) -> bool {
        if old.used.contains(share.author) {
            &&& r == Err::<Option<usize>, ConsensusError>(ConsensusError::AuthorityReuseinCoin(share.author))
            &&& new == old
        } else {
            &&& new.used == old.used.push(share.author)
            &&& new.votes == old.votes.push(share)
            &&& new.weight == old.weight + c.stake_of(share.author)
            &&& if new.weight == c.coin_threshold() {
                match tss_combined(pk_set, insert_all(share_pairs(c, new.votes))) {
                    Some(sig) => r == Ok::<Option<usize>, ConsensusError>(Some(coin_of(sig) as usize)),
                    None => r == Ok::<Option<usize>, ConsensusError>(None),
                }
            } else {
                r == Ok::<Option<usize>, ConsensusError>(None)
            }
        }
    }

    pub fn new() -> (m: Self)
        ensures
            m@ == empty_maker::<RandomnessShare>(),
    {
        ABARandomCoinMaker { weight: 0, shares: Vec::new(), used: Vec::new() }
    }

    /// An empty maker is well formed for every committee.
    pub proof fn lemma_empty_wf(c: Committee)
        ensures
            ABARandomCoinMaker::wf(empty_maker(), c),
    {
        c.lemma_remaining_empty();
        assert(share_authors(Seq::<RandomnessShare>::empty()) =~= Seq::<PublicKey>::empty());
    }

    /// Adds a coin share; returns the coin when the shares hold exactly f+1
    /// stake and combine.
    pub fn append(&mut self, share: RandomnessShare, committee: &Committee, pk_set: &TssPublicKeySet) -> (r: ConsensusResult<Option<usize>>)
        requires
            committee.wf(),
            ABARandomCoinMaker::wf(old(self)@, *committee),
            ABARandomCoinMaker::ids_known(old(self)@, share, *committee),
        ensures
            ABARandomCoinMaker::wf(final(self)@, *committee),
            ABARandomCoinMaker::append_post(old(self)@, share, *committee, pk_set@, final(self)@, r),
    {
        let author = share.author;
        let ghost old_view = self@;
        match add_voter(committee, self.weight, &mut self.used, author) {
            None => {
                assert(self@ == old_view);
                Err(ConsensusError::AuthorityReuseinCoin(author))
            },
            Some(w) => {
                self.shares.push(share);
                self.weight = w;
                proof {
                    assert(self.used@ =~= share_authors(self.shares@));
                }
                if self.weight == committee.random_coin_threshold() {
                    proof {
                        assert forall|i: int| 0 <= i < self.used@.len() implies committee.has_member(#[trigger] self.used@[i]) by {
                            if i < old_view.used.len() {
                                assert(self.used@[i] == old_view.used[i]);
                            }
                        }
                    }
                    let mut sigs: Vec<(usize, [u8; 96])> = Vec::new();
                    let mut i: usize = 0;
                    while i < self.shares.len()
                        invariant
                            committee.wf(),
                            i <= self.shares@.len(),
                            self.used@ == share_authors(self.shares@),
                            forall|j: int| 0 <= j < self.used@.len() ==> committee.has_member(#[trigger] self.used@[j]),
                            sigs@ == insert_all(share_pairs(*committee, self.shares@.subrange(0, i as int))),
                        decreases self.shares@.len() - i,
                    {
                        let s = self.shares[i];
                        assert(self.used@[i as int] == s.author);
                        let id = committee.id(&s.author);
                        sorted_insert_exec(&mut sigs, (id, s.signature_share));
                        proof {
                            let pre = share_pairs(*committee, self.shares@.subrange(0, i as int));
                            let post = share_pairs(*committee, self.shares@.subrange(0, i + 1));
                            assert(post.drop_last() =~= pre);
                            assert(post.last() == (id, s.signature_share));
                        }
                        i = i + 1;
                    }
                    assert(self.shares@.subrange(0, self.shares@.len() as int) =~= self.shares@);
                    if let Some(sig) = pk_set.combine(&sigs) {
                        let coin = coin_from_signature(&sig);
                        return Ok(Some(coin));
                    }
                }
                Ok(None)
            },
        }
    }
}

// ---------------------------------------------------------------------------
// Aggregator
// ---------------------------------------------------------------------------

/// The digest whose bytes are `bytes`.
pub open spec fn digest_key(bytes: Seq<u8>) -> Digest {
    choose|d: Digest| d@ == bytes
}

/// A map from keys to makers, seen as a map from keys to maker views.
pub open spec fn maker_views<K, M: View>(m: Map<K, M>) -> Map<K, M::V> {
    m.map_values(|x: M| x@)
}

/// Collects votes, timeouts and ABA values into certificates, one maker per
/// (height, block), per epoch, and per (epoch, round, phase, value).
pub struct Aggregator {
    pub committee: Committee,
    pub votes_aggregators: VecMap<SeqNumber, VecMap<Digest, QCMaker>>,
    pub timeouts_aggregators: VecMap<SeqNumber, TCMaker>,
    pub aba_vals_aggregators: VecMap<(SeqNumber, SeqNumber, u8, u64), ABAProofMaker>,
    pub aba_randomcoin_aggregators: VecMap<(SeqNumber, SeqNumber), ABARandomCoinMaker>,
}

/// Every vote gathered for a block is by a member that holds stake, and its
/// signature verifies on the digest the vote is filed under.
pub open spec fn votes_checked(a: Aggregator) -> bool {
    forall|h: SeqNumber, d: Digest, i: int| #![trigger a.vote_maker(h, d).votes[i]]
        0 <= i < a.vote_maker(h, d).votes.len() ==> {
            &&& a.committee.stake_of(a.vote_maker(h, d).votes[i].0) > 0
            &&& ed25519_verify_strict(d@, a.vote_maker(h, d).votes[i].0@, a.vote_maker(h, d).votes[i].1@)
        }
}

/// Every timeout gathered for an epoch is by a member that holds stake, and
/// its signature verifies on the digest of that epoch and the height of the
/// QC it carried.
pub open spec fn timeouts_checked(a: Aggregator) -> bool {
    forall|e: SeqNumber, i: int| #![trigger a.timeout_maker(e).votes[i]]
        0 <= i < a.timeout_maker(e).votes.len() ==> {
            &&& a.committee.stake_of(a.timeout_maker(e).votes[i].0) > 0
            &&& ed25519_verify_strict(
                hash_digest(timeout_bytes(e, a.timeout_maker(e).votes[i].2)),
                a.timeout_maker(e).votes[i].0@,
                a.timeout_maker(e).votes[i].1@,
            )
        }
}

/// Every ABA value gathered under a key (epoch, round, phase, value) is
/// signed by its author on the digest of that key.
pub open spec fn aba_vals_checked(a: Aggregator) -> bool {
    forall|k: (SeqNumber, SeqNumber, u8, u64), i: int| #![trigger a.aba_maker(k).votes[i]]
        0 <= i < a.aba_maker(k).votes.len() ==> ed25519_verify_strict(
            hash_digest(aba_bytes(k.0, k.1, k.3, k.2)),
            a.aba_maker(k).votes[i].0@,
            a.aba_maker(k).votes[i].1@,
        )
}

/// What an ABA proof assembled here holds: every vote signs the proof's
/// digest, the voters are distinct, and the members among them hold f+1 of
/// the stake (a tagged proof) or a quorum.
pub open spec fn aba_proof_assembled(c: Committee, p: ABAProof) -> bool {
    &&& aba_proof_signed(p)
    &&& voters(p.votes@).no_duplicates()
    &&& counted(c, voters(p.votes@)) >= if p.tag { c.coin_threshold() } else { c.quorum() }
}

/// An assembled quorum proof whose voters all hold stake passes the count
/// of `ABAProof::verify`, so only the batch check of its signatures can
/// refuse it; when every voter's key is torsion-free, it passes
/// `ABAProof::verify`.
pub proof fn lemma_assembled_proof_verifies(c: Committee, p: ABAProof, r: ConsensusResult<()>)
    requires
        c.wf(),
        aba_proof_assembled(c, p),
        !p.tag,
        forall|i: int| 0 <= i < p.votes@.len() ==> c.stake_of(#[trigger] p.votes@[i].0) > 0,
        aba_proof_outcome(c, p, r),
    ensures
        r is Ok || r == Err::<(), ConsensusError>(ConsensusError::InvalidSignature),
        (forall|i: int| 0 <= i < p.votes@.len() ==> crate::crypto::ed25519_key_torsion_free(#[trigger] p.votes@[i].0@)) ==> r is Ok,
{
    let names = voters(p.votes@);
    assert forall|i: int| 0 <= i < names.len() implies c.stake_of(#[trigger] names[i]) > 0 by {
        assert(names[i] == p.votes@[i].0);
    }
    lemma_tally_distinct(c, names);
}

/// Adding a signed ABA value keeps every gathered value signed, and a proof
/// that this completes is assembled as `aba_proof_assembled` says.
pub proof fn lemma_add_aba_val_checked(before: Aggregator, after: Aggregator, v: ABAVal, r: ConsensusResult<Option<ABAProof>>)
    requires
        aba_vals_checked(before),
        crate::messages::aba_val_signed(v),
        after.committee == before.committee,
        forall|k2: (SeqNumber, SeqNumber, u8, u64)| k2 != (v.epoch, v.round, v.phase, v.val)
            ==> #[trigger] after.aba_maker(k2) == before.aba_maker(k2),
        ABAProofMaker::append_post(before.aba_maker((v.epoch, v.round, v.phase, v.val)), v, before.committee,
            after.aba_maker((v.epoch, v.round, v.phase, v.val)), r),
        r matches Ok(Some(p)) ==> voters(p.votes@).no_duplicates() && counted(before.committee, voters(p.votes@))
            >= if p.tag { before.committee.coin_threshold() } else { before.committee.quorum() },
    ensures
        aba_vals_checked(after),
        r matches Ok(Some(p)) ==> aba_proof_assembled(after.committee, p),
{
    let k = (v.epoch, v.round, v.phase, v.val);
    assert forall|k2: (SeqNumber, SeqNumber, u8, u64), i: int| #![trigger after.aba_maker(k2).votes[i]]
        0 <= i < after.aba_maker(k2).votes.len() implies ed25519_verify_strict(
            hash_digest(aba_bytes(k2.0, k2.1, k2.3, k2.2)),
            after.aba_maker(k2).votes[i].0@,
            after.aba_maker(k2).votes[i].1@,
        ) by {
        if k2 != k {
            assert(after.aba_maker(k2) == before.aba_maker(k2));
            assert(before.aba_maker(k2).votes[i] == after.aba_maker(k2).votes[i]);
        } else {
            let prior = before.aba_maker(k);
            if i < prior.votes.len() {
                assert(prior.votes[i] == after.aba_maker(k2).votes[i]);
            }
        }
    }
    if let Ok(Some(p)) = r {
        let now = after.aba_maker(k);
        assert(p.votes@ == now.votes);
        assert(crate::crypto::Hash::spec_digest(&p) == hash_digest(aba_bytes(k.0, k.1, k.3, k.2)));
        assert forall|i: int| 0 <= i < p.votes@.len() implies ed25519_verify_strict(
            crate::crypto::Hash::spec_digest(&p),
            #[trigger] p.votes@[i].0@,
            p.votes@[i].1@,
        ) by {
            assert(now.votes[i] == p.votes@[i]);
        }
    }
}

impl Aggregator {
    /// Every maker is well formed for the committee.
    pub open spec fn wf(self) -> bool {
        &&& self.committee.wf()
        &&& self.votes_aggregators.wf()
        &&& forall|h: SeqNumber| #[trigger] self.votes_aggregators@.contains_key(h) ==> {
            &&& self.votes_aggregators@[h].wf()
            &&& forall|d: Digest| #[trigger] self.votes_aggregators@[h]@.contains_key(d)
                ==> QCMaker::wf(self.votes_aggregators@[h]@[d]@, self.committee)
        }
        &&& self.timeouts_aggregators.wf()
        &&& forall|e: SeqNumber| #[trigger] self.timeouts_aggregators@.contains_key(e)
            ==> TCMaker::wf(self.timeouts_aggregators@[e]@, self.committee)
        &&& self.aba_vals_aggregators.wf()
        &&& forall|k: (SeqNumber, SeqNumber, u8, u64)| #[trigger] self.aba_vals_aggregators@.contains_key(k)
            ==> ABAProofMaker::wf(self.aba_vals_aggregators@[k]@, self.committee)
        &&& self.aba_randomcoin_aggregators.wf()
        &&& forall|k: (SeqNumber, SeqNumber)| #[trigger] self.aba_randomcoin_aggregators@.contains_key(k)
            ==> ABARandomCoinMaker::wf(self.aba_randomcoin_aggregators@[k]@, self.committee)
    }

    /// The coin shares collected for (epoch, round) `k`.
    pub open spec fn coin_maker(self, k: (SeqNumber, SeqNumber)) -> MakerView<RandomnessShare> {
        maker_or_empty(maker_views(self.aba_randomcoin_aggregators@), k)
    }

    /// The votes collected for block `d` at height `h`.
    pub open spec fn vote_maker(self, h: SeqNumber, d: Digest) -> MakerView<(PublicKey, Signature)> {
        if self.votes_aggregators@.contains_key(h) {
            maker_or_empty(maker_views(self.votes_aggregators@[h]@), d)
        } else {
            empty_maker()
        }
    }

    /// The timeouts collected for epoch `e`.
    pub open spec fn timeout_maker(self, e: SeqNumber) -> MakerView<(PublicKey, Signature, SeqNumber)> {
        maker_or_empty(maker_views(self.timeouts_aggregators@), e)
    }

    /// The values collected under key `k`.
    pub open spec fn aba_maker(self, k: (SeqNumber, SeqNumber, u8, u64)) -> MakerView<(PublicKey, Signature)> {
        maker_or_empty(maker_views(self.aba_vals_aggregators@), k)
    }

    /// An aggregator with nothing collected.
    pub fn new(committee: Committee) -> (a: Self)
        requires
            committee.wf(),
        ensures
            a.wf(),
            a.committee == committee,
            a.votes_aggregators@ == Map::<SeqNumber, VecMap<Digest, QCMaker>>::empty(),
            a.timeouts_aggregators@ == Map::<SeqNumber, TCMaker>::empty(),
            a.aba_vals_aggregators@ == Map::<(SeqNumber, SeqNumber, u8, u64), ABAProofMaker>::empty(),
            a.aba_randomcoin_aggregators@ == Map::<(SeqNumber, SeqNumber), ABARandomCoinMaker>::empty(),
    {
        Aggregator {
            committee,
            votes_aggregators: VecMap::new(),
            timeouts_aggregators: VecMap::new(),
            aba_vals_aggregators: VecMap::new(),
            aba_randomcoin_aggregators: VecMap::new(),
        }
    }

    /// Adds a vote to the maker of its (height, block digest); returns the
    /// QC once that block has a quorum of votes at that height.
    pub fn add_vote(&mut self, vote: Vote) -> (r: ConsensusResult<Option<QC>>)
        requires
            old(self).wf(),
        ensures
            final(self).wf(),
            final(self).committee == old(self).committee,
            final(self).timeouts_aggregators@ == old(self).timeouts_aggregators@,
            final(self).aba_vals_aggregators@ == old(self).aba_vals_aggregators@,
            final(self).aba_randomcoin_aggregators@ == old(self).aba_randomcoin_aggregators@,
            digest_key(crate::crypto::Hash::spec_digest(&vote))@ == crate::crypto::Hash::spec_digest(&vote),
            forall|h2: SeqNumber| #[trigger] final(self).votes_aggregators@.contains_key(h2)
                <==> h2 == vote.height || old(self).votes_aggregators@.contains_key(h2),
            final(self).votes_aggregators@[vote.height]@.contains_key(digest_key(crate::crypto::Hash::spec_digest(&vote))),
            vote_step(*old(self), vote, *final(self), r),
            ({
                let h = vote.height;
                let d = digest_key(crate::crypto::Hash::spec_digest(&vote));
                let prior = old(self).vote_maker(h, d);
                let now = final(self).vote_maker(h, d);
                &&& forall|h2: SeqNumber, d2: Digest| h2 != h || d2 != d
                    ==> #[trigger] final(self).vote_maker(h2, d2) == old(self).vote_maker(h2, d2)
                &&& QCMaker::append_post(prior, vote, old(self).committee, now, r)
                &&& r matches Ok(Some(qc)) ==> quorum_spent(old(self).committee, now.weight, now.used)
                &&& quorum_spent(old(self).committee, prior.weight, prior.used)
                    ==> quorum_spent(old(self).committee, now.weight, now.used) && !(r matches Ok(Some(_)))
            }),
    {
        let d = crate::crypto::Hash::digest(&vote);
        let ghost dk = digest_key(crate::crypto::Hash::spec_digest(&vote));
        proof {
            crate::crypto::lemma_digest_view_eq(d, dk);
        }
        let h = vote.height;
        let mut inner = match self.votes_aggregators.remove(&h) {
            Some(m) => m,
            None => VecMap::new(),
        };
        let mut maker = match inner.remove(&d) {
            Some(m) => m,
            None => {
                proof {
                    QCMaker::lemma_empty_wf(self.committee);
                }
                QCMaker::new()
            },
        };
        let r = maker.append(vote, &self.committee);
        inner.insert(d, maker);
        self.votes_aggregators.insert(h, inner);
        proof {
            let o = old(self).votes_aggregators@;
            let n = self.votes_aggregators@;
            assert forall|h2: SeqNumber, d2: Digest| h2 != h || d2 != d
                implies #[trigger] self.vote_maker(h2, d2) == old(self).vote_maker(h2, d2) by {
                if h2 == h {
                    assert(maker_views(n[h]@) =~= maker_views(inner@));
                    if o.contains_key(h) {
                        assert(maker_or_empty(maker_views(n[h]@), d2) == maker_or_empty(maker_views(o[h]@), d2));
                    }
                }
            }
        }
        r
    }

    /// Adds a timeout to the maker of its epoch; returns the TC once the
    /// epoch has a quorum of timeouts.
    pub fn add_timeout(&mut self, timeout: Timeout) -> (r: ConsensusResult<Option<TC>>)
        requires
            old(self).wf(),
        ensures
            final(self).wf(),
            final(self).committee == old(self).committee,
            final(self).votes_aggregators@ == old(self).votes_aggregators@,
            final(self).aba_vals_aggregators@ == old(self).aba_vals_aggregators@,
            final(self).aba_randomcoin_aggregators@ == old(self).aba_randomcoin_aggregators@,
            forall|e: SeqNumber| e != timeout.epoch ==> #[trigger] final(self).timeout_maker(e) == old(self).timeout_maker(e),
            forall|e: SeqNumber| #[trigger] final(self).timeouts_aggregators@.contains_key(e)
                <==> e == timeout.epoch || old(self).timeouts_aggregators@.contains_key(e),
            TCMaker::append_post(old(self).timeout_maker(timeout.epoch), timeout, old(self).committee, final(self).timeout_maker(timeout.epoch), r),
            r matches Ok(Some(tc)) ==> quorum_spent(old(self).committee, final(self).timeout_maker(timeout.epoch).weight, final(self).timeout_maker(timeout.epoch).used),
    {
        let e = timeout.epoch;
        let mut maker = match self.timeouts_aggregators.remove(&e) {
            Some(m) => m,
            None => {
                proof {
                    TCMaker::lemma_empty_wf(self.committee);
                }
                TCMaker::new()
            },
        };
        let r = maker.append(timeout, &self.committee);
        self.timeouts_aggregators.insert(e, maker);
        r
    }

    /// Adds an ABA value to the maker of its (epoch, round, phase, value);
    /// returns a proof at a quorum, or at f+1 in the value phase.
    pub fn add_aba_val(&mut self, aba_val: ABAVal) -> (r: ConsensusResult<Option<ABAProof>>)
        requires
            old(self).wf(),
        ensures
            final(self).wf(),
            final(self).committee == old(self).committee,
            final(self).votes_aggregators@ == old(self).votes_aggregators@,
            final(self).timeouts_aggregators@ == old(self).timeouts_aggregators@,
            final(self).aba_randomcoin_aggregators@ == old(self).aba_randomcoin_aggregators@,
            forall|k: (SeqNumber, SeqNumber, u8, u64)| #[trigger] final(self).aba_vals_aggregators@.contains_key(k)
                <==> k == (aba_val.epoch, aba_val.round, aba_val.phase, aba_val.val) || old(self).aba_vals_aggregators@.contains_key(k),
            ({
                let k = (aba_val.epoch, aba_val.round, aba_val.phase, aba_val.val);
                &&& forall|k2: (SeqNumber, SeqNumber, u8, u64)| k2 != k ==> #[trigger] final(self).aba_maker(k2) == old(self).aba_maker(k2)
                &&& ABAProofMaker::append_post(old(self).aba_maker(k), aba_val, old(self).committee, final(self).aba_maker(k), r)
            }),
            r matches Ok(Some(p)) ==> voters(p.votes@).no_duplicates() && counted(old(self).committee, voters(p.votes@))
                >= if p.tag { old(self).committee.coin_threshold() } else { old(self).committee.quorum() },
    {
        let k = (aba_val.epoch, aba_val.round, aba_val.phase, aba_val.val);
        let mut maker = match self.aba_vals_aggregators.remove(&k) {
            Some(m) => m,
            None => {
                proof {
                    ABAProofMaker::lemma_empty_wf(self.committee);
                }
                ABAProofMaker::new()
            },
        };
        let r = maker.append(aba_val, &self.committee);
        self.aba_vals_aggregators.insert(k, maker);
        r
    }

    /// Adds a coin share to the maker of its (epoch, round); returns the coin
    /// when the shares hold exactly f+1 stake and combine.
    pub fn add_aba_random(&mut self, share: RandomnessShare, pk_set: &TssPublicKeySet) -> (r: ConsensusResult<Option<usize>>)
        requires
            old(self).wf(),
            ABARandomCoinMaker::ids_known(old(self).coin_maker((share.epoch, share.round)), share, old(self).committee),
        ensures
            final(self).wf(),
            final(self).committee == old(self).committee,
            final(self).votes_aggregators@ == old(self).votes_aggregators@,
            final(self).timeouts_aggregators@ == old(self).timeouts_aggregators@,
            final(self).aba_vals_aggregators@ == old(self).aba_vals_aggregators@,
            forall|k: (SeqNumber, SeqNumber)| #[trigger] final(self).aba_randomcoin_aggregators@.contains_key(k)
                <==> k == (share.epoch, share.round) || old(self).aba_randomcoin_aggregators@.contains_key(k),
            ({
                let k = (share.epoch, share.round);
                &&& forall|k2: (SeqNumber, SeqNumber)| k2 != k ==> #[trigger] final(self).coin_maker(k2) == old(self).coin_maker(k2)
                &&& ABARandomCoinMaker::append_post(old(self).coin_maker(k), share, old(self).committee, pk_set@, final(self).coin_maker(k), r)
            }),
    {
        let k = (share.epoch, share.round);
        let mut maker = match self.aba_randomcoin_aggregators.remove(&k) {
            Some(m) => m,
            None => {
                proof {
                    ABARandomCoinMaker::lemma_empty_wf(self.committee);
                }
                ABARandomCoinMaker::new()
            },
        };
        let r = maker.append(share, &self.committee, pk_set);
        self.aba_randomcoin_aggregators.insert(k, maker);
        r
    }

    /// Drops the vote makers below height `round` and the timeout makers
    /// below `epoch`.
    pub fn cleanup(&mut self, epoch: &SeqNumber, round: &SeqNumber)
        requires
            old(self).wf(),
        ensures
            final(self).wf(),
            final(self).committee == old(self).committee,
            final(self).aba_vals_aggregators@ == old(self).aba_vals_aggregators@,
            final(self).aba_randomcoin_aggregators@ == old(self).aba_randomcoin_aggregators@,
            forall|h: SeqNumber| final(self).votes_aggregators@.contains_key(h)
                <==> (old(self).votes_aggregators@.contains_key(h) && h >= *round),
            forall|h: SeqNumber| #[trigger] final(self).votes_aggregators@.contains_key(h)
                ==> final(self).votes_aggregators@[h] == old(self).votes_aggregators@[h],
            forall|e: SeqNumber| final(self).timeouts_aggregators@.contains_key(e)
                <==> (old(self).timeouts_aggregators@.contains_key(e) && e >= *epoch),
            forall|e: SeqNumber| #[trigger] final(self).timeouts_aggregators@.contains_key(e)
                ==> final(self).timeouts_aggregators@[e] == old(self).timeouts_aggregators@[e],
    {
        let r: SeqNumber = *round;
        let e: SeqNumber = *epoch;
        self.votes_aggregators.retain(
            (|k: &SeqNumber| -> (b: bool)
                ensures
                    b == (*k >= r),
                { *k >= r }),
            Ghost(|k: SeqNumber| k >= r),
        );
        self.timeouts_aggregators.retain(
            (|k: &SeqNumber| -> (b: bool)
                ensures
                    b == (*k >= e),
                { *k >= e }),
            Ghost(|k: SeqNumber| k >= e),
        );
    }

    /// Drops the ABA makers of epochs below `epoch`.
    pub fn cleanup_aba(&mut self, epoch: &SeqNumber)
        requires
            old(self).wf(),
        ensures
            final(self).wf(),
            final(self).committee == old(self).committee,
            final(self).votes_aggregators@ == old(self).votes_aggregators@,
            final(self).timeouts_aggregators@ == old(self).timeouts_aggregators@,
            forall|k: (SeqNumber, SeqNumber, u8, u64)| final(self).aba_vals_aggregators@.contains_key(k)
                <==> (old(self).aba_vals_aggregators@.contains_key(k) && k.0 >= *epoch),
            forall|k: (SeqNumber, SeqNumber, u8, u64)| #[trigger] final(self).aba_vals_aggregators@.contains_key(k)
                ==> final(self).aba_vals_aggregators@[k] == old(self).aba_vals_aggregators@[k],
            forall|k: (SeqNumber, SeqNumber)| final(self).aba_randomcoin_aggregators@.contains_key(k)
                <==> (old(self).aba_randomcoin_aggregators@.contains_key(k) && k.0 >= *epoch),
            forall|k: (SeqNumber, SeqNumber)| #[trigger] final(self).aba_randomcoin_aggregators@.contains_key(k)
                ==> final(self).aba_randomcoin_aggregators@[k] == old(self).aba_randomcoin_aggregators@[k],
            aba_vals_checked(*old(self)) ==> aba_vals_checked(*final(self)),
    {
        let e: SeqNumber = *epoch;
        self.aba_vals_aggregators.retain(
            (|k: &(SeqNumber, SeqNumber, u8, u64)| -> (b: bool)
                ensures
                    b == (k.0 >= e),
                { k.0 >= e }),
            Ghost(|k: (SeqNumber, SeqNumber, u8, u64)| k.0 >= e),
        );
        self.aba_randomcoin_aggregators.retain(
            (|k: &(SeqNumber, SeqNumber)| -> (b: bool)
                ensures
                    b == (k.0 >= e),
                { k.0 >= e }),
            Ghost(|k: (SeqNumber, SeqNumber)| k.0 >= e),
        );
        proof {
            if aba_vals_checked(*old(self)) {
                assert forall|k: (SeqNumber, SeqNumber, u8, u64), i: int| #![trigger self.aba_maker(k).votes[i]]
                    0 <= i < self.aba_maker(k).votes.len() implies ed25519_verify_strict(
                        hash_digest(aba_bytes(k.0, k.1, k.3, k.2)),
                        self.aba_maker(k).votes[i].0@,
                        self.aba_maker(k).votes[i].1@,
                    ) by {
                    assert(self.aba_maker(k) == old(self).aba_maker(k));
                    assert(old(self).aba_maker(k).votes[i] == self.aba_maker(k).votes[i]);
                }
            }
        }
    }
}

} // verus!
