use vstd::prelude::*;
use crate::config::{Committee, SeqNumber, Stake};
use crate::crypto::{
    Digest, PublicKey, SignatureService, TssPublicKeySet, tss_share_signature, tss_share_verifies, Signature, contains_public_key, digest_of,
    ed25519_signature, ed25519_verify_strict, hash_digest, push_bytes32, push_u64_le, u64_le,
    zero_bytes, ed25519_key_decompresses, ed25519_key_torsion_free, signature_scalar_too_high,
};
use crate::error::{ConsensusError, ConsensusResult};
use crate::util::copy_vec;

verus! {

// ---------------------------------------------------------------------------
// Counting votes
// ---------------------------------------------------------------------------

/// Why a list of voters does not count.
#[derive(Clone, Copy, Debug)]
pub enum VoteFault {
    /// This voter occurs a second time.
    Reuse(PublicKey),
    /// This voter holds no stake.
    Unknown(PublicKey),
}

/// Counts the voters in order: the stake they hold together, or the first
/// voter that occurs twice or holds no stake.
pub open spec fn tally(c: Committee, names: Seq<PublicKey>) -> Result<nat, VoteFault>
    decreases names.len(),
{
    if names.len() == 0 {
        Ok(0)
    } else {
        match tally(c, names.drop_last()) {
            Err(f) => Err(f),
            Ok(w) => {
                let n = names.last();
                if names.drop_last().contains(n) {
                    Err(VoteFault::Reuse(n))
                } else if c.stake_of(n) == 0 {
                    Err(VoteFault::Unknown(n))
                } else {
                    Ok(w + c.stake_of(n))
                }
            },
        }
    }
}

/// Once a prefix of the voters is at fault, so is the whole list, for the
/// same voter.
pub proof fn lemma_tally_prefix_fault(c: Committee, names: Seq<PublicKey>, k: int)
    requires
        0 <= k <= names.len(),
        tally(c, names.subrange(0, k)) is Err,
    ensures
        tally(c, names) == tally(c, names.subrange(0, k)),
    decreases names.len() - k,
{
    if k < names.len() {
        assert(names.subrange(0, k + 1).drop_last() =~= names.subrange(0, k));
        lemma_tally_prefix_fault(c, names, k + 1);
    } else {
        assert(names.subrange(0, k) =~= names);
    }
}

/// Counts the voters in order, as `tally` says.
pub fn tally_votes(c: &Committee, names: &Vec<PublicKey>) -> (r: Result<Stake, VoteFault>)
    requires
        c.wf(),
    ensures
        r is Ok <==> tally(*c, names@) is Ok,
        r is Ok ==> r->Ok_0 as nat == tally(*c, names@)->Ok_0,
        r is Err ==> r->Err_0 == tally(*c, names@)->Err_0,
{
    let mut used: Vec<PublicKey> = Vec::new();
    let mut weight: Stake = 0;
    let mut i: usize = 0;
    proof {
        c.lemma_remaining_empty();
        c.lemma_total_bound();
        assert(names@.subrange(0, 0) =~= Seq::<PublicKey>::empty());
    }
    while i < names.len()
        invariant
            c.wf(),
            i <= names@.len(),
            used@ == names@.subrange(0, i as int),
            tally(*c, used@) == Ok::<nat, VoteFault>(weight as nat),
            weight + c.remaining(used@) == c.total_stake(),
            2 * c.total_stake() <= Stake::MAX,
        decreases names@.len() - i,
    {
        let n = names[i];
        let ghost next = names@.subrange(0, i + 1);
        proof {
            assert(next.drop_last() =~= used@);
            assert(next.last() == n);
        }
        if contains_public_key(&used, &n) {
            proof {
                lemma_tally_prefix_fault(*c, names@, i + 1);
            }
            return Err(VoteFault::Reuse(n));
        }
        let s = c.stake(&n);
        if s == 0 {
            proof {
                lemma_tally_prefix_fault(*c, names@, i + 1);
            }
            return Err(VoteFault::Unknown(n));
        }
        proof {
            c.lemma_remaining_push(used@, n);
        }
        used.push(n);
        weight = weight + s;
        i = i + 1;
        proof {
            assert(used@ =~= next);
        }
    }
    assert(names@.subrange(0, names@.len() as int) =~= names@);
    Ok(weight)
}

/// The voters of a list of (voter, signature) pairs.
pub open spec fn voters(votes: Seq<(PublicKey, Signature)>) -> Seq<PublicKey> {
    votes.map_values(|v: (PublicKey, Signature)| v.0)
}

/// The voters of a list of timeout votes.
pub open spec fn timeout_voters(votes: Seq<(PublicKey, Signature, SeqNumber)>) -> Seq<PublicKey> {
    votes.map_values(|v: (PublicKey, Signature, SeqNumber)| v.0)
}

fn voters_of(votes: &Vec<(PublicKey, Signature)>) -> (r: Vec<PublicKey>)
    ensures
        r@ == voters(votes@),
{
    let mut r: Vec<PublicKey> = Vec::new();
    let mut i: usize = 0;
    while i < votes.len()
        invariant
            i <= votes@.len(),
            r@ == voters(votes@).subrange(0, i as int),
        decreases votes@.len() - i,
    {
        r.push(votes[i].0);
        proof {
            assert(voters(votes@).subrange(0, i + 1) =~= voters(votes@).subrange(0, i as int).push(votes@[i as int].0));
        }
        i = i + 1;
    }
    assert(voters(votes@).subrange(0, votes@.len() as int) =~= voters(votes@));
    r
}

fn timeout_voters_of(votes: &Vec<(PublicKey, Signature, SeqNumber)>) -> (r: Vec<PublicKey>)
    ensures
        r@ == timeout_voters(votes@),
{
    let mut r: Vec<PublicKey> = Vec::new();
    let mut i: usize = 0;
    while i < votes.len()
        invariant
            i <= votes@.len(),
            r@ == timeout_voters(votes@).subrange(0, i as int),
        decreases votes@.len() - i,
    {
        r.push(votes[i].0);
        proof {
            assert(timeout_voters(votes@).subrange(0, i + 1) =~= timeout_voters(votes@).subrange(0, i as int).push(votes@[i as int].0));
        }
        i = i + 1;
    }
    assert(timeout_voters(votes@).subrange(0, votes@.len() as int) =~= timeout_voters(votes@));
    r
}

/// The outcome of checking a certificate whose signatures are verified in
/// one randomised batch: the first faulty voter (`reuse` is the error for a
/// voter that occurs twice), a missing quorum, or else success when every
/// signature verifies under a torsion-free key (`batchable`), and success or
/// a failed batch otherwise (which of the two rests on random weights).
pub open spec fn quorum_outcome(
    c: Committee,
    counted: Result<nat, VoteFault>,
    reuse: ConsensusError,
    no_quorum: ConsensusError,
    batchable: bool,
    r: ConsensusResult<()>,
) -> bool {
    match counted {
        Err(VoteFault::Reuse(n)) => r == Err::<(), ConsensusError>(reuse),
        Err(VoteFault::Unknown(n)) => r == Err::<(), ConsensusError>(ConsensusError::UnknownAuthority(n)),
        Ok(w) => if w < c.quorum() {
            r == Err::<(), ConsensusError>(no_quorum)
        } else if batchable {
            r is Ok
        } else {
            r is Ok || r == Err::<(), ConsensusError>(ConsensusError::InvalidSignature)
        },
    }
}

/// Every vote's signature verifies on `message` under its key, and every
/// key is torsion-free: a batch of such votes is accepted.
pub open spec fn votes_batchable(message: Seq<u8>, votes: Seq<(PublicKey, Signature)>) -> bool {
    forall|i: int| 0 <= i < votes.len()
        ==> ed25519_verify_strict(message, #[trigger] votes[i].0@, votes[i].1@) && ed25519_key_torsion_free(votes[i].0@)
}

/// Every vote's key decompresses and no vote's signature scalar is too
/// high: what a batch that accepts shows of its votes.
pub open spec fn votes_parse(votes: Seq<(PublicKey, Signature)>) -> bool {
    forall|i: int| 0 <= i < votes.len()
        ==> ed25519_key_decompresses(#[trigger] votes[i].0@) && !signature_scalar_too_high(votes[i].1@)
}

/// Voters that tally without fault are distinct and each holds stake.
pub proof fn lemma_tally_ok(c: Committee, names: Seq<PublicKey>)
    requires
        tally(c, names) is Ok,
    ensures
        names.no_duplicates(),
        forall|i: int| 0 <= i < names.len() ==> c.stake_of(#[trigger] names[i]) > 0,
    decreases names.len(),
{
    if names.len() > 0 {
        let prev = names.drop_last();
        lemma_tally_ok(c, prev);
        let n = names.last();
        assert(!prev.contains(n));
        assert forall|a: int, b: int| 0 <= a < names.len() && 0 <= b < names.len() && a != b implies names[a] != names[b] by {
            if a == names.len() - 1 {
                assert(prev[b] == names[b]);
                assert(prev.contains(names[b]));
            } else if b == names.len() - 1 {
                assert(prev[a] == names[a]);
                assert(prev.contains(names[a]));
            } else {
                assert(prev[a] == names[a] && prev[b] == names[b]);
            }
        }
        assert forall|i: int| 0 <= i < names.len() implies c.stake_of(#[trigger] names[i]) > 0 by {
            if i < names.len() - 1 {
                assert(prev[i] == names[i]);
            }
        }
    }
}

/// A QC passes `QC::verify` only when its voters are distinct members
/// whose stake together reaches a quorum: more than two thirds of the
/// committee's total stake.
pub proof fn law_qc_accepted_only_with_a_quorum(c: Committee, qc: QC, r: ConsensusResult<()>)
    requires
        qc_outcome(c, qc, r),
        r is Ok,
    ensures
        tally(c, voters(qc.votes@)) matches Ok(w) && w >= 2 * c.total_stake() / 3 + 1,
        voters(qc.votes@).no_duplicates(),
        forall|i: int| 0 <= i < qc.votes@.len() ==> c.stake_of(#[trigger] qc.votes@[i].0) > 0,
{
    lemma_tally_ok(c, voters(qc.votes@));
    assert forall|i: int| 0 <= i < qc.votes@.len() implies c.stake_of(#[trigger] qc.votes@[i].0) > 0 by {
        assert(voters(qc.votes@)[i] == qc.votes@[i].0);
    }
}

/// An ABA proof passes `ABAProof::verify` only when its voters are
/// distinct members whose stake together reaches a quorum: more than two
/// thirds of the committee's total stake.
pub proof fn law_aba_proof_accepted_only_with_a_quorum(c: Committee, p: ABAProof, r: ConsensusResult<()>)
    requires
        aba_proof_outcome(c, p, r),
        r is Ok,
    ensures
        tally(c, voters(p.votes@)) matches Ok(w) && w >= 2 * c.total_stake() / 3 + 1,
        voters(p.votes@).no_duplicates(),
        forall|i: int| 0 <= i < p.votes@.len() ==> c.stake_of(#[trigger] p.votes@[i].0) > 0,
{
    lemma_tally_ok(c, voters(p.votes@));
    assert forall|i: int| 0 <= i < p.votes@.len() implies c.stake_of(#[trigger] p.votes@[i].0) > 0 by {
        assert(voters(p.votes@)[i] == p.votes@[i].0);
    }
}

/// The voter that a fault names.
pub open spec fn fault_voter(f: Result<nat, VoteFault>) -> PublicKey {
    match f {
        Err(VoteFault::Reuse(n)) => n,
        Err(VoteFault::Unknown(n)) => n,
        Ok(_) => arbitrary(),
    }
}

/// Whether every vote of a QC carries a valid signature on the QC's digest.
pub open spec fn qc_signed(qc: QC) -> bool {
    forall|i: int| 0 <= i < qc.votes@.len() ==> ed25519_verify_strict(
        crate::crypto::Hash::spec_digest(&qc),
        #[trigger] qc.votes@[i].0@,
        qc.votes@[i].1@,
    )
}

/// What checking a QC gives.
pub open spec fn qc_outcome(c: Committee, qc: QC, r: ConsensusResult<()>) -> bool {
    let counted = tally(c, voters(qc.votes@));
    &&& quorum_outcome(c, counted, ConsensusError::AuthorityReuseinQC(fault_voter(counted)), ConsensusError::QCRequiresQuorum,
        votes_batchable(crate::crypto::Hash::spec_digest(&qc), qc.votes@), r)
    &&& r is Ok ==> votes_parse(qc.votes@)
}

// ---------------------------------------------------------------------------
// Encodings hashed into digests
// ---------------------------------------------------------------------------

/// The bytes of a list of digests, one after the other.
pub open spec fn digests_bytes(s: Seq<Digest>) -> Seq<u8>
    decreases s.len(),
{
    if s.len() == 0 {
        Seq::empty()
    } else {
        digests_bytes(s.drop_last()) + s.last()@
    }
}

/// The bytes of a list of (author, digest) references, one after the other.
pub open spec fn references_bytes(s: Seq<(PublicKey, Digest)>) -> Seq<u8>
    decreases s.len(),
{
    if s.len() == 0 {
        Seq::empty()
    } else {
        references_bytes(s.drop_last()) + s.last().0@ + s.last().1@
    }
}

/// The bytes hashed into a vote or a QC digest.
pub open spec fn vote_bytes(hash: Digest, epoch: SeqNumber, height: SeqNumber) -> Seq<u8> {
    hash@ + u64_le(epoch) + u64_le(height)
}

/// The bytes hashed into a timeout digest: the epoch and the height of the
/// sender's highest QC.
pub open spec fn timeout_bytes(epoch: SeqNumber, high_qc_height: SeqNumber) -> Seq<u8> {
    u64_le(epoch) + u64_le(high_qc_height)
}

/// The bytes hashed into an ABA value or ABA proof digest.
pub open spec fn aba_bytes(epoch: SeqNumber, round: SeqNumber, val: u64, phase: u8) -> Seq<u8> {
    u64_le(epoch) + u64_le(round) + u64_le(val) + seq![phase]
}

/// The bytes hashed into a coin share digest.
pub open spec fn coin_bytes(epoch: SeqNumber, round: SeqNumber) -> Seq<u8> {
    u64_le(epoch) + u64_le(round)
}

/// The bytes hashed into a block digest.
pub open spec fn block_bytes(b: Block) -> Seq<u8> {
    b.author@ + u64_le(b.height) + u64_le(b.epoch) + digests_bytes(b.payload@)
        + references_bytes(b.references@) + b.qc.hash@
}

/// The digest of `epoch || round`.
pub fn digest_two(a: u64, b: u64) -> (d: Digest)
    ensures
        d@ == hash_digest(u64_le(a) + u64_le(b)),
{
    let mut buf: Vec<u8> = Vec::new();
    push_u64_le(&mut buf, a);
    push_u64_le(&mut buf, b);
    assert(buf@ =~= u64_le(a) + u64_le(b));
    digest_of(&buf)
}

fn aba_digest(epoch: SeqNumber, round: SeqNumber, val: u64, phase: u8) -> (d: Digest)
    ensures
        d@ == hash_digest(aba_bytes(epoch, round, val, phase)),
{
    let mut buf: Vec<u8> = Vec::new();
    push_u64_le(&mut buf, epoch);
    push_u64_le(&mut buf, round);
    push_u64_le(&mut buf, val);
    buf.push(phase);
    assert(buf@ =~= aba_bytes(epoch, round, val, phase));
    digest_of(&buf)
}

fn vote_digest(hash: &Digest, epoch: SeqNumber, height: SeqNumber) -> (d: Digest)
    ensures
        d@ == hash_digest(vote_bytes(*hash, epoch, height)),
{
    let mut buf: Vec<u8> = Vec::new();
    push_bytes32(&mut buf, &hash.0);
    push_u64_le(&mut buf, epoch);
    push_u64_le(&mut buf, height);
    assert(buf@ =~= vote_bytes(*hash, epoch, height));
    digest_of(&buf)
}

// ---------------------------------------------------------------------------
// Quorum certificates
// ---------------------------------------------------------------------------

/// A quorum certificate: votes of 2f+1 stake for the block with digest `hash`.
#[derive(Debug)]
pub struct QC {
    pub hash: Digest,
    pub epoch: SeqNumber,
    pub height: SeqNumber,
    pub votes: Vec<(PublicKey, Signature)>,
}

impl Clone for QC {
    fn clone(&self) -> (r: Self)
        ensures
            r.hash == self.hash,
            r.epoch == self.epoch,
            r.height == self.height,
            r.votes@ == self.votes@,
    {
        QC { hash: self.hash, epoch: self.epoch, height: self.height, votes: copy_vec(&self.votes) }
    }
}

impl QC {
    /// The QC every chain starts from: zero digest, epoch 0, height 0, no votes.
    pub open spec fn is_genesis(self) -> bool {
        self.hash@ == zero_bytes(32) && self.height == 0
    }

    /// The QC every chain starts from.
    pub fn genesis() -> (qc: QC)
        ensures
            qc.hash@ == zero_bytes(32),
            qc.epoch == 0,
            qc.height == 0,
            qc.votes@.len() == 0,
    {
        QC { hash: Digest::default(), epoch: 0, height: 0, votes: Vec::new() }
    }

    /// Whether the QC stands for a timeout: zero digest at a height above 0.
    pub fn timeout(&self) -> (b: bool)
        ensures
            b == (self.hash@ == zero_bytes(32) && self.height != 0),
    {
        let zero = Digest::default();
        proof {
            crate::crypto::lemma_digest_view_eq(self.hash, zero);
        }
        self.hash == zero && self.height != 0
    }

    /// Checks that the voters hold a quorum of stake, each once, and that
    /// their signatures on the QC's digest verify in one batch.
    pub fn verify(&self, committee: &Committee) -> (r: ConsensusResult<()>)
        requires
            committee.wf(),
        ensures
            qc_outcome(*committee, *self, r),
    {
        let names = voters_of(&self.votes);
        match tally_votes(committee, &names) {
            Err(VoteFault::Reuse(n)) => Err(ConsensusError::AuthorityReuseinQC(n)),
            Err(VoteFault::Unknown(n)) => Err(ConsensusError::UnknownAuthority(n)),
            Ok(weight) => {
                if weight < committee.quorum_threshold() {
                    return Err(ConsensusError::QCRequiresQuorum);
                }
                let d = crate::crypto::Hash::digest(self);
                match Signature::verify_batch(&d, &self.votes) {
                    Ok(()) => Ok(()),
                    Err(_) => Err(ConsensusError::InvalidSignature),
                }
            },
        }
    }
}

impl Default for QC {
    fn default() -> (qc: Self)
        ensures
            qc.hash@ == zero_bytes(32),
            qc.epoch == 0,
            qc.height == 0,
            qc.votes@.len() == 0,
    {
        QC::genesis()
    }
}

impl PartialEq for QC {
    fn eq(&self, other: &Self) -> (r: bool) {
        self.hash == other.hash && self.height == other.height
    }
}

impl vstd::std_specs::cmp::PartialEqSpecImpl for QC {
    open spec fn obeys_eq_spec() -> bool {
        true
    }

    open spec fn eq_spec(&self, other: &QC) -> bool {
        self.hash == other.hash && self.height == other.height
    }
}

impl crate::crypto::Hash for QC {
    open spec fn spec_digest(&self) -> Seq<u8> {
        hash_digest(vote_bytes(self.hash, self.epoch, self.height))
    }

    fn digest(&self) -> (d: Digest) {
        vote_digest(&self.hash, self.epoch, self.height)
    }
}


// ---------------------------------------------------------------------------
// Blocks
// ---------------------------------------------------------------------------

/// A block of a chain: the QC of its parent, its author, its place, the
/// digests of its payload and the latest certified blocks of other chains.
#[derive(Debug)]
pub struct Block {
    pub qc: QC,
    pub author: PublicKey,
    pub height: SeqNumber,
    pub epoch: SeqNumber,
    pub payload: Vec<Digest>,
    pub references: Vec<(PublicKey, Digest)>,
    pub signature: Signature,
}

impl Clone for Block {
    fn clone(&self) -> (r: Self)
        ensures
            r.qc.hash == self.qc.hash,
            r.qc.epoch == self.qc.epoch,
            r.qc.height == self.qc.height,
            r.qc.votes@ == self.qc.votes@,
            r.author == self.author,
            r.height == self.height,
            r.epoch == self.epoch,
            r.payload@ == self.payload@,
            r.references@ == self.references@,
            r.signature == self.signature,
    {
        Block {
            qc: self.qc.clone(),
            author: self.author,
            height: self.height,
            epoch: self.epoch,
            payload: copy_vec(&self.payload),
            references: copy_vec(&self.references),
            signature: self.signature,
        }
    }
}

impl Default for Block {
    fn default() -> (b: Self)
        ensures
            b.is_genesis_block(),
    {
        Block {
            qc: QC::genesis(),
            author: PublicKey::default(),
            height: 0,
            epoch: 0,
            payload: Vec::new(),
            references: Vec::new(),
            signature: Signature::default(),
        }
    }
}

impl Block {
    /// A block of `author`, signed by the signature service on its digest.
    pub fn new(
        qc: QC,
        author: PublicKey,
        height: SeqNumber,
        epoch: SeqNumber,
        payload: Vec<Digest>,
        references: Vec<(PublicKey, Digest)>,
        signature_service: &SignatureService,
    ) -> (b: Block)
        ensures
            b.qc == qc,
            b.author == author,
            b.height == height,
            b.epoch == epoch,
            b.payload@ == payload@,
            b.references@ == references@,
            b.signature@ == ed25519_signature(signature_service.key(), crate::crypto::Hash::spec_digest(&b)),
    {
        let mut block = Block { qc, author, height, epoch, payload, references, signature: Signature::default() };
        let d = crate::crypto::Hash::digest(&block);
        block.signature = signature_service.request_signature(d);
        block
    }

    /// The block every chain starts from: every field zero or empty.
    pub open spec fn is_genesis_block(self) -> bool {
        &&& self.qc.is_genesis()
        &&& self.qc.epoch == 0
        &&& self.qc.votes@.len() == 0
        &&& self.author@ == zero_bytes(32)
        &&& self.height == 0
        &&& self.epoch == 0
        &&& self.payload@.len() == 0
        &&& self.references@.len() == 0
        &&& self.signature@ == zero_bytes(64)
    }

    /// The block every chain starts from.
    pub fn genesis() -> (b: Block)
        ensures
            b.is_genesis_block(),
    {
        Block::default()
    }

    /// The digest of the parent block.
    pub fn parent(&self) -> (d: &Digest)
        ensures
            *d == self.qc.hash,
    {
        &self.qc.hash
    }

    /// Checks that the author holds stake, that the author's signature on
    /// the block verifies, and, unless the block extends genesis, the QC it
    /// carries.
    pub fn verify(&self, committee: &Committee) -> (r: ConsensusResult<()>)
        requires
            committee.wf(),
        ensures
            committee.stake_of(self.author) == 0
                ==> r == Err::<(), ConsensusError>(ConsensusError::UnknownAuthority(self.author)),
            committee.stake_of(self.author) > 0 && !ed25519_verify_strict(
                crate::crypto::Hash::spec_digest(self),
                self.author@,
                self.signature@,
            ) ==> r == Err::<(), ConsensusError>(ConsensusError::InvalidSignature),
            committee.stake_of(self.author) > 0 && ed25519_verify_strict(
                crate::crypto::Hash::spec_digest(self),
                self.author@,
                self.signature@,
            ) ==> if self.qc.is_genesis() {
                r is Ok
            } else {
                qc_outcome(*committee, self.qc, r)
            },
            block_outcome(*committee, *self, r),
    {
        let voting_rights = committee.stake(&self.author);
        if voting_rights == 0 {
            return Err(ConsensusError::UnknownAuthority(self.author));
        }
        let d = crate::crypto::Hash::digest(self);
        if self.signature.verify(&d, &self.author).is_err() {
            return Err(ConsensusError::InvalidSignature);
        }
        let genesis = QC::genesis();
        proof {
            crate::crypto::lemma_digest_view_eq(self.qc.hash, genesis.hash);
        }
        if self.qc != genesis {
            return self.qc.verify(committee);
        }
        Ok(())
    }
}

/// What checking a block may give: an unknown author, a bad signature,
/// or, for a QC other than genesis, what checking the QC may give.
pub open spec fn block_outcome(c: Committee, b: Block, r: ConsensusResult<()>) -> bool {
    if c.stake_of(b.author) == 0 {
        r == Err::<(), ConsensusError>(ConsensusError::UnknownAuthority(b.author))
    } else if !ed25519_verify_strict(crate::crypto::Hash::spec_digest(&b), b.author@, b.signature@) {
        r == Err::<(), ConsensusError>(ConsensusError::InvalidSignature)
    } else if b.qc.is_genesis() {
        r is Ok
    } else {
        qc_outcome(c, b.qc, r)
    }
}

impl crate::crypto::Hash for Block {
    open spec fn spec_digest(&self) -> Seq<u8> {
        hash_digest(block_bytes(*self))
    }

    fn digest(&self) -> (d: Digest) {
        let mut buf: Vec<u8> = Vec::new();
        push_bytes32(&mut buf, &self.author.0);
        push_u64_le(&mut buf, self.height);
        push_u64_le(&mut buf, self.epoch);
        let ghost head = buf@;
        let mut i: usize = 0;
        assert(self.payload@.subrange(0, 0) =~= Seq::<Digest>::empty());
        assert(head + digests_bytes(Seq::<Digest>::empty()) =~= head);
        while i < self.payload.len()
            invariant
                i <= self.payload@.len(),
                buf@ == head + digests_bytes(self.payload@.subrange(0, i as int)),
            decreases self.payload@.len() - i,
        {
            let ghost before = buf@;
            push_bytes32(&mut buf, &self.payload[i].0);
            proof {
                let sub = self.payload@.subrange(0, i + 1);
                assert(sub.drop_last() =~= self.payload@.subrange(0, i as int));
                assert(buf@ =~= head + digests_bytes(sub));
            }
            i = i + 1;
        }
        assert(self.payload@.subrange(0, self.payload@.len() as int) =~= self.payload@);
        let ghost mid = buf@;
        let mut j: usize = 0;
        assert(self.references@.subrange(0, 0) =~= Seq::<(PublicKey, Digest)>::empty());
        assert(mid + references_bytes(Seq::<(PublicKey, Digest)>::empty()) =~= mid);
        while j < self.references.len()
            invariant
                j <= self.references@.len(),
                buf@ == mid + references_bytes(self.references@.subrange(0, j as int)),
            decreases self.references@.len() - j,
        {
            let (pk, dg) = self.references[j];
            push_bytes32(&mut buf, &pk.0);
            push_bytes32(&mut buf, &dg.0);
            proof {
                let sub = self.references@.subrange(0, j + 1);
                assert(sub.drop_last() =~= self.references@.subrange(0, j as int));
                assert(buf@ =~= mid + references_bytes(sub));
            }
            j = j + 1;
        }
        assert(self.references@.subrange(0, self.references@.len() as int) =~= self.references@);
        push_bytes32(&mut buf, &self.qc.hash.0);
        assert(buf@ =~= block_bytes(*self));
        digest_of(&buf)
    }
}

// ---------------------------------------------------------------------------
// Votes
// ---------------------------------------------------------------------------

/// A vote of `author` for the block with digest `hash`, proposed by `proposer`.
#[derive(Clone, Copy, Debug)]
pub struct Vote {
    pub hash: Digest,
    pub epoch: SeqNumber,
    pub height: SeqNumber,
    pub author: PublicKey,
    pub proposer: PublicKey,
    pub signature: Signature,
}

impl Vote {
    /// The vote of `author` for `block`, signed by the signature service.
    pub fn new(block: &Block, author: PublicKey, signature_service: &SignatureService) -> (v: Vote)
        ensures
            v.hash@ == crate::crypto::Hash::spec_digest(block),
            v.epoch == block.epoch,
            v.height == block.height,
            v.author == author,
            v.proposer == block.author,
            v.signature@ == ed25519_signature(signature_service.key(), crate::crypto::Hash::spec_digest(&v)),
    {
        let hash = crate::crypto::Hash::digest(block);
        let mut vote = Vote {
            hash,
            epoch: block.epoch,
            height: block.height,
            author,
            proposer: block.author,
            signature: Signature::default(),
        };
        let d = crate::crypto::Hash::digest(&vote);
        vote.signature = signature_service.request_signature(d);
        vote
    }

    /// Checks that the author holds stake and that the author's signature
    /// on the vote verifies.
    pub fn verify(&self, committee: &Committee) -> (r: ConsensusResult<()>)
        requires
            committee.wf(),
        ensures
            committee.stake_of(self.author) == 0
                ==> r == Err::<(), ConsensusError>(ConsensusError::UnknownAuthority(self.author)),
            committee.stake_of(self.author) > 0 ==> (r is Ok <==> ed25519_verify_strict(
                crate::crypto::Hash::spec_digest(self),
                self.author@,
                self.signature@,
            )),
            committee.stake_of(self.author) > 0 && r is Err
                ==> r == Err::<(), ConsensusError>(ConsensusError::InvalidSignature),
    {
        if committee.stake(&self.author) == 0 {
            return Err(ConsensusError::UnknownAuthority(self.author));
        }
        let d = crate::crypto::Hash::digest(self);
        match self.signature.verify(&d, &self.author) {
            Ok(()) => Ok(()),
            Err(_) => Err(ConsensusError::InvalidSignature),
        }
    }
}

impl crate::crypto::Hash for Vote {
    open spec fn spec_digest(&self) -> Seq<u8> {
        hash_digest(vote_bytes(self.hash, self.epoch, self.height))
    }

    fn digest(&self) -> (d: Digest) {
        vote_digest(&self.hash, self.epoch, self.height)
    }
}

// ---------------------------------------------------------------------------
// Timeouts
// ---------------------------------------------------------------------------

/// A timeout of `author` in `epoch`, carrying its highest QC.
#[derive(Debug)]
pub struct Timeout {
    pub high_qc: QC,
    pub epoch: SeqNumber,
    pub author: PublicKey,
    pub signature: Signature,
}

impl Clone for Timeout {
    fn clone(&self) -> (r: Self)
        ensures
            r.high_qc.hash == self.high_qc.hash,
            r.high_qc.epoch == self.high_qc.epoch,
            r.high_qc.height == self.high_qc.height,
            r.high_qc.votes@ == self.high_qc.votes@,
            r.epoch == self.epoch,
            r.author == self.author,
            r.signature == self.signature,
    {
        Timeout { high_qc: self.high_qc.clone(), epoch: self.epoch, author: self.author, signature: self.signature }
    }
}

/// What checking a timeout may give: an unknown author, a bad signature,
/// or, for a QC other than genesis, what checking the QC may give.
pub open spec fn timeout_outcome(c: Committee, t: Timeout, r: ConsensusResult<()>) -> bool {
    if c.stake_of(t.author) == 0 {
        r == Err::<(), ConsensusError>(ConsensusError::UnknownAuthority(t.author))
    } else if !ed25519_verify_strict(crate::crypto::Hash::spec_digest(&t), t.author@, t.signature@) {
        r == Err::<(), ConsensusError>(ConsensusError::InvalidSignature)
    } else if t.high_qc.is_genesis() {
        r is Ok
    } else {
        qc_outcome(c, t.high_qc, r)
    }
}

impl Timeout {
    /// The timeout of `author` in `epoch` with its highest QC, signed by the
    /// signature service.
    pub fn new(high_qc: QC, epoch: SeqNumber, author: PublicKey, signature_service: &SignatureService) -> (t: Timeout)
        ensures
            t.high_qc == high_qc,
            t.epoch == epoch,
            t.author == author,
            t.signature@ == ed25519_signature(signature_service.key(), crate::crypto::Hash::spec_digest(&t)),
    {
        let mut timeout = Timeout { high_qc, epoch, author, signature: Signature::default() };
        let d = crate::crypto::Hash::digest(&timeout);
        timeout.signature = signature_service.request_signature(d);
        timeout
    }

    /// Checks that the author holds stake, that the author's signature
    /// verifies, and, unless it is genesis, the QC it carries.
    pub fn verify(&self, committee: &Committee) -> (r: ConsensusResult<()>)
        requires
            committee.wf(),
        ensures
            timeout_outcome(*committee, *self, r),
    {
        if committee.stake(&self.author) == 0 {
            return Err(ConsensusError::UnknownAuthority(self.author));
        }
        let d = crate::crypto::Hash::digest(self);
        if self.signature.verify(&d, &self.author).is_err() {
            return Err(ConsensusError::InvalidSignature);
        }
        let genesis = QC::genesis();
        proof {
            crate::crypto::lemma_digest_view_eq(self.high_qc.hash, genesis.hash);
        }
        if self.high_qc != genesis {
            return self.high_qc.verify(committee);
        }
        Ok(())
    }
}

impl crate::crypto::Hash for Timeout {
    open spec fn spec_digest(&self) -> Seq<u8> {
        hash_digest(timeout_bytes(self.epoch, self.high_qc.height))
    }

    fn digest(&self) -> (d: Digest) {
        digest_two(self.epoch, self.high_qc.height)
    }
}

/// A timeout certificate: timeouts of 2f+1 stake for `epoch`, each with the
/// height of its sender's highest QC.
#[derive(Debug)]
pub struct TC {
    pub epoch: SeqNumber,
    pub votes: Vec<(PublicKey, Signature, SeqNumber)>,
}

impl Clone for TC {
    fn clone(&self) -> (r: Self)
        ensures
            r.epoch == self.epoch,
            r.votes@ == self.votes@,
    {
        TC { epoch: self.epoch, votes: copy_vec(&self.votes) }
    }
}

/// Whether every timeout vote carries a valid signature on its own digest.
pub open spec fn tc_signatures_valid(epoch: SeqNumber, votes: Seq<(PublicKey, Signature, SeqNumber)>) -> bool {
    forall|i: int| 0 <= i < votes.len() ==> ed25519_verify_strict(
        hash_digest(timeout_bytes(epoch, #[trigger] votes[i].2)),
        votes[i].0@,
        votes[i].1@,
    )
}

/// What checking a TC gives: the first faulty sender, a missing quorum, a
/// bad signature, or success.
pub open spec fn tc_check(c: Committee, tc: TC) -> ConsensusResult<()> {
    match tally(c, timeout_voters(tc.votes@)) {
        Err(VoteFault::Reuse(n)) => Err(ConsensusError::AuthorityReuseinTC(n)),
        Err(VoteFault::Unknown(n)) => Err(ConsensusError::UnknownAuthority(n)),
        Ok(w) => if w < c.quorum() {
            Err(ConsensusError::TCRequiresQuorum)
        } else if tc_signatures_valid(tc.epoch, tc.votes@) {
            Ok(())
        } else {
            Err(ConsensusError::InvalidSignature)
        },
    }
}

impl TC {
    /// Checks that the senders hold a quorum of stake, each once, and that
    /// every signature verifies.
    pub fn verify(&self, committee: &Committee) -> (r: ConsensusResult<()>)
        requires
            committee.wf(),
        ensures
            r == tc_check(*committee, *self),
    {
        let names = timeout_voters_of(&self.votes);
        match tally_votes(committee, &names) {
            Err(VoteFault::Reuse(n)) => Err(ConsensusError::AuthorityReuseinTC(n)),
            Err(VoteFault::Unknown(n)) => Err(ConsensusError::UnknownAuthority(n)),
            Ok(weight) => {
                if weight < committee.quorum_threshold() {
                    return Err(ConsensusError::TCRequiresQuorum);
                }
                let mut i: usize = 0;
                while i < self.votes.len()
                    invariant
                        i <= self.votes@.len(),
                        tally(*committee, timeout_voters(self.votes@)) == Ok::<nat, VoteFault>(weight as nat),
                        weight as nat >= committee.quorum(),
                        forall|j: int| 0 <= j < i ==> ed25519_verify_strict(
                            hash_digest(timeout_bytes(self.epoch, #[trigger] self.votes@[j].2)),
                            self.votes@[j].0@,
                            self.votes@[j].1@,
                        ),
                    decreases self.votes@.len() - i,
                {
                    let (author, signature, high_qc_round) = self.votes[i];
                    let d = digest_two(self.epoch, high_qc_round);
                    if signature.verify(&d, &author).is_err() {
                        assert(!ed25519_verify_strict(
                            hash_digest(timeout_bytes(self.epoch, self.votes@[i as int].2)),
                            self.votes@[i as int].0@,
                            self.votes@[i as int].1@,
                        ));
                        return Err(ConsensusError::InvalidSignature);
                    }
                    i = i + 1;
                }
                Ok(())
            },
        }
    }

    /// The heights of the highest QCs that the senders reported, in order.
    pub fn high_qc_rounds(&self) -> (r: Vec<SeqNumber>)
        ensures
            r@ == self.votes@.map_values(|v: (PublicKey, Signature, SeqNumber)| v.2),
    {
        let mut r: Vec<SeqNumber> = Vec::new();
        let mut i: usize = 0;
        while i < self.votes.len()
            invariant
                i <= self.votes@.len(),
                r@ == self.votes@.map_values(|v: (PublicKey, Signature, SeqNumber)| v.2).subrange(0, i as int),
            decreases self.votes@.len() - i,
        {
            r.push(self.votes[i].2);
            proof {
                let all = self.votes@.map_values(|v: (PublicKey, Signature, SeqNumber)| v.2);
                assert(all.subrange(0, i + 1) =~= all.subrange(0, i as int).push(all[i as int]));
            }
            i = i + 1;
        }
        proof {
            let all = self.votes@.map_values(|v: (PublicKey, Signature, SeqNumber)| v.2);
            assert(all.subrange(0, all.len() as int) =~= all);
        }
        r
    }
}

// ---------------------------------------------------------------------------
// Binary agreement
// ---------------------------------------------------------------------------

/// A value `val` broadcast by `author` in a phase of ABA round `round` of `epoch`.
#[derive(Clone, Copy, Debug)]
pub struct ABAVal {
    pub author: PublicKey,
    pub epoch: SeqNumber,
    pub round: SeqNumber,
    pub phase: u8,
    pub val: u64,
    pub signature: Signature,
}

/// Whether the author's signature on an ABA value verifies.
pub open spec fn aba_val_signed(v: ABAVal) -> bool {
    ed25519_verify_strict(crate::crypto::Hash::spec_digest(&v), v.author@, v.signature@)
}

impl ABAVal {
    /// The value `val` of `author` for a phase of an ABA round, signed by the
    /// signature service.
    pub fn new(author: PublicKey, epoch: SeqNumber, round: SeqNumber, val: u64, phase: u8, signature_service: &SignatureService) -> (v: ABAVal)
        ensures
            v.author == author,
            v.epoch == epoch,
            v.round == round,
            v.val == val,
            v.phase == phase,
            v.signature@ == ed25519_signature(signature_service.key(), crate::crypto::Hash::spec_digest(&v)),
    {
        let mut aba_val = ABAVal { author, epoch, round, phase, val, signature: Signature::default() };
        let d = crate::crypto::Hash::digest(&aba_val);
        aba_val.signature = signature_service.request_signature(d);
        aba_val
    }

    /// Checks the author's signature on the value.
    pub fn verify(&self) -> (r: ConsensusResult<()>)
        ensures
            r is Ok <==> aba_val_signed(*self),
            r is Err ==> r == Err::<(), ConsensusError>(ConsensusError::InvalidSignature),
    {
        let d = crate::crypto::Hash::digest(self);
        match self.signature.verify(&d, &self.author) {
            Ok(()) => Ok(()),
            Err(_) => Err(ConsensusError::InvalidSignature),
        }
    }
}

impl crate::crypto::Hash for ABAVal {
    open spec fn spec_digest(&self) -> Seq<u8> {
        hash_digest(aba_bytes(self.epoch, self.round, self.val, self.phase))
    }

    fn digest(&self) -> (d: Digest) {
        aba_digest(self.epoch, self.round, self.val, self.phase)
    }
}

/// Votes of enough stake for one value in one phase of an ABA round: a
/// quorum, or, when `tag` is set, f+1 in the value phase.
#[derive(Debug)]
pub struct ABAProof {
    pub epoch: SeqNumber,
    pub round: SeqNumber,
    pub val: u64,
    pub phase: u8,
    pub votes: Vec<(PublicKey, Signature)>,
    pub tag: bool,
}

impl Clone for ABAProof {
    fn clone(&self) -> (r: Self)
        ensures
            r.epoch == self.epoch,
            r.round == self.round,
            r.val == self.val,
            r.phase == self.phase,
            r.votes@ == self.votes@,
            r.tag == self.tag,
    {
        ABAProof {
            epoch: self.epoch,
            round: self.round,
            val: self.val,
            phase: self.phase,
            votes: copy_vec(&self.votes),
            tag: self.tag,
        }
    }
}

/// Whether every vote of an ABA proof carries a valid signature on the
/// proof's digest.
pub open spec fn aba_proof_signed(p: ABAProof) -> bool {
    forall|i: int| 0 <= i < p.votes@.len() ==> ed25519_verify_strict(
        crate::crypto::Hash::spec_digest(&p),
        #[trigger] p.votes@[i].0@,
        p.votes@[i].1@,
    )
}

/// What checking an ABA proof gives.
pub open spec fn aba_proof_outcome(c: Committee, p: ABAProof, r: ConsensusResult<()>) -> bool {
    let counted = tally(c, voters(p.votes@));
    quorum_outcome(
        c,
        counted,
        ConsensusError::AuthorityReuseinABA(fault_voter(counted), p.phase),
        ConsensusError::QCRequiresQuorum,
        votes_batchable(crate::crypto::Hash::spec_digest(&p), p.votes@),
        r,
    ) && (r is Ok ==> votes_parse(p.votes@))
}

impl ABAProof {
    /// Checks that the voters hold a quorum of stake, each once, and that
    /// their signatures verify in one batch.
    pub fn verify(&self, committee: &Committee) -> (r: ConsensusResult<()>)
        requires
            committee.wf(),
        ensures
            aba_proof_outcome(*committee, *self, r),
    {
        let names = voters_of(&self.votes);
        match tally_votes(committee, &names) {
            Err(VoteFault::Reuse(n)) => Err(ConsensusError::AuthorityReuseinABA(n, self.phase)),
            Err(VoteFault::Unknown(n)) => Err(ConsensusError::UnknownAuthority(n)),
            Ok(weight) => {
                if weight < committee.quorum_threshold() {
                    return Err(ConsensusError::QCRequiresQuorum);
                }
                let d = crate::crypto::Hash::digest(self);
                match Signature::verify_batch(&d, &self.votes) {
                    Ok(()) => Ok(()),
                    Err(_) => Err(ConsensusError::InvalidSignature),
                }
            },
        }
    }
}

impl crate::crypto::Hash for ABAProof {
    open spec fn spec_digest(&self) -> Seq<u8> {
        hash_digest(aba_bytes(self.epoch, self.round, self.val, self.phase))
    }

    fn digest(&self) -> (d: Digest) {
        aba_digest(self.epoch, self.round, self.val, self.phase)
    }
}


// ---------------------------------------------------------------------------
// Common coin
// ---------------------------------------------------------------------------

/// The threshold signature share of `author` on the coin of ABA round `round`
/// of `epoch` (`threshold_crypto::SignatureShare` in its 96-byte form).
#[derive(Clone, Copy, Debug)]
pub struct RandomnessShare {
    pub epoch: SeqNumber,
    pub round: SeqNumber,
    pub author: PublicKey,
    pub signature_share: [u8; 96],
}

/// What checking a coin share gives: an unknown author, a share that does
/// not verify under the author's key share, or success.
pub open spec fn share_check(c: Committee, pk_set: Seq<u8>, s: RandomnessShare) -> ConsensusResult<()> {
    if c.stake_of(s.author) == 0 {
        Err(ConsensusError::UnknownAuthority(s.author))
    } else if !tss_share_verifies(pk_set, c.id_of(s.author), s.signature_share@, crate::crypto::Hash::spec_digest(&s)) {
        Err(ConsensusError::InvalidThresholdSignature(s.author))
    } else {
        Ok(())
    }
}

impl RandomnessShare {
    /// The coin share of `author` for ABA round `round` of `epoch`, signed
    /// with the threshold key share of the signature service, which must
    /// have one.
    pub fn new(epoch: SeqNumber, round: SeqNumber, author: PublicKey, signature_service: &SignatureService) -> (r: RandomnessShare)
        requires
            signature_service.share() is Some,
        ensures
            r.epoch == epoch,
            r.round == round,
            r.author == author,
            r.signature_share@ == tss_share_signature(signature_service.share()->0, hash_digest(coin_bytes(epoch, round))),
    {
        let digest = digest_two(epoch, round);
        let signature_share = signature_service.request_tss_signature(digest).unwrap();
        RandomnessShare { epoch, round, author, signature_share }
    }

    /// Checks that the author holds stake and that its share verifies under
    /// the author's key share.
    pub fn verify(&self, committee: &Committee, pk_set: &TssPublicKeySet) -> (r: ConsensusResult<()>)
        requires
            committee.wf(),
        ensures
            r == share_check(*committee, pk_set@, *self),
    {
        if committee.stake(&self.author) == 0 {
            return Err(ConsensusError::UnknownAuthority(self.author));
        }
        proof {
            committee.lemma_stake_member(self.author);
        }
        let id = committee.id(&self.author);
        let d = crate::crypto::Hash::digest(self);
        if !pk_set.verify_share(id, &self.signature_share, &d) {
            return Err(ConsensusError::InvalidThresholdSignature(self.author));
        }
        Ok(())
    }
}

impl crate::crypto::Hash for RandomnessShare {
    open spec fn spec_digest(&self) -> Seq<u8> {
        hash_digest(coin_bytes(self.epoch, self.round))
    }

    fn digest(&self) -> (d: Digest) {
        digest_two(self.epoch, self.round)
    }
}

/// The shares of f+1 authorities for the coin of one ABA round.
#[derive(Debug)]
pub struct RandomCoin {
    pub epoch: SeqNumber,
    pub round: SeqNumber,
    pub shares: Vec<RandomnessShare>,
}

impl Default for RandomCoin {
    fn default() -> (c: Self)
        ensures
            c.epoch == 0,
            c.round == 0,
            c.shares@.len() == 0,
    {
        RandomCoin { epoch: 0, round: 0, shares: Vec::new() }
    }
}

} // verus!
