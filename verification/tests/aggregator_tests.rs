use consensus::aggregator::{ABAProofMaker, Aggregator, QCMaker, TCMaker};
use consensus::config::Committee;
use consensus::crypto::{generate_keypair, Digest, PublicKey, SecretKey, Signature, SignatureService};
use consensus::error::ConsensusError;
use consensus::messages::{ABAVal, Block, Timeout, Vote, QC};
use consensus::protocol::VAL_PHASE;
use rand::rngs::StdRng;
use rand::SeedableRng;

const NODES: usize = 4;

// Fixture.
fn keys() -> Vec<(PublicKey, SecretKey)> {
    let mut rng = StdRng::from_seed([0; 32]);
    (0..NODES).map(|_| generate_keypair(&mut rng)).collect()
}

fn signer(secret: &SecretKey) -> SignatureService {
    SignatureService::new(secret.clone(), None).unwrap()
}

// Fixture.
fn committee() -> Committee {
    Committee::new(keys().into_iter().map(|(name, _)| (name, 0, 1)).collect(), 1)
}

// Fixture.
fn block() -> Block {
    let (public_key, secret_key) = keys().pop().unwrap();
    Block::new(QC::genesis(), public_key, 1, 0, Vec::new(), Vec::new(), &signer(&secret_key))
}

// Fixture.
fn vote() -> Vote {
    let (public_key, secret_key) = keys().pop().unwrap();
    Vote::new(&block(), public_key, &signer(&secret_key))
}

fn vote_from_key(hash: Digest, height: u64, proposer: PublicKey, author: PublicKey, secret: &SecretKey) -> Vote {
    let mut vote = Vote { hash, epoch: 0, height, author, proposer, signature: Signature::default() };
    let digest = consensus::crypto::Hash::digest(&vote);
    vote.signature = Signature::new(&digest, secret);
    vote
}

fn vote_with_height(height: u64) -> Vote {
    let (public_key, secret_key) = keys().pop().unwrap();
    vote_from_key(consensus::crypto::Hash::digest(&Block::genesis()), height, public_key, public_key, &secret_key)
}

fn timeout_with_epoch(epoch: u64) -> Timeout {
    let (public_key, secret_key) = keys().pop().unwrap();
    Timeout::new(QC::default(), epoch, public_key, &signer(&secret_key))
}

fn aba_val_with_epoch(epoch: u64) -> ABAVal {
    let (public_key, secret_key) = keys().pop().unwrap();
    ABAVal::new(public_key, epoch, 0, 0, VAL_PHASE, &signer(&secret_key))
}

// Fixture.
fn qc() -> QC {
    let mut keys = keys();
    let _proposer = keys.pop().unwrap();
    let qc = QC { hash: Digest::default(), height: 1, epoch: 0, votes: Vec::new() };
    let digest = consensus::crypto::Hash::digest(&qc);
    let votes: Vec<_> = (0..3)
        .map(|_| {
            let (public_key, secret_key) = keys.pop().unwrap();
            (public_key, Signature::new(&digest, &secret_key))
        })
        .collect();
    QC { votes, ..qc }
}

// Fixture.
fn timeout() -> Timeout {
    let mut keys = keys();
    let high_qc = qc();
    let (public_key, secret_key) = keys.pop().unwrap();
    Timeout::new(high_qc, 1, public_key, &signer(&secret_key))
}

// Fixture.
fn aba_val() -> ABAVal {
    let mut keys = keys();
    let (public_key, secret_key) = keys.pop().unwrap();
    ABAVal::new(public_key, 1, 1, 1, VAL_PHASE, &signer(&secret_key))
}

#[test]
fn add_vote() {
    let mut aggregator = Aggregator::new(committee());
    let result = aggregator.add_vote(vote());
    assert!(result.is_ok());
    assert!(result.unwrap().is_none());
}

#[test]
fn make_qc() {
    let mut aggregator = Aggregator::new(committee());
    let mut keys = keys();
    let qc = qc();
    let hash = consensus::crypto::Hash::digest(&qc);
    let height = qc.height;
    let proposer = keys[NODES - 1].0;

    // Add 2f+1 votes to the aggregator and ensure it returns the cryptographic
    // material to make a valid QC.
    let (public_key, secret_key) = keys.pop().unwrap();
    let vote = vote_from_key(hash.clone(), height, proposer, public_key, &secret_key);
    let result = aggregator.add_vote(vote);
    assert!(result.is_ok());
    assert!(result.unwrap().is_none());

    let (public_key, secret_key) = keys.pop().unwrap();
    let vote = vote_from_key(hash.clone(), height, proposer, public_key, &secret_key);
    let result = aggregator.add_vote(vote);
    assert!(result.is_ok());
    assert!(result.unwrap().is_none());

    let (public_key, secret_key) = keys.pop().unwrap();
    let vote = vote_from_key(hash.clone(), height, proposer, public_key, &secret_key);
    match aggregator.add_vote(vote) {
        Ok(Some(qc)) => assert!(qc.verify(&committee()).is_ok()),
        _ => assert!(false),
    }
}

#[test]
fn duplicate_vote_error() {
    let mut aggregator = Aggregator::new(committee());
    let vote = vote();

    // First vote should succeed
    let result = aggregator.add_vote(vote.clone());
    assert!(result.is_ok());

    // Duplicate vote should return error
    let result = aggregator.add_vote(vote);
    assert!(result.is_err());
    assert!(matches!(result.unwrap_err(), ConsensusError::AuthorityReuseinQC(_)));
}

#[test]
fn add_timeout() {
    let mut aggregator = Aggregator::new(committee());
    let result = aggregator.add_timeout(timeout());
    assert!(result.is_ok());
    assert!(result.unwrap().is_none());
}

#[test]
fn make_tc() {
    let mut aggregator = Aggregator::new(committee());
    let mut keys = keys();
    let timeout_template = timeout();
    let epoch = timeout_template.epoch;

    // Add 2f+1 timeouts to the aggregator and ensure it returns a valid TC
    let (public_key, secret_key) = keys.pop().unwrap();
    let timeout = Timeout::new(timeout_template.high_qc.clone(), epoch, public_key, &signer(&secret_key));
    let result = aggregator.add_timeout(timeout);
    assert!(result.is_ok());
    assert!(result.unwrap().is_none());

    let (public_key, secret_key) = keys.pop().unwrap();
    let timeout = Timeout::new(timeout_template.high_qc.clone(), epoch, public_key, &signer(&secret_key));
    let result = aggregator.add_timeout(timeout);
    assert!(result.is_ok());
    assert!(result.unwrap().is_none());

    let (public_key, secret_key) = keys.pop().unwrap();
    let timeout = Timeout::new(timeout_template.high_qc.clone(), epoch, public_key, &signer(&secret_key));
    match aggregator.add_timeout(timeout) {
        Ok(Some(tc)) => {
            assert_eq!(tc.epoch, epoch);
            assert_eq!(tc.votes.len(), 3);
        },
        _ => assert!(false),
    }
}

#[test]
fn duplicate_timeout_error() {
    let mut aggregator = Aggregator::new(committee());
    let timeout = timeout();

    // First timeout should succeed
    let result = aggregator.add_timeout(timeout.clone());
    assert!(result.is_ok());

    // Duplicate timeout should return error
    let result = aggregator.add_timeout(timeout);
    assert!(result.is_err());
    assert!(matches!(result.unwrap_err(), ConsensusError::AuthorityReuseinTC(_)));
}

#[test]
fn add_aba_val() {
    let mut aggregator = Aggregator::new(committee());
    let result = aggregator.add_aba_val(aba_val());
    assert!(result.is_ok());
    assert!(result.unwrap().is_none());
}

#[test]
fn make_aba_proof() {
    let mut aggregator = Aggregator::new(committee());
    let mut keys = keys();
    let aba_template = aba_val();
    let epoch = aba_template.epoch;
    let round = aba_template.round;
    let phase = aba_template.phase;
    let val = aba_template.val;

    // Add 2f+1 ABA vals to get a proof
    let (public_key, secret_key) = keys.pop().unwrap();
    let aba_val = ABAVal::new(public_key, epoch, round, val, phase, &signer(&secret_key));
    let result = aggregator.add_aba_val(aba_val);
    assert!(result.is_ok());
    assert!(result.unwrap().is_none());

    let (public_key, secret_key) = keys.pop().unwrap();
    let aba_val = ABAVal::new(public_key, epoch, round, val, phase, &signer(&secret_key));
    let result = aggregator.add_aba_val(aba_val);
    assert!(result.is_ok());
    assert!(result.unwrap().is_some());

    let (public_key, secret_key) = keys.pop().unwrap();
    let aba_val = ABAVal::new(public_key, epoch, round, val, phase, &signer(&secret_key));
    match aggregator.add_aba_val(aba_val) {
        Ok(Some(proof)) => {
            assert_eq!(proof.epoch, epoch);
            assert_eq!(proof.round, round);
            assert_eq!(proof.val, val);
            assert_eq!(proof.phase, phase);
            assert_eq!(proof.votes.len(), 3);
            assert!(!proof.tag); // Should be false for quorum threshold
        },
        _ => assert!(false),
    }
}

#[test]
fn make_aba_proof_with_tag() {
    let mut aggregator = Aggregator::new(committee());
    let mut keys = keys();
    let epoch = 1;
    let round = 1;
    let phase = VAL_PHASE; // Important: using VAL_PHASE to trigger tag logic
    let val = 1;

    // Add exactly random_coin_threshold votes to trigger tag=true
    let committee = committee();
    let threshold = committee.random_coin_threshold();
    let mut added_weight = 0;

    for _ in 0..keys.len() {
        let (public_key, secret_key) = keys.pop().unwrap();
        let aba_val = ABAVal::new(public_key, epoch, round, val, phase, &signer(&secret_key));
        added_weight += committee.stake(&public_key);

        let result = aggregator.add_aba_val(aba_val);
        assert!(result.is_ok());

        if added_weight == threshold {
            // Should get proof with tag=true
            match result.unwrap() {
                Some(proof) => {
                    assert!(proof.tag);
                    break;
                },
                None => continue,
            }
        } else if added_weight < threshold {
            assert!(result.unwrap().is_none());
        }
    }
}

#[test]
fn duplicate_aba_val_error() {
    let mut aggregator = Aggregator::new(committee());
    let aba_val = aba_val();

    // First ABA val should succeed
    let result = aggregator.add_aba_val(aba_val.clone());
    assert!(result.is_ok());

    // Duplicate ABA val should return error
    let result = aggregator.add_aba_val(aba_val);
    assert!(result.is_err());
    assert!(matches!(result.unwrap_err(), ConsensusError::AuthorityReuseinABA(_, _)));
}

#[test]
fn cleanup_votes_and_timeouts() {
    let mut aggregator = Aggregator::new(committee());

    // Add votes and timeouts with different heights/epochs
    let vote1 = vote_with_height(1);
    let vote2 = vote_with_height(5);
    let timeout1 = timeout_with_epoch(1);
    let timeout2 = timeout_with_epoch(5);

    aggregator.add_vote(vote1).ok();
    aggregator.add_vote(vote2).ok();
    aggregator.add_timeout(timeout1).ok();
    aggregator.add_timeout(timeout2).ok();

    assert_eq!(aggregator.votes_aggregators.len(), 2);
    assert_eq!(aggregator.timeouts_aggregators.len(), 2);

    // Cleanup with epoch=3, height=3 should remove items with lower values
    aggregator.cleanup(&3, &3);

    assert_eq!(aggregator.votes_aggregators.len(), 1);
    assert!(aggregator.votes_aggregators.contains_key(&5));
    assert_eq!(aggregator.timeouts_aggregators.len(), 1);
    assert!(aggregator.timeouts_aggregators.contains_key(&5));
}

#[test]
fn cleanup_aba() {
    let mut aggregator = Aggregator::new(committee());

    // Add ABA vals with different epochs
    let aba_val1 = aba_val_with_epoch(1);
    let aba_val2 = aba_val_with_epoch(5);

    aggregator.add_aba_val(aba_val1).ok();
    aggregator.add_aba_val(aba_val2).ok();

    assert_eq!(aggregator.aba_vals_aggregators.len(), 2);

    // Cleanup with epoch=3 should remove items with lower epoch values
    aggregator.cleanup_aba(&3);

    assert_eq!(aggregator.aba_vals_aggregators.len(), 1);
}

#[test]
fn qc_maker_weight_accumulation() {
    let committee = committee();
    let mut qc_maker = QCMaker::new();
    let vote = vote();

    // Initial weight should be 0
    assert_eq!(qc_maker.weight, 0);

    // After adding one vote, weight should increase
    let result = qc_maker.append(vote.clone(), &committee);
    assert!(result.is_ok());
    assert!(qc_maker.weight > 0);
    assert_eq!(qc_maker.votes.len(), 1);
    assert_eq!(qc_maker.used.len(), 1);
}

#[test]
fn tc_maker_weight_accumulation() {
    let committee = committee();
    let mut tc_maker = TCMaker::new();
    let timeout = timeout();

    // Initial weight should be 0
    assert_eq!(tc_maker.weight, 0);

    // After adding one timeout, weight should increase
    let result = tc_maker.append(timeout.clone(), &committee);
    assert!(result.is_ok());
    assert!(tc_maker.weight > 0);
    assert_eq!(tc_maker.votes.len(), 1);
    assert_eq!(tc_maker.used.len(), 1);
}

#[test]
fn aba_proof_maker_weight_accumulation() {
    let committee = committee();
    let mut proof_maker = ABAProofMaker::new();
    let aba_val = aba_val();

    // Initial weight should be 0
    assert_eq!(proof_maker.weight, 0);

    // After adding one ABA val, weight should increase
    let result = proof_maker.append(aba_val.clone(), &committee);
    assert!(result.is_ok());
    assert!(proof_maker.weight > 0);
    assert_eq!(proof_maker.votes.len(), 1);
    assert_eq!(proof_maker.used.len(), 1);
}

// Test to ensure weight is reset after successful aggregation
#[test]
fn weight_reset_after_qc_creation() {
    let mut aggregator = Aggregator::new(committee());
    let mut keys = keys();
    let qc = qc();
    let hash = consensus::crypto::Hash::digest(&qc);
    let height = qc.height;
    let proposer = keys[NODES - 1].0;
    let mut vote_digest = Digest::default();

    // Add enough votes to create QC
    for _ in 0..3 {
        let (public_key, secret_key) = keys.pop().unwrap();
        let vote = vote_from_key(hash.clone(), height, proposer, public_key, &secret_key);
        vote_digest = consensus::crypto::Hash::digest(&vote);
        aggregator.add_vote(vote).ok();
    }

    // Check that the QC maker's weight is reset to 0 after QC creation
    let makers = aggregator.votes_aggregators.get(&height).unwrap();
    let qc_maker = makers.get(&vote_digest).unwrap();
    assert_eq!(qc_maker.weight, 0);
}

#[test]
fn a_vote_is_answered_by_its_block_alone() {
    let ks = keys();
    let mut a1 = Aggregator::new(committee());
    let mut a2 = Aggregator::new(committee());
    // Only the second aggregator has seen the first author vote for another
    // block at the same height and for this block at another height.
    let other = vote_from_key(Digest([9; 32]), 1, ks[0].0, ks[0].0, &ks[0].1);
    let elsewhere = vote_from_key(Digest([1; 32]), 2, ks[0].0, ks[0].0, &ks[0].1);
    assert!(matches!(a2.add_vote(other), Ok(None)));
    assert!(matches!(a2.add_vote(elsewhere), Ok(None)));
    let mut answers = Vec::new();
    for i in 0..3 {
        let v = vote_from_key(Digest([1; 32]), 1, ks[0].0, ks[i].0, &ks[i].1);
        let r1 = a1.add_vote(v);
        let r2 = a2.add_vote(v);
        match (&r1, &r2) {
            (Ok(None), Ok(None)) => answers.push(false),
            (Ok(Some(q1)), Ok(Some(q2))) => {
                assert!(q1.hash == q2.hash && q1.height == q2.height && q1.votes.len() == q2.votes.len());
                answers.push(true);
            },
            _ => panic!("The answers differ"),
        }
    }
    assert_eq!(answers, vec![false, false, true]);
}
