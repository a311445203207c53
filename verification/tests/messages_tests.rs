use consensus::config::Committee;
use consensus::crypto::{generate_keypair, Digest, PublicKey, SecretKey, Signature, SignatureService};
use consensus::error::ConsensusError;
use consensus::messages::{ABAProof, ABAVal, Block, Timeout, Vote, QC, TC};
use consensus::protocol::{AUX_PHASE, VAL_PHASE};
use ed25519_dalek::Digest as _;
use ed25519_dalek::Sha512;
use rand::rngs::StdRng;
use rand::SeedableRng;

fn keys() -> Vec<(PublicKey, SecretKey)> {
    let mut rng = StdRng::from_seed([0; 32]);
    (0..4).map(|_| generate_keypair(&mut rng)).collect()
}

fn committee() -> Committee {
    Committee::new(keys().into_iter().enumerate().map(|(i, (name, _))| (name, i, 1)).collect(), 1)
}

fn signer(secret: &SecretKey) -> SignatureService {
    SignatureService::new(secret.clone(), None).unwrap()
}

fn stranger() -> (PublicKey, SecretKey) {
    let mut rng = StdRng::from_seed([7; 32]);
    generate_keypair(&mut rng)
}

fn qc_signed_by(signers: &[usize], hash: Digest, height: u64) -> QC {
    let qc = QC { hash, epoch: 0, height, votes: Vec::new() };
    let digest = consensus::crypto::Hash::digest(&qc);
    let votes = signers.iter().map(|i| (keys()[*i].0, Signature::new(&digest, &keys()[*i].1))).collect();
    QC { votes, ..qc }
}

#[test]
fn genesis_block_and_qc() {
    let b = Block::genesis();
    assert_eq!(b.height, 0);
    assert_eq!(b.epoch, 0);
    assert!(b.qc == QC::genesis());
    assert!(*b.parent() == Digest::default());
    assert!(!QC::genesis().timeout());
    let t = QC { hash: Digest::default(), epoch: 0, height: 3, votes: Vec::new() };
    assert!(t.timeout());
}

#[test]
fn block_verify() {
    let (name, secret) = keys()[2].clone();
    let b = Block::new(QC::genesis(), name, 1, 0, vec![Digest([1; 32])], Vec::new(), &signer(&secret));
    assert!(b.verify(&committee()).is_ok());
    assert!(*b.parent() == QC::genesis().hash);
    // A stranger holds no stake.
    let (other, other_secret) = stranger();
    let s = Block::new(QC::genesis(), other, 1, 0, Vec::new(), Vec::new(), &signer(&other_secret));
    assert!(matches!(s.verify(&committee()), Err(ConsensusError::UnknownAuthority(k)) if k == other));
    // Changing a field breaks the signature.
    let mut c = Block::new(QC::genesis(), name, 1, 0, Vec::new(), Vec::new(), &signer(&secret));
    c.height = 2;
    assert!(matches!(c.verify(&committee()), Err(ConsensusError::InvalidSignature)));
}

#[test]
fn block_digest_covers_references() {
    let (name, secret) = keys()[2].clone();
    let a = Block::new(QC::genesis(), name, 1, 0, Vec::new(), Vec::new(), &signer(&secret));
    let b = Block::new(QC::genesis(), name, 1, 0, Vec::new(), vec![(keys()[0].0, Digest([2; 32]))], &signer(&secret));
    assert!(consensus::crypto::Hash::digest(&a) != consensus::crypto::Hash::digest(&b));
}

#[test]
fn qc_verify() {
    let c = committee();
    assert!(qc_signed_by(&[0, 1, 2], Digest([3; 32]), 1).verify(&c).is_ok());
    assert!(matches!(qc_signed_by(&[0, 1], Digest([3; 32]), 1).verify(&c), Err(ConsensusError::QCRequiresQuorum)));
    assert!(matches!(
        qc_signed_by(&[0, 1, 1], Digest([3; 32]), 1).verify(&c),
        Err(ConsensusError::AuthorityReuseinQC(k)) if k == keys()[1].0
    ));
    let mut bad = qc_signed_by(&[0, 1, 2], Digest([3; 32]), 1);
    bad.height = 2;
    assert!(matches!(bad.verify(&c), Err(ConsensusError::InvalidSignature)));
    let (other, other_secret) = stranger();
    let mut with_stranger = qc_signed_by(&[0, 1, 2], Digest([3; 32]), 1);
    let digest = consensus::crypto::Hash::digest(&with_stranger);
    with_stranger.votes.push((other, Signature::new(&digest, &other_secret)));
    assert!(matches!(with_stranger.verify(&c), Err(ConsensusError::UnknownAuthority(k)) if k == other));
}

#[test]
fn vote_verify() {
    let (name, secret) = keys()[1].clone();
    let b = Block::new(QC::genesis(), keys()[0].0, 3, 1, Vec::new(), Vec::new(), &signer(&keys()[0].1));
    let v = Vote::new(&b, name, &signer(&secret));
    assert_eq!(v.height, 3);
    assert_eq!(v.epoch, 1);
    assert!(v.proposer == keys()[0].0);
    assert!(v.hash == consensus::crypto::Hash::digest(&b));
    assert!(v.verify(&committee()).is_ok());
    let forged = Vote { author: keys()[2].0, ..v };
    assert!(matches!(forged.verify(&committee()), Err(ConsensusError::InvalidSignature)));
}

#[test]
fn timeout_verify() {
    let (name, secret) = keys()[3].clone();
    let t = Timeout::new(QC::genesis(), 2, name, &signer(&secret));
    assert!(t.verify(&committee()).is_ok());
    let with_bad_qc = Timeout::new(qc_signed_by(&[0], Digest([3; 32]), 1), 2, name, &signer(&secret));
    assert!(matches!(with_bad_qc.verify(&committee()), Err(ConsensusError::QCRequiresQuorum)));
    let good_qc = Timeout::new(qc_signed_by(&[0, 1, 3], Digest([3; 32]), 1), 2, name, &signer(&secret));
    assert!(good_qc.verify(&committee()).is_ok());
}

#[test]
fn tc_verify() {
    let epoch = 2;
    let votes: Vec<_> = (0..3)
        .map(|i| {
            let t = Timeout::new(QC::genesis(), epoch, keys()[i].0, &signer(&keys()[i].1));
            (t.author, t.signature, t.high_qc.height)
        })
        .collect();
    let tc = TC { epoch, votes: votes.clone() };
    assert!(tc.verify(&committee()).is_ok());
    assert_eq!(tc.high_qc_rounds(), vec![0, 0, 0]);
    let short = TC { epoch, votes: votes[..2].to_vec() };
    assert!(matches!(short.verify(&committee()), Err(ConsensusError::TCRequiresQuorum)));
    let mut twice = votes.clone();
    twice.push(votes[0]);
    assert!(matches!(TC { epoch, votes: twice }.verify(&committee()), Err(ConsensusError::AuthorityReuseinTC(_))));
    let other_epoch = TC { epoch: 3, votes };
    assert!(matches!(other_epoch.verify(&committee()), Err(ConsensusError::InvalidSignature)));
}

#[test]
fn aba_val_verify() {
    let (name, secret) = keys()[0].clone();
    let v = ABAVal::new(name, 1, 2, 3, VAL_PHASE, &signer(&secret));
    assert!(v.verify().is_ok());
    let changed = ABAVal { val: 4, ..v };
    assert!(matches!(changed.verify(), Err(ConsensusError::InvalidSignature)));
}

#[test]
fn aba_proof_verify() {
    let c = committee();
    let mut p = ABAProof { epoch: 1, round: 1, val: 0, phase: AUX_PHASE, votes: Vec::new(), tag: false };
    let digest = consensus::crypto::Hash::digest(&p);
    p.votes = (0..3).map(|i| (keys()[i].0, Signature::new(&digest, &keys()[i].1))).collect();
    assert!(p.verify(&c).is_ok());
    let mut twice = ABAProof { votes: p.votes.clone(), ..p };
    twice.votes[2] = twice.votes[0];
    assert!(matches!(twice.verify(&c), Err(ConsensusError::AuthorityReuseinABA(_, AUX_PHASE))));
    let short = ABAProof { votes: p.votes[..1].to_vec(), ..p };
    assert!(matches!(short.verify(&c), Err(ConsensusError::QCRequiresQuorum)));
}

#[test]
fn committee_thresholds() {
    let c = committee();
    assert_eq!(c.size(), 4);
    assert_eq!(c.total_stake_exec(), 4);
    assert_eq!(c.quorum_threshold(), 3);
    assert_eq!(c.random_coin_threshold(), 2);
    assert_eq!(c.stake(&keys()[1].0), 1);
    assert_eq!(c.stake(&stranger().0), 0);
    assert_eq!(c.id(&keys()[2].0), 2);
    assert_eq!(c.epoch(), 1);
    let weighted = Committee::new(vec![(keys()[0].0, 0, 7), (keys()[1].0, 1, 2)], 0);
    assert_eq!(weighted.quorum_threshold(), 7);
    assert_eq!(weighted.random_coin_threshold(), 4);
}

fn sha512_head(parts: &[&[u8]]) -> [u8; 32] {
    let mut hasher = Sha512::new();
    for p in parts {
        hasher.update(p);
    }
    let out = hasher.finalize();
    let mut head = [0u8; 32];
    head.copy_from_slice(&out[..32]);
    head
}

#[test]
fn digests_follow_the_encoding() {
    let (name, secret) = keys()[0].clone();
    let b = Block::new(
        QC { hash: Digest([6; 32]), epoch: 0, height: 4, votes: Vec::new() },
        name,
        5,
        2,
        vec![Digest([1; 32])],
        vec![(keys()[1].0, Digest([2; 32]))],
        &signer(&secret),
    );
    let expected = sha512_head(&[
        &name.0,
        &5u64.to_le_bytes(),
        &2u64.to_le_bytes(),
        &[1u8; 32],
        &keys()[1].0 .0,
        &[2u8; 32],
        &[6u8; 32],
    ]);
    assert_eq!(consensus::crypto::Hash::digest(&b).0, expected);
    let v = Vote::new(&b, keys()[1].0, &signer(&keys()[1].1));
    let expected = sha512_head(&[&consensus::crypto::Hash::digest(&b).0, &2u64.to_le_bytes(), &5u64.to_le_bytes()]);
    assert_eq!(consensus::crypto::Hash::digest(&v).0, expected);
    let a = ABAVal::new(name, 3, 4, 9, VAL_PHASE, &signer(&secret));
    let expected = sha512_head(&[&3u64.to_le_bytes(), &4u64.to_le_bytes(), &9u64.to_le_bytes(), &[VAL_PHASE]]);
    assert_eq!(consensus::crypto::Hash::digest(&a).0, expected);
    let t = Timeout::new(QC { hash: Digest([6; 32]), epoch: 0, height: 4, votes: Vec::new() }, 7, name, &signer(&secret));
    let expected = sha512_head(&[&7u64.to_le_bytes(), &4u64.to_le_bytes()]);
    assert_eq!(consensus::crypto::Hash::digest(&t).0, expected);
}
