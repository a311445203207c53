use consensus::aggregator::{ABARandomCoinMaker, Aggregator};
use consensus::config::Committee;
use consensus::crypto::{
    coin_from_signature, generate_keypair, generate_production_keypair, Digest, PublicKey, SecretKey, Signature,
    SignatureService, TssPublicKeySet, TssSecretShare,
};
use consensus::error::ConsensusError;
use consensus::messages::RandomnessShare;
use ed25519_dalek::Signer;
use rand::rngs::StdRng;
use rand::SeedableRng;
use threshold_crypto::serde_impl::SerdeSecret;
use threshold_crypto::SecretKeySet;

fn keys() -> Vec<(PublicKey, SecretKey)> {
    let mut rng = StdRng::from_seed([0; 32]);
    (0..4).map(|_| generate_keypair(&mut rng)).collect()
}

fn committee() -> Committee {
    Committee::new(keys().into_iter().enumerate().map(|(i, (name, _))| (name, i, 1)).collect(), 1)
}

fn threshold_keys() -> SecretKeySet {
    let mut rng = StdRng::from_seed([1; 32]);
    SecretKeySet::random(1, &mut rng)
}

fn pk_set() -> TssPublicKeySet {
    TssPublicKeySet::new(bincode::serialize(&threshold_keys().public_keys()).unwrap()).unwrap()
}

fn service_of(index: usize) -> SignatureService {
    let share = threshold_keys().secret_key_share(index);
    let bytes = bincode::serialize(&SerdeSecret(share)).unwrap();
    SignatureService::new(keys()[index].1.clone(), Some(TssSecretShare { bytes })).unwrap()
}

#[test]
fn digest_bytes() {
    let d = Digest([5; 32]);
    assert_eq!(d.size(), 32);
    assert_eq!(d.to_vec(), vec![5u8; 32]);
}

#[test]
fn public_key_base64_round_trip() {
    let (public_key, _) = keys().pop().unwrap();
    let text = public_key.to_base64();
    assert_eq!(text, base64::encode(&public_key.0));
    let back = PublicKey::from_base64(&text).unwrap();
    assert!(back == public_key);
}

#[test]
fn secret_key_base64_round_trip() {
    let (_, secret_key) = keys().pop().unwrap();
    let text = secret_key.to_base64();
    let back = SecretKey::from_base64(&text).unwrap();
    assert_eq!(back.to_base64(), text);
}

#[test]
fn base64_refuses_bad_text() {
    assert!(PublicKey::from_base64("not base64!").is_err());
    assert!(matches!(PublicKey::try_from_base64("AAAA"), None));
    assert!(matches!(PublicKey::try_from_base64("!!"), Some(Err(_))));
    let full = PublicKey([3; 32]).to_base64();
    assert!(matches!(PublicKey::try_from_base64(&full), Some(Ok(k)) if k == PublicKey([3; 32])));
    assert!(matches!(SecretKey::try_from_base64(&full), None));
}

#[test]
fn generated_keys_match_their_key_pair() {
    let (public_key, secret_key) = generate_production_keypair();
    assert!(secret_key.is_valid_keypair());
    let text = secret_key.to_base64();
    let bytes = base64::decode(&text).unwrap();
    assert_eq!(&bytes[32..64], &public_key.0[..]);
    // Seeded generation gives the same keys every time.
    assert!(keys()[0].0 == keys()[0].0);
    assert!(keys()[0].0 != keys()[1].0);
}

#[test]
fn sign_and_verify() {
    let (public_key, secret_key) = keys().pop().unwrap();
    let digest = Digest([8; 32]);
    let signature = Signature::new(&digest, &secret_key);
    assert!(signature.verify(&digest, &public_key).is_ok());
    assert!(signature.verify(&Digest([9; 32]), &public_key).is_err());
    assert!(signature.verify(&digest, &keys()[0].0).is_err());
    let flat = signature.flatten();
    let reference = ed25519_dalek::Keypair::from_bytes(&base64::decode(secret_key.to_base64()).unwrap()).unwrap();
    assert_eq!(flat.to_vec(), reference.sign(&digest.0).to_bytes().to_vec());
}

#[test]
fn verify_batch_of_votes() {
    let digest = Digest([4; 32]);
    let votes: Vec<(PublicKey, Signature)> = keys().iter().map(|(k, s)| (*k, Signature::new(&digest, s))).collect();
    assert!(Signature::verify_batch(&digest, &votes).is_ok());
    let mut bad = votes.clone();
    bad[1].1 = Signature::new(&Digest([5; 32]), &keys()[1].1);
    assert!(Signature::verify_batch(&digest, &bad).is_err());
}

#[test]
fn a_batch_with_a_key_off_the_curve_is_refused() {
    let digest = Digest([4; 32]);
    let mut votes: Vec<(PublicKey, Signature)> = keys().iter().map(|(k, s)| (*k, Signature::new(&digest, s))).collect();
    let mut bytes = [0u8; 32];
    let mut b: u8 = 2;
    loop {
        bytes[0] = b;
        if ed25519_dalek::PublicKey::from_bytes(&bytes).is_err() {
            break;
        }
        b += 1;
    }
    votes.push((PublicKey(bytes), Signature::default()));
    assert!(Signature::verify_batch(&digest, &votes).is_err());
    assert!(Signature::verify_batch(&digest, &votes[..4].to_vec()).is_ok());
}

#[test]
fn a_service_needs_a_loading_key_pair() {
    // A key pair whose public half is no curve point.
    let mut bytes = [0u8; 64];
    let mut b: u8 = 2;
    loop {
        bytes[32] = b;
        if ed25519_dalek::PublicKey::from_bytes(&bytes[32..64]).is_err() {
            break;
        }
        b += 1;
    }
    let bad = SecretKey::from_base64(&base64::encode(bytes)).unwrap();
    assert!(!bad.is_valid_keypair());
    assert!(SignatureService::new(bad, None).is_none());
    let (_, good) = keys().pop().unwrap();
    assert!(SignatureService::new(good.clone(), Some(TssSecretShare { bytes: vec![1, 2, 3] })).is_none());
    let service = SignatureService::new(good, None).unwrap();
    assert!(service.request_tss_signature(Digest([0; 32])).is_none());
}

#[test]
fn a_key_set_without_coefficients_is_refused() {
    assert!(TssPublicKeySet::new(vec![0; 8]).is_none());
    assert!(TssPublicKeySet::new(vec![0; 20]).is_none());
    assert!(TssPublicKeySet::new(vec![0; 7]).is_some());
    let mut one = vec![0u8; 8];
    one[7] = 1;
    assert!(TssPublicKeySet::new(one).is_some());
    let bytes = bincode::serialize(&threshold_keys().public_keys()).unwrap();
    assert_eq!(TssPublicKeySet::new(bytes.clone()).unwrap().bytes(), &bytes);
}

#[test]
fn coin_shares_verify_and_combine() {
    let committee = committee();
    let pk_set = pk_set();
    let s0 = RandomnessShare::new(1, 2, keys()[0].0, &service_of(0));
    let s1 = RandomnessShare::new(1, 2, keys()[1].0, &service_of(1));
    assert!(s0.verify(&committee, &pk_set).is_ok());
    assert!(s1.verify(&committee, &pk_set).is_ok());

    let mut aggregator = Aggregator::new(committee);
    assert!(matches!(aggregator.add_aba_random(s0, &pk_set), Ok(None)));
    let coin = aggregator.add_aba_random(s1, &pk_set).unwrap().unwrap();

    // The coin is the parity of the first eight bytes of the threshold
    // signature on the round's digest.
    let digest = consensus::crypto::Hash::digest(&s0);
    let keys = threshold_keys();
    let share0 = keys.secret_key_share(0).sign(&digest.0);
    let share1 = keys.secret_key_share(1).sign(&digest.0);
    let signature = keys.public_keys().combine_signatures(vec![(0usize, &share0), (1usize, &share1)]).unwrap();
    assert!(keys.public_keys().public_key().verify(&signature, &digest.0));
    let full = signature.to_bytes();
    assert_eq!(coin, (full[7] % 2) as usize);
    assert_eq!(coin_from_signature(&full), coin);
}

#[test]
fn a_share_under_the_wrong_key_is_refused() {
    let committee = committee();
    let pk_set = pk_set();
    // Signed with the share of member 1 but sent as member 0.
    let s = RandomnessShare::new(1, 2, keys()[0].0, &service_of(1));
    assert!(matches!(s.verify(&committee, &pk_set), Err(ConsensusError::InvalidThresholdSignature(_))));
}

#[test]
fn a_coin_share_counts_once() {
    let committee = committee();
    let pk_set = pk_set();
    let mut maker = ABARandomCoinMaker::new();
    let s0 = RandomnessShare::new(1, 2, keys()[0].0, &service_of(0));
    assert!(matches!(maker.append(s0, &committee, &pk_set), Ok(None)));
    assert_eq!(maker.weight, 1);
    assert!(matches!(maker.append(s0, &committee, &pk_set), Err(ConsensusError::AuthorityReuseinCoin(_))));
    assert_eq!(maker.shares.len(), 1);
}

#[test]
fn a_stranger_coin_share_counts_no_stake() {
    let committee = committee();
    let pk_set = pk_set();
    let mut rng = StdRng::from_seed([7; 32]);
    let (stranger, _) = generate_keypair(&mut rng);
    let mut maker = ABARandomCoinMaker::new();
    let s = RandomnessShare::new(1, 2, stranger, &service_of(0));
    assert!(matches!(maker.append(s, &committee, &pk_set), Ok(None)));
    assert_eq!(maker.weight, 0);
    assert_eq!(maker.shares.len(), 1);
    assert!(matches!(maker.append(s, &committee, &pk_set), Err(ConsensusError::AuthorityReuseinCoin(_))));
    let s0 = RandomnessShare::new(1, 2, keys()[0].0, &service_of(0));
    assert!(matches!(maker.append(s0, &committee, &pk_set), Ok(None)));
    assert_eq!(maker.weight, 1);
}

#[test]
fn coin_of_a_signature() {
    let mut sig = [0u8; 96];
    sig[7] = 3;
    assert_eq!(coin_from_signature(&sig), 1);
    sig[7] = 4;
    sig[0] = 1;
    assert_eq!(coin_from_signature(&sig), 0);
}

#[test]
fn a_key_with_a_small_order_part_can_fail_the_batch() {
    // A key made of a multiple of the base point plus a point of order 8,
    // and a signature on "torsion" that passes the strict check.
    let key: [u8; 32] = [243, 167, 183, 160, 161, 213, 63, 150, 154, 179, 13, 95, 184, 181, 108, 241, 141, 187, 178, 200, 220, 86, 141, 138, 176, 71, 202, 56, 201, 248, 142, 155];
    let sig: [u8; 64] = [43, 155, 5, 21, 185, 170, 0, 51, 172, 249, 53, 229, 127, 92, 135, 249, 192, 82, 50, 156, 45, 51, 253, 48, 119, 254, 241, 50, 179, 252, 62, 241, 86, 173, 201, 248, 4, 14, 243, 111, 212, 144, 157, 13, 55, 250, 77, 178, 177, 23, 230, 156, 122, 56, 126, 94, 223, 50, 213, 232, 57, 63, 165, 2];
    let public = ed25519_dalek::PublicKey::from_bytes(&key).unwrap();
    let signature = ed25519_dalek::Signature::from_bytes(&sig).unwrap();
    assert!(public.verify_strict(b"torsion", &signature).is_ok());
    // The batch weighs the key's hash modulo the group order, which the
    // point of order 8 does not absorb: the batch refuses for most weights.
    let mut refused = false;
    for _ in 0..40 {
        if ed25519_dalek::verify_batch(&[&b"torsion"[..]], &[signature], &[public]).is_err() {
            refused = true;
        }
    }
    assert!(refused);
    // Keys made by the library are multiples of the base point: a batch of
    // their valid signatures is accepted.
    let digest = Digest([4; 32]);
    let votes: Vec<(PublicKey, Signature)> = keys().iter().map(|(k, s)| (*k, Signature::new(&digest, s))).collect();
    for _ in 0..40 {
        assert!(Signature::verify_batch(&digest, &votes).is_ok());
    }
}
