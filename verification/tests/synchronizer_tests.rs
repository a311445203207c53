use consensus::config::Committee;
use consensus::crypto::{generate_keypair, Digest, PublicKey, SecretKey};
use consensus::crypto::SignatureService;
use consensus::messages::{Block, QC};
use consensus::synchronizer::Synchronizer;
use consensus::protocol::{HOTSTUFF, TCVBA};
use rand::rngs::StdRng;
use rand::SeedableRng;

fn keys() -> Vec<(PublicKey, SecretKey)> {
    let mut rng = StdRng::from_seed([0; 32]);
    (0..4).map(|_| generate_keypair(&mut rng)).collect()
}

fn committee() -> Committee {
    Committee::new(keys().into_iter().enumerate().map(|(i, (name, _))| (name, i, 1)).collect(), 1)
}

#[test]
fn indices_follow_the_sorted_keys() {
    let c = committee();
    let mut sorted: Vec<PublicKey> = keys().into_iter().map(|(k, _)| k).collect();
    sorted.sort();
    for (i, k) in sorted.iter().enumerate() {
        assert_eq!(Synchronizer::get_idx(k, &c), i as u64);
    }
}

#[test]
fn indices_of_fixed_keys() {
    let c = Committee::new(vec![(PublicKey([9; 32]), 0, 1), (PublicKey([1; 32]), 1, 1), (PublicKey([5; 32]), 2, 1)], 0);
    assert_eq!(Synchronizer::get_idx(&PublicKey([1; 32]), &c), 0);
    assert_eq!(Synchronizer::get_idx(&PublicKey([5; 32]), &c), 1);
    assert_eq!(Synchronizer::get_idx(&PublicKey([9; 32]), &c), 2);
}

#[test]
fn everyone_is_reached_outside_the_attack() {
    let targets = vec![3, 0, 5, 1];
    let (kept, cut) = Synchronizer::transmit_targets(59, 0, &targets, HOTSTUFF);
    assert_eq!(kept, targets);
    assert!(cut.is_empty());
    let (kept, cut) = Synchronizer::transmit_targets(90 + 10, 5, &targets, HOTSTUFF);
    assert_eq!(kept, targets);
    assert!(cut.is_empty());
}

#[test]
fn the_attack_splits_the_network() {
    let targets = vec![6, 0, 5, 1, 4, 9];
    let (kept, cut) = Synchronizer::transmit_targets(60, 2, &targets, HOTSTUFF);
    assert_eq!(kept, vec![0, 1, 9]);
    assert_eq!(cut, vec![4, 5, 6]);
    let (kept, cut) = Synchronizer::transmit_targets(90 + 89, 4, &vec![6, 3, 0, 8], HOTSTUFF);
    assert_eq!(kept, vec![6, 8]);
    assert_eq!(cut, vec![0, 3]);
    // Senders past index 6 are not cut off.
    let (kept, cut) = Synchronizer::transmit_targets(75, 7, &targets, HOTSTUFF);
    assert_eq!(kept, targets);
    assert!(cut.is_empty());
    // A repeated target loses its first occurrence only.
    let (kept, cut) = Synchronizer::transmit_targets(60, 2, &vec![5, 1, 5, 4], HOTSTUFF);
    assert_eq!(kept, vec![1, 5]);
    assert_eq!(cut, vec![4, 5]);
    // The agreement's messages are not cut off.
    let (kept, cut) = Synchronizer::transmit_targets(60, 2, &targets, TCVBA);
    assert_eq!(kept, targets);
    assert!(cut.is_empty());
}

#[test]
fn genesis_needs_no_store() {
    let b = Synchronizer::known_block(&QC::genesis().hash).unwrap();
    assert_eq!(b.height, 0);
    assert!(b.qc == QC::genesis());
    assert!(Synchronizer::known_block(&Digest([1; 32])).is_none());
}

fn block_at(height: u64) -> Block {
    let (name, secret) = keys()[0].clone();
    Block::new(QC::genesis(), name, height, 0, Vec::new(), Vec::new(), &SignatureService::new(secret, None).unwrap())
}

#[test]
fn one_request_per_missing_block() {
    let mut sync = Synchronizer::new();
    let waiting = block_at(3);
    assert!(sync.request(Digest([1; 32]), Some(waiting.clone()), 100));
    assert!(!sync.request(Digest([1; 32]), Some(waiting.clone()), 200));
    assert!(sync.request(Digest([2; 32]), Some(waiting.clone()), 300));
    assert_eq!(sync.pending.len(), 2);
    assert_eq!(sync.demands.len(), 1);
}

#[test]
fn a_waiting_block_comes_back_when_all_it_needs_arrived() {
    let mut sync = Synchronizer::new();
    let waiting = block_at(3);
    sync.request(Digest([1; 32]), Some(waiting.clone()), 100);
    sync.request(Digest([2; 32]), Some(waiting.clone()), 100);
    assert!(sync.arrived(&Digest([1; 32])).is_none());
    assert!(sync.arrived(&Digest([9; 32])).is_none());
    let back = sync.arrived(&Digest([2; 32])).unwrap();
    assert_eq!(back.height, 3);
    assert_eq!(sync.pending.len(), 0);
    assert_eq!(sync.demands.len(), 0);
}

#[test]
fn late_requests_are_asked_again() {
    let mut sync = Synchronizer::new();
    sync.request(Digest([1; 32]), None, 100);
    sync.request(Digest([2; 32]), None, 500);
    let late = sync.overdue(700, 300);
    assert_eq!(late.len(), 1);
    assert!(late[0] == Digest([1; 32]));
    assert!(sync.overdue(400, 300).is_empty());
    assert_eq!(sync.overdue(10_000, 300).len(), 2);
}

#[test]
fn a_broadcast_goes_to_everyone_else() {
    let c = committee();
    assert_eq!(c.broadcast_ids(&keys()[2].0), vec![0, 1, 3]);
    let (kept, cut) = Synchronizer::transmit_targets(61, Synchronizer::get_idx(&keys()[2].0, &c), &c.broadcast_ids(&keys()[2].0), HOTSTUFF);
    let mut all = kept.clone();
    all.extend(cut.iter());
    all.sort();
    assert_eq!(all, vec![0, 1, 3]);
}
