use consensus::commit::{CommitAction, CommitWalk};
use consensus::config::Committee;
use consensus::crypto::{generate_keypair, Digest, PublicKey, SecretKey, Signature, SignatureService, TssPublicKeySet};
use consensus::error::ConsensusError;
use consensus::messages::{ABAProof, ABAVal, Block, Timeout, Vote, QC, TC};
use consensus::protocol::{
    commit_rule, sort_references, AbaStage, AbaWork, Chain, CoinStep, Core, PhaseStep, AUX_PHASE, COIN_PHASE,
    INIT_PHASE, LAMBDA_VAL, NEXT_EPOCH_HEIGHT, VAL_PHASE,
};
use consensus::util::VecMap;
use rand::rngs::StdRng;
use std::collections::HashMap;
use rand::SeedableRng;

fn keys() -> Vec<(PublicKey, SecretKey)> {
    let mut rng = StdRng::from_seed([0; 32]);
    (0..4).map(|_| generate_keypair(&mut rng)).collect()
}

fn committee() -> Committee {
    Committee::new(keys().into_iter().enumerate().map(|(i, (name, _))| (name, i, 1)).collect(), 1)
}

fn signer(secret: &SecretKey) -> SignatureService {
    SignatureService::new(secret.clone(), None).unwrap()
}

fn core_of(index: usize) -> Core {
    let (name, secret) = keys()[index].clone();
    Core::new(name, committee(), signer(&secret), TssPublicKeySet::new(Vec::new()).unwrap())
}

fn block_of(index: usize, qc: QC, height: u64, epoch: u64) -> Block {
    let (name, secret) = keys()[index].clone();
    Block::new(qc, name, height, epoch, Vec::new(), Vec::new(), &signer(&secret))
}

fn qc_at(hash: Digest, height: u64) -> QC {
    QC { hash, epoch: 0, height, votes: Vec::new() }
}

fn set_height(core: &mut Core, name: &PublicKey, height: u64) {
    let mut chain = core.pubkey_to_chain.remove(name).unwrap();
    chain.height = height;
    core.pubkey_to_chain.insert(*name, chain);
}

fn aba_proof(epoch: u64, round: u64, val: u64, phase: u8) -> ABAProof {
    ABAProof { epoch, round, val, phase, votes: Vec::new(), tag: false }
}

#[test]
fn votes_go_to_increasing_heights() {
    let leader = keys()[0].0;
    let mut chain = Chain::new(keys()[1].0, committee());
    let b1 = block_of(1, QC::genesis(), 1, 0);
    assert!(chain.make_vote(&b1, 0, false, &leader));
    assert_eq!(chain.last_voted_height, 1);
    // A second block of the same height gets no vote.
    let b1_again = block_of(1, QC::genesis(), 1, 0);
    assert!(!chain.make_vote(&b1_again, 0, false, &leader));
    // The next height, extending its parent directly, does.
    let b2 = block_of(1, qc_at(Digest([7; 32]), 1), 2, 0);
    assert!(chain.make_vote(&b2, 0, false, &leader));
    assert_eq!(chain.last_voted_height, 2);
}

#[test]
fn no_vote_for_an_older_epoch_or_a_gap() {
    let leader = keys()[0].0;
    let mut chain = Chain::new(keys()[1].0, committee());
    let old = block_of(1, QC::genesis(), 1, 0);
    assert!(!chain.make_vote(&old, 1, false, &leader));
    // The block skips a height after its QC.
    let gap = block_of(1, qc_at(Digest([7; 32]), 1), 3, 0);
    assert!(!chain.make_vote(&gap, 0, false, &leader));
    assert_eq!(chain.last_voted_height, 0);
}

#[test]
fn no_vote_for_the_leader_during_a_view_change() {
    let leader = keys()[1].0;
    let mut chain = Chain::new(leader, committee());
    let b = block_of(1, QC::genesis(), 1, 0);
    assert!(!chain.make_vote(&b, 0, true, &leader));
    assert!(chain.make_vote(&b, 0, false, &leader));
}

#[test]
fn process_block_vote_needs_the_chain_height() {
    let core = core_of(0);
    let leader = keys()[0].0;
    let mut chain = Chain::new(keys()[1].0, committee());
    chain.height = 5;
    let b = block_of(1, qc_at(Digest([7; 32]), 3), 4, 0);
    assert!(!core.process_block_vote(&b, &mut chain, &leader));
    let b = block_of(1, qc_at(Digest([7; 32]), 4), 5, 0);
    assert!(core.process_block_vote(&b, &mut chain, &leader));
    assert_eq!(chain.last_voted_height, 5);
    // A block restarting from genesis is judged at any height.
    let mut fresh = Chain::new(keys()[1].0, committee());
    fresh.height = 9;
    let b = block_of(1, QC::genesis(), 12, 0);
    assert!(core.process_block_vote(&b, &mut fresh, &leader));
}

#[test]
fn accept_proposal_refuses_a_wrong_author() {
    let core = core_of(0);
    let mut chain = Chain::new(keys()[2].0, committee());
    let b = block_of(1, QC::genesis(), 1, 0);
    match core.accept_proposal(&b, &mut chain) {
        Err(ConsensusError::WrongAuthor { digest, author, height }) => {
            assert!(digest == consensus::crypto::Hash::digest(&b));
            assert!(author == keys()[1].0);
            assert_eq!(height, 1);
        },
        _ => assert!(false),
    }
    assert_eq!(chain.height, 1);
}

#[test]
fn accept_proposal_takes_the_qc() {
    let core = core_of(0);
    let mut chain = Chain::new(keys()[1].0, committee());
    let b = block_of(1, QC::genesis(), 1, 0);
    assert!(core.accept_proposal(&b, &mut chain).is_ok());
    assert!(chain.height_to_digest.contains_key(&0));
    assert_eq!(chain.height, 1);
}

#[test]
fn accept_proposal_refuses_a_bad_signature() {
    let core = core_of(0);
    let mut chain = Chain::new(keys()[1].0, committee());
    let mut b = block_of(1, QC::genesis(), 1, 0);
    b.signature = Signature::default();
    assert!(matches!(core.accept_proposal(&b, &mut chain), Err(ConsensusError::InvalidSignature)));
    assert_eq!(chain.height_to_digest.len(), 0);
}

#[test]
fn accept_proposal_refuses_a_qc_without_quorum() {
    let core = core_of(0);
    let mut chain = Chain::new(keys()[1].0, committee());
    let b = block_of(1, qc_at(Digest([7; 32]), 1), 2, 0);
    assert!(matches!(core.accept_proposal(&b, &mut chain), Err(ConsensusError::QCRequiresQuorum)));
}

#[test]
fn the_two_chain_commit_rule() {
    let leader = keys()[1].0;
    let b0 = block_of(1, QC::genesis(), 4, 0);
    let b1 = block_of(1, qc_at(Digest([7; 32]), 4), 5, 0);
    assert!(commit_rule(&leader, &b0, &b1));
    let b2 = block_of(1, qc_at(Digest([7; 32]), 5), 6, 0);
    assert!(!commit_rule(&leader, &b0, &b2));
    assert!(!commit_rule(&keys()[2].0, &b0, &b1));
}

#[test]
fn commits_only_leader_blocks_outside_a_view_change() {
    let mut core = core_of(0);
    let leader = keys()[1].0;
    let b = block_of(1, QC::genesis(), 1, 0);
    assert!(core.may_commit(&b, &leader));
    assert!(!core.may_commit(&b, &keys()[2].0));
    let later = block_of(1, QC::genesis(), 1, 3);
    assert!(!core.may_commit(&later, &leader));
    core.is_view_change = true;
    assert!(!core.may_commit(&b, &leader));
}

#[test]
fn check_timeout_starts_a_view_change_when_a_chain_runs_ahead() {
    let mut core = core_of(0);
    let leader = keys()[1].0;
    let leader_chain = Chain::new(leader, committee());
    assert!(!core.check_timeout(&leader_chain));
    assert!(!core.is_view_change);
    // Exactly LAMBDA_VAL ahead is not enough.
    set_height(&mut core, &keys()[2].0, 1 + LAMBDA_VAL);
    assert!(!core.check_timeout(&leader_chain));
    set_height(&mut core, &keys()[2].0, 2 + LAMBDA_VAL);
    assert!(core.check_timeout(&leader_chain));
    assert!(core.is_view_change);
    // Once the view changes, no more timeouts of our own.
    assert!(!core.check_timeout(&leader_chain));
}

#[test]
fn check_timeout_with_a_tc_enters_the_view_change() {
    let mut core = core_of(0);
    core.tc_cache.insert(0, TC { epoch: 0, votes: Vec::new() });
    let leader_chain = Chain::new(keys()[1].0, committee());
    assert!(!core.check_timeout(&leader_chain));
    assert!(core.is_view_change);
}

#[test]
fn local_timeout_round_stops_votes_at_the_chain_height() {
    let core = core_of(0);
    let mut chain = Chain::new(keys()[1].0, committee());
    chain.height = 6;
    let timeout = core.local_timeout_round(&mut chain);
    assert_eq!(chain.last_voted_height, 6);
    assert_eq!(timeout.epoch, 0);
    assert!(timeout.author == keys()[0].0);
    assert!(timeout.verify(&committee()).is_ok());
}

#[test]
fn generate_proposal_refers_to_certified_chains() {
    let mut core = core_of(0);
    let other = keys()[2].0;
    let mut chain = core.pubkey_to_chain.remove(&other).unwrap();
    chain.high_qc = qc_at(Digest([9; 32]), 3);
    core.pubkey_to_chain.insert(other, chain);
    let own = Chain::new(keys()[0].0, committee());
    let payload = vec![Digest([1; 32])];
    let block = core.generate_proposal(&own, false, payload);
    assert_eq!(block.references.len(), 1);
    assert!(block.references[0].0 == other);
    assert!(block.references[0].1 == Digest([9; 32]));
    assert_eq!(block.payload.len(), 1);
    assert!(block.author == keys()[0].0);
    assert!(block.verify(&committee()).is_ok());
    // A new epoch starts from genesis.
    core.epoch = 4;
    let fresh = core.generate_proposal(&own, true, Vec::new());
    assert!(fresh.qc == QC::genesis());
    assert_eq!(fresh.epoch, 4);
}

#[test]
fn sort_references_orders_by_key() {
    let mut refs: Vec<(PublicKey, Digest)> = vec![
        (PublicKey([3; 32]), Digest([0; 32])),
        (PublicKey([1; 32]), Digest([1; 32])),
        (PublicKey([2; 32]), Digest([2; 32])),
    ];
    sort_references(&mut refs);
    assert!(refs[0].0 == PublicKey([1; 32]));
    assert!(refs[1].0 == PublicKey([2; 32]));
    assert!(refs[2].0 == PublicKey([3; 32]));
    assert!(refs[0].1 == Digest([1; 32]));
    assert_eq!(refs.len(), 3);
}

#[test]
fn handle_aba_val_refuses_other_phases() {
    let mut core = core_of(0);
    let (name, secret) = keys()[1].clone();
    let v = ABAVal::new(name, 0, 1, 0, 7, &signer(&secret));
    assert!(matches!(core.handle_aba_val(v), Err(ConsensusError::InvalidPhase(7))));
    let bad = ABAVal { signature: Signature::default(), ..ABAVal::new(name, 0, 1, 0, VAL_PHASE, &signer(&secret)) };
    assert!(matches!(core.handle_aba_val(bad), Err(ConsensusError::InvalidSignature)));
}

#[test]
fn value_phase_gathers_f_plus_one_and_a_quorum() {
    let mut core = core_of(0);
    for i in 0..3 {
        let (name, secret) = keys()[i].clone();
        let v = ABAVal::new(name, 0, 1, 5, VAL_PHASE, &signer(&secret));
        assert!(core.handle_aba_val(v).is_ok());
        if i == 1 {
            assert!(core.aba_val_phase_cache1.contains_key(&(0, 1)));
            assert!(!core.aba_val_phase_cache2.contains_key(&(0, 1)));
        }
    }
    assert!(core.aba_val_phase_cache2.contains_key(&(0, 1)));
}

#[test]
fn expired_messages_after_a_decision() {
    let mut core = core_of(0);
    assert!(!core.is_expired_aba_message(0, 1));
    assert!(core.is_expired_aba_message(0, 0));
    core.aba_output_val = Some(3);
    assert!(core.is_expired_aba_message(0, 1));
    assert!(core.is_expired_aba_message(5, 9));
}

#[test]
fn the_phase_only_moves_forward() {
    let mut core = core_of(0);
    core.update_phase();
    assert_eq!(core.phase, INIT_PHASE);
    core.is_view_change = true;
    core.update_phase();
    assert_eq!(core.phase, INIT_PHASE);
    core.tc_processed = true;
    core.bin_values.push(4);
    core.update_phase();
    assert_eq!(core.phase, AUX_PHASE);
    // The coin phase needs a coin, a quorum of auxiliary values, and two
    // binary values or an auxiliary proof.
    core.aba_coin_cache.insert((0, 1), 1);
    core.update_phase();
    assert_eq!(core.phase, AUX_PHASE);
    assert!(core.aux_value_nums.contains_key(&(0, 1)));
    core.aux_value_nums.insert((0, 1), 3);
    core.update_phase();
    assert_eq!(core.phase, AUX_PHASE);
    core.bin_values.push(5);
    core.update_phase();
    assert_eq!(core.phase, COIN_PHASE);
    core.update_phase();
    assert_eq!(core.phase, COIN_PHASE);
}

#[test]
fn coin_decides_a_matching_binary_value() {
    let mut core = core_of(0);
    core.bin_values.push(4);
    core.aba_aux_phase_cache.insert((0, 1), aba_proof(0, 1, 4, AUX_PHASE));
    match core.process_coin_share(0, 1, 0) {
        CoinStep::Decided(Some(p)) => assert_eq!(p.val, 4),
        _ => assert!(false),
    }
    assert_eq!(core.aba_output_val, Some(4));
    assert!(core.aux_proof_broadcasted);
}

#[test]
fn coin_moves_to_the_next_round_otherwise() {
    let mut core = core_of(0);
    core.bin_values.push(4);
    assert!(matches!(core.process_coin_share(0, 1, 1), CoinStep::Advance(4)));
    let mut other = core_of(0);
    other.bin_values.push(4);
    other.bin_values.push(7);
    assert!(matches!(other.process_coin_share(0, 1, 1), CoinStep::Advance(1)));
    other.aba_aux_phase_cache.insert((0, 1), aba_proof(0, 1, 7, AUX_PHASE));
    assert!(matches!(other.process_coin_share(0, 1, 1), CoinStep::Decided(Some(_))));
    assert_eq!(other.aba_output_val, Some(7));
}

#[test]
fn advance_aba_round_resets_the_round() {
    let mut core = core_of(0);
    core.val_value_broadcasted = true;
    core.bin_values.push(1);
    core.aba_val_phase_cache1.insert((0, 1), aba_proof(0, 1, 1, VAL_PHASE));
    core.aba_val_phase_cache1.insert((0, 2), aba_proof(0, 2, 1, VAL_PHASE));
    core.advance_aba_round(6);
    assert_eq!(core.aba_round, 2);
    assert_eq!(core.phase, VAL_PHASE);
    assert!(!core.val_value_broadcasted);
    assert_eq!(core.bin_values.len(), 0);
    assert_eq!(core.aba_input_val.get(&2), Some(&6));
    assert!(!core.aba_val_phase_cache1.contains_key(&(0, 1)));
    assert!(core.aba_val_phase_cache1.contains_key(&(0, 2)));
}

#[test]
fn start_aba_takes_the_highest_reported_qc() {
    let mut core = core_of(0);
    let votes = keys().into_iter().take(3).zip([3u64, 7, 5]).map(|((k, _), h)| (k, Signature::default(), h)).collect();
    let tc = TC { epoch: 0, votes };
    assert_eq!(core.start_aba(&tc), 7);
    assert_eq!(core.aba_input_val.get(&1), Some(&7));
}

#[test]
fn echo_and_auxiliary_values_once_per_round() {
    let mut core = core_of(0);
    core.aba_input_val.insert(1, 3);
    assert!(!core.process_val_phase_1(&aba_proof(0, 1, 3, VAL_PHASE)));
    assert!(core.process_val_phase_1(&aba_proof(0, 1, 8, VAL_PHASE)));
    assert!(!core.process_val_phase_1(&aba_proof(0, 1, 8, VAL_PHASE)));
    assert!(!core.process_val_phase_2(&aba_proof(0, 1, 8, VAL_PHASE)));
    assert!(core.process_val_phase_2(&aba_proof(0, 1, 3, VAL_PHASE)));
    assert!(!core.process_val_phase_2(&aba_proof(0, 1, 3, VAL_PHASE)));
    assert_eq!(core.bin_values.len(), 2);
    assert!(core.process_aux_phase());
    assert!(!core.process_aux_phase());
}

#[test]
fn process_aba_proof_decides_with_the_coin() {
    let mut core = core_of(0);
    assert!(core.process_aba_proof(&aba_proof(0, 1, 3, AUX_PHASE)).is_ok());
    assert_eq!(core.aba_output_val, None);
    core.aba_coin_cache.insert((0, 1), 1);
    assert!(core.process_aba_proof(&aba_proof(0, 1, 4, AUX_PHASE)).is_ok());
    assert_eq!(core.aba_output_val, None);
    assert!(core.process_aba_proof(&aba_proof(0, 1, 3, AUX_PHASE)).is_ok());
    assert_eq!(core.aba_output_val, Some(3));
}

#[test]
fn update_aba_phase_asks_for_the_decided_block() {
    let mut core = core_of(0);
    let mut chain = Chain::new(keys()[1].0, committee());
    assert!(matches!(core.update_aba_phase(&chain), PhaseStep::Idle));
    core.is_view_change = true;
    assert!(matches!(core.update_aba_phase(&chain), PhaseStep::Continue));
    core.aba_output_val = Some(4);
    assert!(matches!(core.update_aba_phase(&chain), PhaseStep::Wait));
    chain.height_to_digest.insert(4, Digest([4; 32]));
    match core.update_aba_phase(&chain) {
        PhaseStep::Commit(h, d) => {
            assert_eq!(h, 4);
            assert!(d == Digest([4; 32]));
        },
        _ => assert!(false),
    }
}

#[test]
fn enter_next_epoch_starts_afresh() {
    let mut core = core_of(0);
    let mut chain = Chain::new(keys()[1].0, committee());
    chain.height_to_digest.insert(3, Digest([3; 32]));
    chain.height_to_digest.insert(5, Digest([5; 32]));
    chain.high_qc = qc_at(Digest([5; 32]), 5);
    core.is_view_change = true;
    core.aba_round = 3;
    core.phase = COIN_PHASE;
    core.aba_output_val = Some(4);
    core.tc_cache.insert(0, TC { epoch: 0, votes: Vec::new() });
    core.tc_cache.insert(1, TC { epoch: 1, votes: Vec::new() });
    core.enter_next_epoch(&mut chain, 4);
    assert_eq!(core.epoch, 1);
    assert_eq!(core.aba_round, 1);
    assert_eq!(core.phase, INIT_PHASE);
    assert_eq!(core.aba_output_val, None);
    assert!(!core.is_view_change);
    assert!(!core.tc_cache.contains_key(&0));
    assert!(core.tc_cache.contains_key(&1));
    assert!(!chain.height_to_digest.contains_key(&3));
    assert!(chain.height_to_digest.contains_key(&5));
    assert!(chain.high_qc == QC::genesis());
}

#[test]
fn pending_aba_work_follows_the_phase() {
    let mut core = core_of(0);
    assert!(core.pending_aba_work(AbaStage::Tc).is_none());
    core.tc_cache.insert(0, TC { epoch: 0, votes: Vec::new() });
    assert!(matches!(core.pending_aba_work(AbaStage::Tc), Some(AbaWork::Tc(_))));
    core.finish_tc();
    assert!(core.tc_processed);
    assert!(core.pending_aba_work(AbaStage::Tc).is_none());
    core.aba_val_phase_cache1.insert((0, 1), aba_proof(0, 1, 2, VAL_PHASE));
    assert!(core.pending_aba_work(AbaStage::ValEcho).is_none());
    core.phase = VAL_PHASE;
    assert!(matches!(core.pending_aba_work(AbaStage::ValEcho), Some(AbaWork::ValEcho(p)) if p.val == 2));
    core.aba_coin_cache.insert((0, 1), 1);
    assert!(core.pending_aba_work(AbaStage::Coin).is_none());
    core.phase = COIN_PHASE;
    assert!(matches!(core.pending_aba_work(AbaStage::Coin), Some(AbaWork::Coin(1))));
    core.aba_proof_cache.insert((0, 1), aba_proof(0, 1, 2, AUX_PHASE));
    assert!(core.pending_aba_work(AbaStage::Help).is_none());
    core.is_view_change = true;
    assert!(matches!(core.pending_aba_work(AbaStage::Help), Some(AbaWork::Help(_))));
}

#[test]
fn our_chain_skips_ahead_in_a_new_epoch() {
    let mut chain = Chain::new(keys()[0].0, committee());
    chain.skip_heights();
    assert_eq!(chain.height, 1 + NEXT_EPOCH_HEIGHT);
}

#[test]
fn a_new_node_knows_every_chain() {
    let core = core_of(2);
    assert_eq!(core.pubkey_to_chain.len(), 4);
    for (name, _) in keys() {
        let chain = core.pubkey_to_chain.get(&name).unwrap();
        assert_eq!(chain.height, 1);
        assert!(chain.high_qc == QC::genesis());
        assert_eq!(chain.name, name);
        assert_eq!(chain.last_voted_height, 0);
        assert_eq!(chain.last_committed_height, 0);
        assert_eq!(chain.height_to_digest.len(), 0);
    }
    assert_eq!(core.aba_round, 1);
    assert_eq!(core.epoch, 0);
}

// Runs a commit walk against blocks kept by digest.
fn run_walk(walk: &mut CommitWalk, chains: &mut VecMap<PublicKey, Chain>, store: &HashMap<[u8; 32], Block>) -> bool {
    let mut fetched: Option<Block> = None;
    for _ in 0..100 {
        match walk.step(chains, fetched.take()) {
            CommitAction::Fetch(d) => fetched = store.get(&d.0).cloned(),
            CommitAction::Continue => {},
            CommitAction::Done(done) => return done,
        }
    }
    panic!("The walk does not end");
}

fn digest_of(b: &Block) -> Digest {
    consensus::crypto::Hash::digest(b)
}

#[test]
fn a_commit_walk_commits_references_first() {
    let leader = keys()[1].0;
    let other = keys()[2].0;
    let x1 = block_of(2, QC::genesis(), 1, 0);
    let l1 = block_of(1, QC::genesis(), 1, 0);
    let (name, secret) = keys()[1].clone();
    let l2 = Block::new(qc_at(digest_of(&l1), 1), name, 2, 0, Vec::new(), vec![(other, digest_of(&x1))], &signer(&secret));
    let mut store = HashMap::new();
    for b in [&x1, &l1, &l2] {
        store.insert(digest_of(b).0, b.clone());
    }
    let mut chains: VecMap<PublicKey, Chain> = VecMap::new();
    let mut lc = Chain::new(leader, committee());
    lc.height_to_digest.insert(1, digest_of(&l1));
    lc.height_to_digest.insert(2, digest_of(&l2));
    chains.insert(leader, lc);
    let mut xc = Chain::new(other, committee());
    xc.height_to_digest.insert(1, digest_of(&x1));
    chains.insert(other, xc);

    let mut walk = CommitWalk::new(leader, leader, 2);
    assert!(run_walk(&mut walk, &mut chains, &store));
    let order: Vec<(PublicKey, u64)> = walk.committed.iter().map(|b| (b.author, b.height)).collect();
    assert!(order == vec![(leader, 1), (other, 1), (leader, 2)]);
    assert_eq!(chains.get(&leader).unwrap().last_committed_height, 2);
    assert_eq!(chains.get(&other).unwrap().last_committed_height, 1);
    // The leader block goes out as it was fetched.
    assert!(digest_of(&walk.committed[2]) == digest_of(&l2));
    assert!(walk.committed[2].signature.flatten() == l2.signature.flatten());

    // Committing again has nothing left to do.
    let mut again = CommitWalk::new(leader, leader, 2);
    assert!(run_walk(&mut again, &mut chains, &store));
    assert_eq!(again.committed.len(), 0);
}

#[test]
fn a_failed_reference_takes_its_chain_back() {
    let leader = keys()[1].0;
    let other = keys()[2].0;
    let x1 = block_of(2, QC::genesis(), 1, 0);
    let x2 = block_of(2, qc_at(digest_of(&x1), 1), 2, 0);
    let (name, secret) = keys()[1].clone();
    let l1 = Block::new(QC::genesis(), name, 1, 0, Vec::new(), vec![(other, digest_of(&x2))], &signer(&secret));
    let mut store = HashMap::new();
    for b in [&x1, &x2, &l1] {
        store.insert(digest_of(b).0, b.clone());
    }
    let mut chains: VecMap<PublicKey, Chain> = VecMap::new();
    let mut lc = Chain::new(leader, committee());
    lc.height_to_digest.insert(1, digest_of(&l1));
    chains.insert(leader, lc);
    // The other chain knows the digest of its height 1 only.
    let mut xc = Chain::new(other, committee());
    xc.height_to_digest.insert(1, digest_of(&x1));
    chains.insert(other, xc);
    let mut walk = CommitWalk::new(leader, leader, 1);
    assert!(!run_walk(&mut walk, &mut chains, &store));
    assert_eq!(walk.committed.len(), 1);
    assert_eq!(walk.committed[0].author, other);
    assert_eq!(chains.get(&other).unwrap().last_committed_height, 0);
    assert_eq!(chains.get(&leader).unwrap().last_committed_height, 0);
}

#[test]
fn a_commit_walk_stops_at_a_missing_block() {
    let leader = keys()[1].0;
    let l1 = block_of(1, QC::genesis(), 1, 0);
    let mut chains: VecMap<PublicKey, Chain> = VecMap::new();
    let mut lc = Chain::new(leader, committee());
    lc.height_to_digest.insert(1, digest_of(&l1));
    chains.insert(leader, lc);
    // The digest of height 1 is known but the block is not.
    let mut walk = CommitWalk::new(leader, leader, 2);
    assert!(!run_walk(&mut walk, &mut chains, &HashMap::new()));
    // With the block, height 1 is committed, and height 2 is unknown.
    let mut store = HashMap::new();
    store.insert(digest_of(&l1).0, l1.clone());
    let mut walk = CommitWalk::new(leader, leader, 2);
    assert!(!run_walk(&mut walk, &mut chains, &store));
    assert_eq!(walk.committed.len(), 1);
    assert_eq!(chains.get(&leader).unwrap().last_committed_height, 1);
}

#[test]
fn chain_votes_below_its_height_are_ignored() {
    let committee = committee();
    let mut chain = Chain::new(keys()[1].0, committee.clone());
    chain.height = 3;
    let b = block_of(1, QC::genesis(), 2, 0);
    let (name, secret) = keys()[2].clone();
    let v = Vote::new(&b, name, &signer(&secret));
    assert!(matches!(chain.handle_vote(&v, &committee), Ok(None)));
    assert_eq!(chain.aggregator.votes_aggregators.len(), 0);
    // A vote at the chain's height is counted; three make a QC.
    let b = block_of(1, QC::genesis(), 3, 0);
    for i in 0..3 {
        let (name, secret) = keys()[i].clone();
        let v = Vote::new(&b, name, &signer(&secret));
        let r = chain.handle_vote(&v, &committee);
        if i < 2 {
            assert!(matches!(r, Ok(None)));
        } else {
            match r {
                Ok(Some(qc)) => {
                    assert_eq!(qc.height, 3);
                    assert!(qc.hash == consensus::crypto::Hash::digest(&b));
                    assert!(qc.verify(&committee).is_ok());
                },
                _ => assert!(false),
            }
        }
    }
}

#[test]
fn chain_refuses_votes_of_strangers() {
    let committee = committee();
    let mut chain = Chain::new(keys()[1].0, committee.clone());
    let b = block_of(1, QC::genesis(), 1, 0);
    let mut rng = StdRng::from_seed([9; 32]);
    let (stranger, secret) = generate_keypair(&mut rng);
    let v = Vote::new(&b, stranger, &signer(&secret));
    assert!(matches!(chain.handle_vote(&v, &committee), Err(ConsensusError::UnknownAuthority(k)) if k == stranger));
}

#[test]
fn timeouts_gather_into_a_tc() {
    let mut core = core_of(0);
    let mut chain = Chain::new(keys()[1].0, committee());
    for i in 0..3 {
        let (name, secret) = keys()[i].clone();
        let t = Timeout::new(QC::genesis(), 0, name, &signer(&secret));
        assert!(core.handle_timeout(&t, &mut chain).is_ok());
    }
    assert!(core.tc_cache.contains_key(&0));
    assert_eq!(core.tc_cache.get(&0).unwrap().votes.len(), 3);
    // A timeout of an epoch that is over changes nothing.
    core.epoch = 1;
    let (name, secret) = keys()[3].clone();
    let t = Timeout::new(QC::genesis(), 0, name, &signer(&secret));
    assert!(core.handle_timeout(&t, &mut chain).is_ok());
    assert_eq!(core.tc_cache.get(&0).unwrap().votes.len(), 3);
}

#[test]
fn handle_tc_keeps_verified_tcs_of_current_epochs() {
    let mut core = core_of(0);
    let votes: Vec<_> = (0..3)
        .map(|i| {
            let t = Timeout::new(QC::genesis(), 0, keys()[i].0, &signer(&keys()[i].1));
            (t.author, t.signature, 0u64)
        })
        .collect();
    assert!(core.handle_tc(TC { epoch: 0, votes: votes[..2].to_vec() }).is_err());
    assert!(!core.tc_cache.contains_key(&0));
    assert!(core.handle_tc(TC { epoch: 0, votes }).is_ok());
    assert!(core.tc_cache.contains_key(&0));
    core.epoch = 2;
    assert!(core.handle_tc(TC { epoch: 1, votes: Vec::new() }).is_ok());
    assert!(!core.tc_cache.contains_key(&1));
}

#[test]
fn proofs_and_values_of_past_rounds_are_dropped() {
    let mut core = core_of(0);
    core.aba_round = 2;
    let (name, secret) = keys()[1].clone();
    let v = ABAVal::new(name, 0, 1, 0, VAL_PHASE, &signer(&secret));
    assert!(core.handle_aba_val(v).is_ok());
    assert_eq!(core.aggregator.aba_vals_aggregators.len(), 0);
    assert!(core.handle_aba_proof(aba_proof(0, 1, 0, AUX_PHASE)).is_ok());
    assert!(!core.aba_proof_cache.contains_key(&(0, 1)));
    // A proof of the current round is checked first.
    assert!(matches!(core.handle_aba_proof(aba_proof(0, 2, 0, AUX_PHASE)), Err(ConsensusError::QCRequiresQuorum)));
}
