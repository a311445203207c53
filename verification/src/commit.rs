use vstd::prelude::*;
use crate::config::SeqNumber;
use crate::crypto::{Digest, PublicKey};
use crate::messages::Block;
use crate::protocol::{Chain, CommitStep, refs_sorted, sort_references};
use crate::util::VecMap;

verus! {

/// What a commit walk waits for.
pub enum Pending {
    /// Nothing: the next step decides by itself.
    Nothing,
    /// The block at the height being committed on the top chain.
    NextBlock,
    /// The block named by the next reference of the top chain's leader block.
    Reference,
}

/// A chain being committed up to `target`. `height` is the height being
/// committed, and `block`, while its references are committed first (the
/// first `next_ref` of them so far), the leader block at that height.
/// `start` is the committed height of the chain when the frame was opened,
/// to which a failed walk takes the chain back (the bottom frame's chain
/// keeps what it committed).
pub struct CommitFrame {
    pub chain: PublicKey,
    pub target: SeqNumber,
    pub height: SeqNumber,
    pub block: Option<Block>,
    pub next_ref: usize,
    pub start: SeqNumber,
}

/// What a step of a commit walk asks for.
pub enum CommitAction {
    /// The block with this digest, from the store or from other nodes.
    Fetch(Digest),
    /// Another step, with nothing fetched.
    Continue,
    /// The walk is over: whether everything it was to commit is committed.
    Done(bool),
}

/// Commits a chain up to a block, height after height; a block of the
/// leader has the blocks it refers to committed first, each on its own
/// chain, in the order of their keys. The committed blocks are collected in
/// the order they are committed.
pub struct CommitWalk {
    pub leader: PublicKey,
    pub frames: Vec<CommitFrame>,
    pub pending: Pending,
    pub committed: Vec<Block>,
}

/// `chains` with the committed height of `k` set to `h`.
pub open spec fn with_committed(chains: Map<PublicKey, Chain>, k: PublicKey, h: SeqNumber) -> Map<PublicKey, Chain> {
    chains.insert(k, Chain { last_committed_height: h, ..chains[k] })
}

/// The frame `f` with its leader block replaced by `b` and its references
/// restarted.
pub open spec fn holding(f: CommitFrame, b: Option<Block>) -> CommitFrame {
    CommitFrame { block: b, next_ref: 0, ..f }
}

/// `chains` after a failed walk with these frames: the chain of every frame
/// but the bottom one is taken back to its committed height when the frame
/// was opened, the top frame first.
pub open spec fn rolled_back(chains: Map<PublicKey, Chain>, frames: Seq<CommitFrame>) -> Map<PublicKey, Chain>
    decreases frames.len(),
{
    if frames.len() <= 1 {
        chains
    } else {
        rolled_back(with_committed(chains, frames.last().chain, frames.last().start), frames.drop_last())
    }
}

/// Sets the committed height of the chain of `k`.
fn set_committed(chains: &mut VecMap<PublicKey, Chain>, k: &PublicKey, h: SeqNumber)
    requires
        old(chains).wf(),
        old(chains)@.contains_key(*k),
    ensures
        final(chains).wf(),
        final(chains)@ == with_committed(old(chains)@, *k, h),
{
    let mut ch = chains.remove(k).unwrap();
    ch.last_committed_height = h;
    chains.insert(*k, ch);
    assert(chains@ =~= with_committed(old(chains)@, *k, h));
}

impl CommitWalk {
    /// Every frame's chain is known; a frame holds only a leader block, with
    /// its references sorted and walked at most to their end; every frame but
    /// the top one waits on the reference it walks; and what the walk waits
    /// for fits the top frame.
    pub open spec fn wf(self, chains: Map<PublicKey, Chain>) -> bool {
        &&& forall|i: int| 0 <= i < self.frames@.len() ==> chains.contains_key(#[trigger] self.frames@[i].chain)
        &&& forall|i: int| 0 <= i < self.frames@.len() ==> ((#[trigger] self.frames@[i]).block matches Some(b)
            ==> b.author == self.leader && refs_sorted(b.references@) && self.frames@[i].next_ref <= b.references@.len())
        &&& forall|i: int| 0 <= i < self.frames@.len() - 1 ==> ((#[trigger] self.frames@[i]).block matches Some(b)
            && self.frames@[i].next_ref < b.references@.len())
        &&& match self.pending {
            Pending::Nothing => true,
            Pending::NextBlock => self.frames@.len() > 0 && self.frames@.last().block is None,
            Pending::Reference => self.frames@.len() > 0 && (self.frames@.last().block matches Some(b)
                && self.frames@.last().next_ref < b.references@.len()),
        }
    }

    /// A walk that commits the chain of `chain` up to `target`, `leader`
    /// leading the epoch.
    pub fn new(leader: PublicKey, chain: PublicKey, target: SeqNumber) -> (w: CommitWalk)
        ensures
            w.leader == leader,
            w.frames@.len() == 1,
            w.frames@[0].chain == chain,
            w.frames@[0].target == target,
            w.frames@[0].block is None,
            w.frames@[0].height == 0,
            w.frames@[0].next_ref == 0,
            w.pending is Nothing,
            w.committed@.len() == 0,
    {
        let mut frames: Vec<CommitFrame> = Vec::new();
        frames.push(CommitFrame { chain, target, height: 0, block: None, next_ref: 0, start: 0 });
        CommitWalk { leader, frames, pending: Pending::Nothing, committed: Vec::new() }
    }

    /// Ends the walk as failed: the chains of the frames above the bottom one
    /// go back to their committed heights when those frames were opened, and
    /// no frame is left. What was committed stays collected.
    pub fn abandon(&mut self, chains: &mut VecMap<PublicKey, Chain>)
        requires
            old(chains).wf(),
            forall|k: PublicKey| #[trigger] old(chains)@.contains_key(k) ==> old(chains)@[k].height_to_digest.wf(),
            old(self).wf(old(chains)@),
        ensures
            final(chains).wf(),
            forall|k: PublicKey| #[trigger] final(chains)@.contains_key(k) ==> final(chains)@[k].height_to_digest.wf(),
            final(chains)@ == rolled_back(old(chains)@, old(self).frames@),
            final(chains)@.dom() == old(chains)@.dom(),
            final(self).frames@.len() == 0,
            final(self).pending is Nothing,
            final(self).committed@ == old(self).committed@,
            final(self).leader == old(self).leader,
            final(self).wf(final(chains)@),
    {
        while self.frames.len() > 1
            invariant
                chains.wf(),
                forall|k: PublicKey| #[trigger] chains@.contains_key(k) ==> chains@[k].height_to_digest.wf(),
                chains@.dom() == old(chains)@.dom(),
                forall|i: int| 0 <= i < self.frames@.len() ==> chains@.contains_key(#[trigger] self.frames@[i].chain),
                rolled_back(chains@, self.frames@) == rolled_back(old(chains)@, old(self).frames@),
                self.committed@ == old(self).committed@,
                self.leader == old(self).leader,
            decreases self.frames@.len(),
        {
            let ghost fs = self.frames@;
            let f = self.frames.pop().unwrap();
            assert(self.frames@ == fs.drop_last());
            assert(chains@.contains_key(fs[fs.len() - 1].chain));
            let ghost before = chains@;
            set_committed(chains, &f.chain, f.start);
            assert forall|k: PublicKey| #[trigger] chains@.contains_key(k) implies chains@[k].height_to_digest.wf() by {
                assert(before.contains_key(k));
            }
            assert forall|i: int| 0 <= i < self.frames@.len() implies chains@.contains_key(#[trigger] self.frames@[i].chain) by {
                assert(self.frames@[i] == fs[i]);
            }
        }
        assert(rolled_back(chains@, self.frames@) == chains@);
        self.frames = Vec::new();
        self.pending = Pending::Nothing;
    }

    /// What one step does, from walk `o` and chains `c0`, with `fetched`,
    /// to walk `w`, chains `c1` and action `a` (see `step`).
    pub open spec fn step_post(
        o: CommitWalk,
        c0: Map<PublicKey, Chain>,
        fetched: Option<Block>,
        w: CommitWalk,
        c1: Map<PublicKey, Chain>,
        a: CommitAction,
    ) -> bool {
        let n = o.frames@.len();
        let top = o.frames@.last();
        match o.pending {
            Pending::NextBlock => match fetched {
                None => a == CommitAction::Done(false) && c1 == rolled_back(c0, o.frames@) && w.committed@ == o.committed@ && w.frames@.len() == 0,
                Some(b) => a is Continue && w.pending is Nothing && if b.author == o.leader {
                    &&& c1 == c0
                    &&& w.committed@ == o.committed@
                    &&& w.frames@.len() == n
                    &&& w.frames@.drop_last() == o.frames@.drop_last()
                    &&& w.frames@.last().block matches Some(held)
                    &&& held == Block { references: held.references, ..b }
                    &&& held.references@.to_multiset() == b.references@.to_multiset()
                    &&& refs_sorted(held.references@)
                    &&& w.frames@.last().next_ref == 0
                    &&& w.frames@.last().chain == top.chain
                    &&& w.frames@.last().target == top.target
                    &&& w.frames@.last().height == top.height
                } else {
                    &&& c1 == with_committed(c0, top.chain, top.height)
                    &&& w.committed@ == o.committed@.push(b)
                    &&& w.frames@ == o.frames@
                },
            },
            Pending::Reference => match fetched {
                None => a == CommitAction::Done(false) && c1 == rolled_back(c0, o.frames@) && w.committed@ == o.committed@ && w.frames@.len() == 0,
                Some(r) => {
                    &&& a is Continue
                    &&& w.pending is Nothing
                    &&& c1 == c0
                    &&& w.committed@ == o.committed@
                    &&& w.frames@ == o.frames@.push(CommitFrame {
                        chain: r.author,
                        target: r.height,
                        height: 0,
                        block: None,
                        next_ref: 0,
                        start: c0[r.author].last_committed_height,
                    })
                },
            },
            Pending::Nothing => if n == 0 {
                a == CommitAction::Done(true) && c1 == c0 && w.committed@ == o.committed@
            } else {
                let ch = c0[top.chain];
                match top.block {
                    Some(b) => if top.next_ref < b.references@.len() {
                        &&& a == CommitAction::Fetch(b.references@[top.next_ref as int].1)
                        &&& w.pending is Reference
                        &&& c1 == c0
                        &&& w.committed@ == o.committed@
                        &&& w.frames@ == o.frames@
                    } else {
                        &&& a is Continue
                        &&& w.pending is Nothing
                        &&& c1 == with_committed(c0, top.chain, top.height)
                        &&& w.committed@ == o.committed@.push(b)
                        &&& w.frames@ == o.frames@.drop_last().push(holding(top, None))
                    },
                    None => if ch.last_committed_height >= top.target {
                        &&& c1 == c0
                        &&& w.committed@ == o.committed@
                        &&& w.pending is Nothing
                        &&& if n == 1 {
                            a == CommitAction::Done(true) && w.frames@.len() == 0
                        } else {
                            let below = o.frames@[n - 2];
                            &&& a is Continue
                            &&& w.frames@ == o.frames@.subrange(0, n - 2).push(
                                CommitFrame { next_ref: (below.next_ref + 1) as usize, ..below },
                            )
                        }
                    } else if ch.height_to_digest@.contains_key((ch.last_committed_height + 1) as SeqNumber) {
                        &&& a == CommitAction::Fetch(ch.height_to_digest@[(ch.last_committed_height + 1) as SeqNumber])
                        &&& w.pending is NextBlock
                        &&& c1 == c0
                        &&& w.committed@ == o.committed@
                        &&& w.frames@ == o.frames@.drop_last().push(
                            CommitFrame { height: (ch.last_committed_height + 1) as SeqNumber, ..top },
                        )
                    } else {
                        a == CommitAction::Done(false) && c1 == rolled_back(c0, o.frames@) && w.committed@ == o.committed@ && w.frames@.len() == 0
                    },
                }
            },
        }
    }

    /// One step of the walk; `fetched` answers the last `Fetch` (the block,
    /// or `None` when it is not to be had yet).
    ///
    /// Waiting for the block of the height being committed: without it the
    /// walk fails; a block of the leader is held while its references (now
    /// sorted) are committed; any other block is committed. Waiting for a
    /// referenced block: without it the walk fails; with it, its chain is
    /// committed up to it. Otherwise, on the top chain: a held block whose
    /// references are all committed is committed; else its next reference is
    /// fetched; with no block held, the chain is done when committed up to
    /// its target (the walk goes back to the chain below, at its next
    /// reference), fetches the block of its next height when it knows its
    /// digest, and fails when it does not.
    pub fn step(&mut self, chains: &mut VecMap<PublicKey, Chain>, fetched: Option<Block>) -> (a: CommitAction)
        requires
            old(chains).wf(),
            forall|k: PublicKey| #[trigger] old(chains)@.contains_key(k) ==> old(chains)@[k].height_to_digest.wf(),
            old(self).wf(old(chains)@),
            old(self).pending is Reference && fetched is Some ==> old(chains)@.contains_key(fetched->0.author),
        ensures
            final(chains).wf(),
            forall|k: PublicKey| #[trigger] final(chains)@.contains_key(k) ==> final(chains)@[k].height_to_digest.wf(),
            final(chains)@.dom() == old(chains)@.dom(),
            final(self).wf(final(chains)@),
            final(self).leader == old(self).leader,
            CommitWalk::step_post(*old(self), old(chains)@, fetched, *final(self), final(chains)@, a),
    {
        let ghost frames0 = self.frames@;
        match self.pending {
            Pending::NextBlock => {
                self.pending = Pending::Nothing;
                match fetched {
                    None => {
                        self.abandon(chains);
                        CommitAction::Done(false)
                    },
                    Some(b) => {
                        let mut top = self.frames.pop().unwrap();
                        assert(self.frames@ == frames0.drop_last());
                        if b.author == self.leader {
                            let mut held = b;
                            let ghost refs0 = held.references@;
                            sort_references(&mut held.references);
                            assert(held.references@.to_multiset() == refs0.to_multiset());
                            top.block = Some(held);
                            top.next_ref = 0;
                            self.frames.push(top);
                            proof {
                                assert(self.frames@.drop_last() =~= frames0.drop_last());
                                assert forall|i: int| 0 <= i < self.frames@.len() implies ((#[trigger] self.frames@[i]).block matches Some(x)
                                    ==> x.author == self.leader && refs_sorted(x.references@) && self.frames@[i].next_ref <= x.references@.len()) by {
                                    if i < self.frames@.len() - 1 {
                                        assert(self.frames@[i] == frames0[i]);
                                    }
                                }
                                assert forall|i: int| 0 <= i < self.frames@.len() implies chains@.contains_key(#[trigger] self.frames@[i].chain) by {
                                    assert(self.frames@[i].chain == frames0[i].chain);
                                }
                            }
                            CommitAction::Continue
                        } else {
                            let h = top.height;
                            assert(frames0[frames0.len() - 1].chain == top.chain);
                            set_committed(chains, &top.chain, h);
                            self.frames.push(top);
                            assert(self.frames@ =~= frames0);
                            self.committed.push(b);
                            CommitAction::Continue
                        }
                    },
                }
            },
            Pending::Reference => {
                self.pending = Pending::Nothing;
                match fetched {
                    None => {
                        self.abandon(chains);
                        CommitAction::Done(false)
                    },
                    Some(r) => {
                        let start = match chains.get(&r.author) {
                            Some(ch) => ch.last_committed_height,
                            None => 0,
                        };
                        self.frames.push(CommitFrame { chain: r.author, target: r.height, height: 0, block: None, next_ref: 0, start });
                        proof {
                            assert forall|i: int| 0 <= i < self.frames@.len() implies ((#[trigger] self.frames@[i]).block matches Some(x)
                                ==> x.author == self.leader && refs_sorted(x.references@) && self.frames@[i].next_ref <= x.references@.len()) by {
                                if i < self.frames@.len() - 1 {
                                    assert(self.frames@[i] == frames0[i]);
                                }
                            }
                            assert forall|i: int| 0 <= i < self.frames@.len() implies chains@.contains_key(#[trigger] self.frames@[i].chain) by {
                                if i < self.frames@.len() - 1 {
                                    assert(self.frames@[i] == frames0[i]);
                                }
                            }
                        }
                        CommitAction::Continue
                    },
                }
            },
            Pending::Nothing => {
                if self.frames.len() == 0 {
                    return CommitAction::Done(true);
                }
                let mut top = self.frames.pop().unwrap();
                assert(self.frames@ == frames0.drop_last());
                assert(top == frames0[frames0.len() - 1]);
                assert(chains@.contains_key(top.chain));
                match top.block {
                    Some(b) => {
                        if top.next_ref < b.references.len() {
                            let d = b.references[top.next_ref].1;
                            top.block = Some(b);
                            self.frames.push(top);
                            assert(self.frames@ =~= frames0);
                            self.pending = Pending::Reference;
                            CommitAction::Fetch(d)
                        } else {
                            let h = top.height;
                            set_committed(chains, &top.chain, h);
                            self.committed.push(b);
                            top.block = None;
                            top.next_ref = 0;
                            self.frames.push(top);
                            proof {
                                assert forall|i: int| 0 <= i < self.frames@.len() implies ((#[trigger] self.frames@[i]).block matches Some(x)
                                    ==> x.author == self.leader && refs_sorted(x.references@) && self.frames@[i].next_ref <= x.references@.len()) by {
                                    if i < self.frames@.len() - 1 {
                                        assert(self.frames@[i] == frames0[i]);
                                    }
                                }
                                assert forall|i: int| 0 <= i < self.frames@.len() implies chains@.contains_key(#[trigger] self.frames@[i].chain) by {
                                    assert(self.frames@[i].chain == frames0[i].chain);
                                }
                            }
                            CommitAction::Continue
                        }
                    },
                    None => {
                        let step = match chains.get(&top.chain) {
                            Some(ch) => ch.commit_step(top.target),
                            None => CommitStep::Missing,
                        };
                        match step {
                            CommitStep::Done => {
                                if self.frames.len() == 0 {
                                    return CommitAction::Done(true);
                                }
                                let mut below = self.frames.pop().unwrap();
                                assert(below == frames0[frames0.len() - 2]);
                                let walked = match &below.block {
                                    Some(x) => x.references.len(),
                                    None => 0,
                                };
                                assert(below.next_ref < walked);
                                below.next_ref = below.next_ref + 1;
                                self.frames.push(below);
                                assert(self.frames@ =~= frames0.subrange(0, frames0.len() - 2).push(below));
                                CommitAction::Continue
                            },
                            CommitStep::Missing => {
                                self.frames.push(top);
                                assert(self.frames@ =~= frames0);
                                self.abandon(chains);
                                CommitAction::Done(false)
                            },
                            CommitStep::Fetch(d) => {
                                let lc = match chains.get(&top.chain) {
                                    Some(ch) => ch.last_committed_height,
                                    None => 0,
                                };
                                top.height = lc + 1;
                                self.frames.push(top);
                                self.pending = Pending::NextBlock;
                                proof {
                                    assert forall|i: int| 0 <= i < self.frames@.len() implies ((#[trigger] self.frames@[i]).block matches Some(x)
                                        ==> x.author == self.leader && refs_sorted(x.references@) && self.frames@[i].next_ref <= x.references@.len()) by {
                                        if i < self.frames@.len() - 1 {
                                            assert(self.frames@[i] == frames0[i]);
                                        }
                                    }
                                    assert forall|i: int| 0 <= i < self.frames@.len() implies chains@.contains_key(#[trigger] self.frames@[i].chain) by {
                                        assert(self.frames@[i].chain == frames0[i].chain);
                                    }
                                }
                                CommitAction::Fetch(d)
                            },
                        }
                    },
                }
            },
        }
    }
}

/// A walk that started on the chain of `chain` with target `target`: while
/// it has not ended, its bottom frame is still that chain and target.
proof fn lemma_walk_bottom(
    chain: PublicKey,
    target: SeqNumber,
    walks: Seq<CommitWalk>,
    chains: Seq<Map<PublicKey, Chain>>,
    fetched: Seq<Option<Block>>,
    actions: Seq<CommitAction>,
    n: int,
)
    requires
        walks.len() == actions.len() + 1,
        chains.len() == actions.len() + 1,
        fetched.len() == actions.len(),
        walks[0].frames@.len() == 1,
        walks[0].frames@[0].chain == chain,
        walks[0].frames@[0].target == target,
        forall|i: int| 0 <= i < actions.len()
            ==> CommitWalk::step_post(walks[i], chains[i], fetched[i], walks[i + 1], chains[i + 1], #[trigger] actions[i]),
        0 <= n <= actions.len(),
        forall|i: int| 0 <= i < n ==> !(#[trigger] actions[i] is Done),
    ensures
        walks[n].frames@.len() >= 1,
        walks[n].frames@[0].chain == chain,
        walks[n].frames@[0].target == target,
    decreases n,
{
    if n > 0 {
        let p = n - 1;
        lemma_walk_bottom(chain, target, walks, chains, fetched, actions, p);
        assert(CommitWalk::step_post(walks[p], chains[p], fetched[p], walks[n], chains[n], actions[p]));
        assert(!(actions[p] is Done));
        let o = walks[p];
        let w = walks[n];
        let f = o.frames@;
        assert(f.len() >= 2 ==> f.drop_last()[0] == f[0]);
        assert(f.len() >= 3 ==> f.subrange(0, f.len() - 2)[0] == f[0]);
        assert(f.len() == 1 ==> f.drop_last().len() == 0 && f.last() == f[0]);
    }
}

/// A walk that commits the chain of `chain` up to `target` (as `new` starts
/// it) and is stepped along (each step as `step` gives it) reports success
/// the first time it ends only when that chain is committed up to the
/// target.
pub proof fn lemma_walk_succeeds_at_target(
    chain: PublicKey,
    target: SeqNumber,
    walks: Seq<CommitWalk>,
    chains: Seq<Map<PublicKey, Chain>>,
    fetched: Seq<Option<Block>>,
    actions: Seq<CommitAction>,
    k: int,
)
    requires
        walks.len() == actions.len() + 1,
        chains.len() == actions.len() + 1,
        fetched.len() == actions.len(),
        walks[0].frames@.len() == 1,
        walks[0].frames@[0].chain == chain,
        walks[0].frames@[0].target == target,
        forall|i: int| 0 <= i < actions.len()
            ==> CommitWalk::step_post(walks[i], chains[i], fetched[i], walks[i + 1], chains[i + 1], #[trigger] actions[i]),
        0 <= k < actions.len(),
        forall|i: int| 0 <= i < k ==> !(#[trigger] actions[i] is Done),
        actions[k] == CommitAction::Done(true),
    ensures
        chains[k + 1].contains_key(chain) ==> chains[k + 1][chain].last_committed_height >= target,
        chains[k + 1] == chains[k],
{
    lemma_walk_bottom(chain, target, walks, chains, fetched, actions, k);
    assert(CommitWalk::step_post(walks[k], chains[k], fetched[k], walks[k + 1], chains[k + 1], actions[k]));
}

} // verus!
