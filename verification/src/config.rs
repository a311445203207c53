use vstd::prelude::*;
use crate::crypto::PublicKey;

verus! {

/// Voting power of an authority.
pub type Stake = u32;

/// Heights, epochs and ABA rounds.
pub type SeqNumber = u64;

/// One member of the committee.
#[derive(Clone, Copy, Debug)]
pub struct Authority {
    pub name: PublicKey,
    pub id: usize,
    pub stake: Stake,
}

/// The stake that `name` holds among `auths`: that of the last entry with
/// this name, or 0 if there is none.
pub open spec fn seq_stake_of(auths: Seq<Authority>, name: PublicKey) -> nat
    decreases auths.len(),
{
    if auths.len() == 0 {
        0
    } else if auths.last().name == name {
        auths.last().stake as nat
    } else {
        seq_stake_of(auths.drop_last(), name)
    }
}

/// The sum of all stakes in `auths`.
pub open spec fn seq_total(auths: Seq<Authority>) -> nat
    decreases auths.len(),
{
    if auths.len() == 0 {
        0
    } else {
        seq_total(auths.drop_last()) + auths.last().stake as nat
    }
}

/// The total stake of the members of `auths` that do not occur in `used`.
pub open spec fn seq_remaining(auths: Seq<Authority>, used: Seq<PublicKey>) -> nat
    decreases auths.len(),
{
    if auths.len() == 0 {
        0
    } else {
        seq_remaining(auths.drop_last(), used) + if used.contains(auths.last().name) {
            0
        } else {
            auths.last().stake as nat
        }
    }
}

/// The ids of the members other than `from`, in order.
pub open spec fn others(auths: Seq<Authority>, from: PublicKey) -> Seq<usize>
    decreases auths.len(),
{
    if auths.len() == 0 {
        Seq::empty()
    } else {
        let prev = others(auths.drop_last(), from);
        if auths.last().name != from {
            prev.push(auths.last().id)
        } else {
            prev
        }
    }
}

/// No name occurs twice.
pub open spec fn distinct_names(auths: Seq<Authority>) -> bool {
    forall|i: int, j: int| 0 <= i < j < auths.len() ==> auths[i].name != auths[j].name
}

/// The set of authorities and their voting power.
pub struct Committee {
    authorities: Vec<Authority>,
    total: Stake,
    epoch: SeqNumber,
}

impl Clone for Committee {
    fn clone(&self) -> (c: Self)
        ensures
            c.members() == self.members(),
            c.spec_epoch() == self.spec_epoch(),
            self.wf() ==> c.wf(),
    {
        Committee { authorities: crate::util::copy_vec(&self.authorities), total: self.total, epoch: self.epoch }
    }
}

impl Committee {
    /// The members, in the order in which they were given.
    pub closed spec fn members(self) -> Seq<Authority> {
        self.authorities@
    }

    /// The epoch the committee was built for.
    pub closed spec fn spec_epoch(self) -> SeqNumber {
        self.epoch
    }

    /// Names are distinct and twice the total stake fits in a `Stake`.
    pub closed spec fn wf(self) -> bool {
        &&& distinct_names(self.authorities@)
        &&& self.total as nat == seq_total(self.authorities@)
        &&& 2 * seq_total(self.authorities@) <= Stake::MAX
    }

    /// The ids of the members other than `from`, in order: whom a broadcast
    /// from `from` goes to.
    pub fn broadcast_ids(&self, from: &PublicKey) -> (ids: Vec<usize>)
        ensures
            ids@ == others(self.members(), *from),
    {
        let mut ids: Vec<usize> = Vec::new();
        let mut i: usize = 0;
        assert(self.authorities@.subrange(0, 0) =~= Seq::<Authority>::empty());
        while i < self.authorities.len()
            invariant
                i <= self.authorities@.len(),
                ids@ == others(self.authorities@.subrange(0, i as int), *from),
            decreases self.authorities@.len() - i,
        {
            proof {
                assert(self.authorities@.subrange(0, i + 1).drop_last() =~= self.authorities@.subrange(0, i as int));
            }
            if self.authorities[i].name != *from {
                ids.push(self.authorities[i].id);
            }
            i = i + 1;
        }
        assert(self.authorities@.subrange(0, self.authorities@.len() as int) =~= self.authorities@);
        ids
    }

    /// The stake of `name`, 0 for a stranger.
    pub open spec fn stake_of(self, name: PublicKey) -> nat {
        seq_stake_of(self.members(), name)
    }

    /// The sum of all stakes.
    pub open spec fn total_stake(self) -> nat {
        seq_total(self.members())
    }

    /// Stake needed for a quorum: more than two thirds of the total.
    pub open spec fn quorum(self) -> nat {
        2 * self.total_stake() / 3 + 1
    }

    /// Stake that holds at least one honest authority: more than a third.
    pub open spec fn coin_threshold(self) -> nat {
        self.total_stake() / 3 + 1
    }

    /// The stake of the members not in `used`.
    pub open spec fn remaining(self, used: Seq<PublicKey>) -> nat {
        seq_remaining(self.members(), used)
    }

    /// Whether `name` is a member.
    pub open spec fn has_member(self, name: PublicKey) -> bool {
        exists|i: int| 0 <= i < self.members().len() && self.members()[i].name == name
    }

    /// The id of the member `name`.
    pub open spec fn id_of(self, name: PublicKey) -> usize {
        let i = choose|i: int| 0 <= i < self.members().len() && self.members()[i].name == name;
        self.members()[i].id
    }

    /// Builds the committee from (name, id, stake) triples and an epoch.
    pub fn new(info: Vec<(PublicKey, usize, Stake)>, epoch: SeqNumber) -> (c: Self)
        requires
            forall|i: int, j: int| 0 <= i < j < info@.len() ==> info@[i].0 != info@[j].0,
            2 * seq_total(info@.map_values(|t: (PublicKey, usize, Stake)| Authority { name: t.0, id: t.1, stake: t.2 })) <= Stake::MAX,
        ensures
            c.wf(),
            c.members() == info@.map_values(|t: (PublicKey, usize, Stake)| Authority { name: t.0, id: t.1, stake: t.2 }),
            c.spec_epoch() == epoch,
    {
        let ghost all = info@.map_values(|t: (PublicKey, usize, Stake)| Authority { name: t.0, id: t.1, stake: t.2 });
        let mut authorities: Vec<Authority> = Vec::new();
        let mut total: Stake = 0;
        let mut i: usize = 0;
        while i < info.len()
            invariant
                i <= info@.len(),
                all == info@.map_values(|t: (PublicKey, usize, Stake)| Authority { name: t.0, id: t.1, stake: t.2 }),
                2 * seq_total(all) <= Stake::MAX,
                authorities@ == all.subrange(0, i as int),
                total as nat == seq_total(authorities@),
            decreases info@.len() - i,
        {
            let (name, id, stake) = info[i];
            proof {
                assert(all.subrange(0, i + 1).drop_last() =~= all.subrange(0, i as int));
                lemma_total_prefix(all, i + 1);
            }
            let ghost before = authorities@;
            authorities.push(Authority { name, id, stake });
            proof {
                assert(authorities@.drop_last() =~= before);
                assert(authorities@ =~= all.subrange(0, i + 1));
            }
            total = total + stake;
            i = i + 1;
        }
        assert(all.subrange(0, info@.len() as int) =~= all);
        Committee { authorities, total, epoch }
    }

    /// The epoch the committee was built for.
    pub fn epoch(&self) -> (e: SeqNumber)
        ensures
            e == self.spec_epoch(),
    {
        self.epoch
    }

    /// The number of members.
    pub fn size(&self) -> (n: usize)
        ensures
            n == self.members().len(),
    {
        self.authorities.len()
    }

    /// The members, in order.
    pub fn authorities(&self) -> (v: Vec<Authority>)
        ensures
            v@ == self.members(),
    {
        self.authorities.clone()
    }

    /// The stake of `name`, 0 for a stranger.
    pub fn stake(&self, name: &PublicKey) -> (s: Stake)
        requires
            self.wf(),
        ensures
            s as nat == self.stake_of(*name),
    {
        let mut i = self.authorities.len();
        assert(self.authorities@.subrange(0, i as int) =~= self.authorities@);
        while i > 0
            invariant
                i <= self.authorities@.len(),
                seq_stake_of(self.authorities@, *name) == seq_stake_of(self.authorities@.subrange(0, i as int), *name),
            decreases i,
        {
            proof {
                assert(self.authorities@.subrange(0, i as int).drop_last() =~= self.authorities@.subrange(0, i - 1));
            }
            if self.authorities[i - 1].name == *name {
                assert(self.authorities@.subrange(0, i as int).last() == self.authorities@[i - 1]);
                return self.authorities[i - 1].stake;
            }
            i = i - 1;
        }
        0
    }

    /// The sum of all stakes.
    pub fn total_stake_exec(&self) -> (t: Stake)
        requires
            self.wf(),
        ensures
            t as nat == self.total_stake(),
    {
        self.total
    }

    /// Stake needed for a quorum: `2 * total / 3 + 1`.
    pub fn quorum_threshold(&self) -> (q: Stake)
        requires
            self.wf(),
        ensures
            q as nat == self.quorum(),
    {
        2 * self.total / 3 + 1
    }

    /// Stake that a random coin needs: `total / 3 + 1`.
    pub fn random_coin_threshold(&self) -> (q: Stake)
        requires
            self.wf(),
        ensures
            q as nat == self.coin_threshold(),
    {
        self.total / 3 + 1
    }

    /// The id of the member `name`.
    pub fn id(&self, name: &PublicKey) -> (id: usize)
        requires
            self.wf(),
            self.has_member(*name),
        ensures
            id == self.id_of(*name),
    {
        let mut i: usize = 0;
        while i < self.authorities.len()
            invariant
                self.wf(),
                self.has_member(*name),
                i <= self.authorities@.len(),
                forall|j: int| 0 <= j < i ==> self.authorities@[j].name != *name,
            decreases self.authorities@.len() - i,
        {
            if self.authorities[i].name == *name {
                proof {
                    let k = choose|k: int| 0 <= k < self.members().len() && self.members()[k].name == *name;
                    assert(self.authorities@[i as int].name == *name);
                    assert(k == i);
                }
                return self.authorities[i].id;
            }
            i = i + 1;
        }
        proof {
            let k = choose|k: int| 0 <= k < self.members().len() && self.members()[k].name == *name;
            assert(self.authorities@[k].name == *name);
        }
        0
    }
}

/// A name with stake is borne by a member.
proof fn lemma_seq_stake_member(auths: Seq<Authority>, name: PublicKey)
    requires
        seq_stake_of(auths, name) > 0,
    ensures
        exists|i: int| 0 <= i < auths.len() && auths[i].name == name,
    decreases auths.len(),
{
    if auths.last().name != name {
        lemma_seq_stake_member(auths.drop_last(), name);
        let i = choose|i: int| 0 <= i < auths.drop_last().len() && auths.drop_last()[i].name == name;
        assert(auths[i].name == name);
    } else {
        assert(auths[auths.len() - 1].name == name);
    }
}

/// A name that no member bears has no stake.
proof fn lemma_seq_stake_absent(auths: Seq<Authority>, name: PublicKey)
    requires
        forall|i: int| 0 <= i < auths.len() ==> auths[i].name != name,
    ensures
        seq_stake_of(auths, name) == 0,
    decreases auths.len(),
{
    if auths.len() > 0 {
        lemma_seq_stake_absent(auths.drop_last(), name);
    }
}

/// Marking one more name as used removes exactly its stake from what remains.
pub proof fn lemma_seq_remaining_push(auths: Seq<Authority>, used: Seq<PublicKey>, a: PublicKey)
    requires
        distinct_names(auths),
        !used.contains(a),
    ensures
        seq_remaining(auths, used) == seq_remaining(auths, used.push(a)) + seq_stake_of(auths, a),
    decreases auths.len(),
{
    if auths.len() > 0 {
        let rest = auths.drop_last();
        let last = auths.last();
        assert(distinct_names(rest));
        lemma_seq_remaining_push(rest, used, a);
        if last.name == a {
            assert(used.push(a).contains(a)) by {
                assert(used.push(a)[used.len() as int] == a);
            }
            assert forall|i: int| 0 <= i < rest.len() implies rest[i].name != a by {
                assert(auths[i].name != auths[auths.len() - 1].name);
            }
            lemma_seq_stake_absent(rest, a);
        } else {
            assert(used.push(a).contains(last.name) == used.contains(last.name)) by {
                if used.contains(last.name) {
                    let k = choose|k: int| 0 <= k < used.len() && used[k] == last.name;
                    assert(used.push(a)[k] == last.name);
                }
                if used.push(a).contains(last.name) {
                    let k = choose|k: int| 0 <= k < used.len() + 1 && used.push(a)[k] == last.name;
                    assert(k < used.len());
                    assert(used[k] == last.name);
                }
            }
        }
    }
}

impl Committee {
    /// A name with stake is a member.
    pub proof fn lemma_stake_member(self, name: PublicKey)
        requires
            self.stake_of(name) > 0,
        ensures
            self.has_member(name),
    {
        lemma_seq_stake_member(self.members(), name);
    }

    /// Twice the total stake fits in a `Stake`.
    pub proof fn lemma_total_bound(self)
        requires
            self.wf(),
        ensures
            2 * self.total_stake() <= Stake::MAX,
    {
    }

    /// Marking `a` as used removes its stake from what remains.
    pub proof fn lemma_remaining_push(self, used: Seq<PublicKey>, a: PublicKey)
        requires
            self.wf(),
            !used.contains(a),
        ensures
            self.remaining(used) == self.remaining(used.push(a)) + self.stake_of(a),
    {
        lemma_seq_remaining_push(self.members(), used, a);
    }

    /// With nothing used, all the stake remains.
    pub proof fn lemma_remaining_empty(self)
        ensures
            self.remaining(Seq::empty()) == self.total_stake(),
    {
        lemma_seq_remaining_empty(self.members());
    }
}

proof fn lemma_seq_remaining_empty(auths: Seq<Authority>)
    ensures
        seq_remaining(auths, Seq::empty()) == seq_total(auths),
    decreases auths.len(),
{
    if auths.len() > 0 {
        lemma_seq_remaining_empty(auths.drop_last());
    }
}

/// The total of a prefix grows by the stake of its last element.
proof fn lemma_total_prefix(all: Seq<Authority>, n: int)
    requires
        0 < n <= all.len(),
    ensures
        seq_total(all.subrange(0, n)) == seq_total(all.subrange(0, n - 1)) + all[n - 1].stake,
        seq_total(all.subrange(0, n)) <= seq_total(all),
    decreases all.len() - n,
{
    assert(all.subrange(0, n).drop_last() =~= all.subrange(0, n - 1));
    if n < all.len() {
        lemma_total_prefix(all, n + 1);
    } else {
        assert(all.subrange(0, n) =~= all);
    }
}

} // verus!
