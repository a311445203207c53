use vstd::prelude::*;
use crate::config::{Authority, Committee, SeqNumber};
use crate::crypto::{
    Digest, PublicKey, bytes_lt, lemma_bytes_lt_irreflexive, lemma_bytes_lt_total, lemma_bytes_lt_transitive,
    lemma_public_key_view_eq, zero_bytes,
};
use crate::aggregator::digest_key;
use crate::messages::Block;
use crate::protocol::HOTSTUFF;
use crate::util::{VecMap, lemma_push_no_duplicates};

verus! {

// ---------------------------------------------------------------------------
// Indices of authorities
// ---------------------------------------------------------------------------

/// How many of `members` have a key that comes before `key`.
pub open spec fn rank(members: Seq<Authority>, key: PublicKey) -> nat
    decreases members.len(),
{
    if members.len() == 0 {
        0
    } else {
        rank(members.drop_last(), key) + if bytes_lt(members.last().name@, key@) { 1nat } else { 0nat }
    }
}

/// Whether `key` is the name of one of `members`.
pub open spec fn named(members: Seq<Authority>, key: PublicKey) -> bool {
    exists|i: int| 0 <= i < members.len() && members[i].name == key
}

/// A key that comes before another is counted before fewer members; before
/// the other key, one more at least when the first is a member.
proof fn lemma_rank_step(members: Seq<Authority>, a: PublicKey, b: PublicKey)
    requires
        bytes_lt(a@, b@),
    ensures
        rank(members, b) >= rank(members, a) + if named(members, a) { 1int } else { 0int },
    decreases members.len(),
{
    if members.len() > 0 {
        let prev = members.drop_last();
        lemma_rank_step(prev, a, b);
        let x = members.last().name;
        if bytes_lt(x@, a@) {
            lemma_bytes_lt_transitive(x@, a@, b@);
        }
        if x == a {
            lemma_bytes_lt_irreflexive(a@);
        }
        if named(members, a) && !named(prev, a) {
            let i = choose|i: int| 0 <= i < members.len() && members[i].name == a;
            if i < prev.len() {
                assert(prev[i].name == a);
            }
            assert(x == a);
        }
        if named(prev, a) {
            let i = choose|i: int| 0 <= i < prev.len() && prev[i].name == a;
            assert(members[i].name == a);
        }
    }
}

/// A member is not counted before itself, so its rank is below the number
/// of members.
proof fn lemma_rank_bound(members: Seq<Authority>, key: PublicKey)
    ensures
        rank(members, key) + if named(members, key) { 1int } else { 0int } <= members.len(),
    decreases members.len(),
{
    if members.len() > 0 {
        let prev = members.drop_last();
        lemma_rank_bound(prev, key);
        if members.last().name == key {
            lemma_bytes_lt_irreflexive(key@);
        }
        if named(members, key) && !named(prev, key) {
            let i = choose|i: int| 0 <= i < members.len() && members[i].name == key;
            if i < prev.len() {
                assert(prev[i].name == key);
            }
        }
        if named(prev, key) {
            let i = choose|i: int| 0 <= i < prev.len() && prev[i].name == key;
            assert(members[i].name == key);
        }
    }
}

/// Indices tell members apart: two different members of a committee get
/// different indices, and every index is below the size of the committee.
pub proof fn lemma_get_idx_distinct(committee: Committee, a: PublicKey, b: PublicKey)
    requires
        committee.has_member(a),
        committee.has_member(b),
        a != b,
    ensures
        rank(committee.members(), a) != rank(committee.members(), b),
        rank(committee.members(), a) < committee.members().len(),
{
    let m = committee.members();
    assert(named(m, a));
    assert(named(m, b));
    lemma_public_key_view_eq(a, b);
    lemma_bytes_lt_total(a@, b@);
    if bytes_lt(a@, b@) {
        lemma_rank_step(m, a, b);
    } else {
        lemma_rank_step(m, b, a);
    }
    lemma_rank_bound(m, a);
}

// ---------------------------------------------------------------------------
// Who receives a message
// ---------------------------------------------------------------------------

/// Length in seconds of the cycle of the network attack that the
/// transmission layer stages.
pub const ATTACK_CYCLE_SECS: u64 = 90;
/// Second of each cycle from which on the attack is on.
pub const ATTACK_START_SECS: u64 = 60;

/// Whether the attack is on, `elapsed` seconds after the first message.
pub open spec fn attack_active(elapsed: u64) -> bool {
    elapsed % ATTACK_CYCLE_SECS >= ATTACK_START_SECS
}

/// The ids that the attack cuts off from the sender of index `from_idx`:
/// ids 4 to 6 for senders 0 to 3, ids 0 to 3 for senders 4 to 6, none for
/// the others.
pub open spec fn cut_range(from_idx: u64) -> Option<(usize, usize)> {
    if from_idx <= 3 {
        Some((4, 6))
    } else if from_idx <= 6 {
        Some((0, 3))
    } else {
        None
    }
}

/// Whether the attack cuts the id `id` off from the sender of index `from_idx`.
pub open spec fn cut_off(from_idx: u64, id: usize) -> bool {
    match cut_range(from_idx) {
        Some((lo, hi)) => lo <= id <= hi,
        None => false,
    }
}

/// `s` without its first occurrence of `x` (`s` itself when `x` does not
/// occur).
pub open spec fn remove_first(s: Seq<usize>, x: usize) -> Seq<usize>
    decreases s.len(),
{
    if s.len() == 0 {
        s
    } else if s[0] == x {
        s.drop_first()
    } else {
        seq![s[0]] + remove_first(s.drop_first(), x)
    }
}

/// The targets once each id from `lo` on, `n` of them, has had its first
/// occurrence removed, in ascending order of id.
pub open spec fn strip(targets: Seq<usize>, lo: nat, n: nat) -> Seq<usize>
    decreases n,
{
    if n == 0 {
        targets
    } else {
        remove_first(strip(targets, lo, (n - 1) as nat), (lo + n - 1) as usize)
    }
}

/// The targets that the attack spares, in order: each id that it cuts off
/// loses its first occurrence.
pub open spec fn spared(targets: Seq<usize>, from_idx: u64) -> Seq<usize> {
    match cut_range(from_idx) {
        Some((lo, hi)) => strip(targets, lo as nat, (hi - lo + 1) as nat),
        None => targets,
    }
}

/// The ids from `lo` on, `n` of them, that occur among the targets, in
/// ascending order.
pub open spec fn ids_among(lo: nat, n: nat, targets: Seq<usize>) -> Seq<usize>
    decreases n,
{
    if n == 0 {
        Seq::empty()
    } else {
        let prev = ids_among(lo, (n - 1) as nat, targets);
        let id = (lo + n - 1) as usize;
        if targets.contains(id) {
            prev.push(id)
        } else {
            prev
        }
    }
}

/// The targets that the attack cuts off, in ascending order of id.
pub open spec fn cut(targets: Seq<usize>, from_idx: u64) -> Seq<usize> {
    match cut_range(from_idx) {
        Some((lo, hi)) => ids_among(lo as nat, (hi - lo + 1) as nat, targets),
        None => Seq::empty(),
    }
}

/// Removing the first occurrence of `x`, found at `j`, is removing index `j`.
proof fn lemma_remove_first_at(s: Seq<usize>, x: usize, j: int)
    requires
        0 <= j < s.len(),
        s[j] == x,
        forall|k: int| 0 <= k < j ==> s[k] != x,
    ensures
        remove_first(s, x) == s.remove(j),
    decreases s.len(),
{
    if j == 0 {
        assert(s.drop_first() =~= s.remove(0));
    } else {
        let t = s.drop_first();
        assert forall|k: int| 0 <= k < j - 1 implies t[k] != x by {
            assert(t[k] == s[k + 1]);
        }
        lemma_remove_first_at(t, x, j - 1);
        assert(seq![s[0]] + t.remove(j - 1) =~= s.remove(j));
    }
}

/// Without `x`, removing its first occurrence changes nothing.
proof fn lemma_remove_first_absent(s: Seq<usize>, x: usize)
    requires
        !s.contains(x),
    ensures
        remove_first(s, x) == s,
    decreases s.len(),
{
    if s.len() > 0 {
        assert(s[0] != x);
        let t = s.drop_first();
        assert(!t.contains(x)) by {
            if t.contains(x) {
                let k = choose|k: int| 0 <= k < t.len() && t[k] == x;
                assert(s[k + 1] == x);
            }
        }
        lemma_remove_first_absent(t, x);
        assert(seq![s[0]] + t =~= s);
    }
}

/// Removing the first occurrence of `x` keeps every other value as it
/// occurs, keeps `x` only if it occurred twice, and keeps distinct values
/// distinct.
proof fn lemma_remove_first_contains(s: Seq<usize>, x: usize, t: usize)
    ensures
        t != x ==> (remove_first(s, x).contains(t) <==> s.contains(t)),
        remove_first(s, x).contains(t) ==> s.contains(t),
        s.no_duplicates() ==> remove_first(s, x).no_duplicates() && !remove_first(s, x).contains(x),
    decreases s.len(),
{
    if s.len() > 0 {
        let t0 = s.drop_first();
        lemma_remove_first_contains(t0, x, t);
        if s.no_duplicates() {
            assert(t0.no_duplicates()) by {
                assert forall|a: int, b: int| 0 <= a < t0.len() && 0 <= b < t0.len() && a != b implies t0[a] != t0[b] by {
                    assert(t0[a] == s[a + 1] && t0[b] == s[b + 1]);
                }
            }
        }
        assert forall|v: usize| t0.contains(v) <==> (exists|k: int| 1 <= k < s.len() && s[k] == v) by {
            if t0.contains(v) {
                let k = choose|k: int| 0 <= k < t0.len() && t0[k] == v;
                assert(s[k + 1] == v);
            }
            if exists|k: int| 1 <= k < s.len() && s[k] == v {
                let k = choose|k: int| 1 <= k < s.len() && s[k] == v;
                assert(t0[k - 1] == v);
            }
        }
        assert(s.contains(t) <==> (s[0] == t || t0.contains(t))) by {
            if s.contains(t) && s[0] != t {
                let k = choose|k: int| 0 <= k < s.len() && s[k] == t;
                assert(k >= 1);
            }
            if s[0] == t {
                assert(s[0] == t);
            }
        }
        if s[0] == x {
            assert(remove_first(s, x) == t0);
            if s.no_duplicates() {
                assert(!t0.contains(x)) by {
                    if t0.contains(x) {
                        let k = choose|k: int| 0 <= k < t0.len() && t0[k] == x;
                        assert(s[k + 1] == s[0]);
                    }
                }
            }
        } else {
            let r = remove_first(t0, x);
            let whole = seq![s[0]] + r;
            assert(remove_first(s, x) == whole);
            assert(whole.contains(t) <==> (s[0] == t || r.contains(t))) by {
                if whole.contains(t) && s[0] != t {
                    let k = choose|k: int| 0 <= k < whole.len() && whole[k] == t;
                    assert(r[k - 1] == t);
                }
                if r.contains(t) {
                    let k = choose|k: int| 0 <= k < r.len() && r[k] == t;
                    assert(whole[k + 1] == t);
                }
                if s[0] == t {
                    assert(whole[0] == t);
                }
            }
            if s.no_duplicates() {
                assert(!r.contains(s[0])) by {
                    lemma_remove_first_contains(t0, x, s[0]);
                    if t0.contains(s[0]) {
                        let k = choose|k: int| 0 <= k < t0.len() && t0[k] == s[0];
                        assert(s[k + 1] == s[0]);
                    }
                }
                assert(whole.no_duplicates()) by {
                    assert forall|a: int, b: int| 0 <= a < whole.len() && 0 <= b < whole.len() && a != b implies whole[a] != whole[b] by {
                        if a == 0 && b > 0 {
                            assert(whole[b] == r[b - 1]);
                        } else if b == 0 && a > 0 {
                            assert(whole[a] == r[a - 1]);
                        } else if a > 0 && b > 0 {
                            assert(whole[a] == r[a - 1] && whole[b] == r[b - 1]);
                        }
                    }
                }
                assert(!whole.contains(x)) by {
                    lemma_remove_first_contains(t0, x, x);
                    if whole.contains(x) {
                        let k = choose|k: int| 0 <= k < whole.len() && whole[k] == x;
                        assert(k > 0);
                        assert(r[k - 1] == x);
                    }
                }
            }
        }
    }
}

/// Stripping a range of ids keeps the values outside it as they occur, keeps
/// only values that occurred, and, for distinct targets, drops the range and
/// keeps the rest distinct.
proof fn lemma_strip_contains(targets: Seq<usize>, lo: nat, n: nat, t: usize)
    requires
        lo + n <= usize::MAX,
    ensures
        !(lo <= t < lo + n) ==> (strip(targets, lo, n).contains(t) <==> targets.contains(t)),
        strip(targets, lo, n).contains(t) ==> targets.contains(t),
        targets.no_duplicates() ==> strip(targets, lo, n).no_duplicates()
            && (strip(targets, lo, n).contains(t) <==> targets.contains(t) && !(lo <= t < lo + n)),
    decreases n,
{
    if n > 0 {
        let prev = strip(targets, lo, (n - 1) as nat);
        let x = (lo + n - 1) as usize;
        lemma_strip_contains(targets, lo, (n - 1) as nat, t);
        lemma_remove_first_contains(prev, x, t);
        if targets.no_duplicates() {
            lemma_remove_first_contains(prev, x, x);
        }
    }
}

/// A target is spared only if it is a target; for distinct targets, exactly
/// when the attack does not cut it off, and the spared stay distinct.
proof fn lemma_spared_contains(targets: Seq<usize>, from_idx: u64, t: usize)
    ensures
        spared(targets, from_idx).contains(t) ==> targets.contains(t),
        !cut_off(from_idx, t) ==> (spared(targets, from_idx).contains(t) <==> targets.contains(t)),
        targets.no_duplicates() ==> spared(targets, from_idx).no_duplicates()
            && (spared(targets, from_idx).contains(t) <==> (targets.contains(t) && !cut_off(from_idx, t))),
{
    match cut_range(from_idx) {
        Some((lo, hi)) => lemma_strip_contains(targets, lo as nat, (hi - lo + 1) as nat, t),
        None => {},
    }
}

/// The ids among the targets from `lo` on, `n` of them, are those targets in
/// that range.
proof fn lemma_ids_among_contains(lo: nat, n: nat, targets: Seq<usize>, t: usize)
    requires
        lo + n <= usize::MAX,
    ensures
        ids_among(lo, n, targets).contains(t) <==> (lo <= t < lo + n && targets.contains(t)),
    decreases n,
{
    if n > 0 {
        lemma_ids_among_contains(lo, (n - 1) as nat, targets, t);
        let prev = ids_among(lo, (n - 1) as nat, targets);
        let id = (lo + n - 1) as usize;
        if targets.contains(id) {
            if t == id {
                assert(prev.push(id)[prev.len() as int] == t);
            }
            if prev.contains(t) {
                let j = choose|j: int| 0 <= j < prev.len() && prev[j] == t;
                assert(prev.push(id)[j] == t);
            }
            if prev.push(id).contains(t) && t != id {
                let j = choose|j: int| 0 <= j < prev.len() + 1 && prev.push(id)[j] == t;
                assert(j < prev.len());
                assert(prev[j] == t);
            }
        }
    }
}

/// Nothing is lost to the attack: of the authorities a message goes to,
/// only targets get it and only targets are cut off, and with distinct
/// targets every one either gets it or is cut off, never both.
pub proof fn lemma_transmit_partition(targets: Seq<usize>, from_idx: u64, t: usize)
    ensures
        spared(targets, from_idx).contains(t) ==> targets.contains(t),
        cut(targets, from_idx).contains(t) ==> targets.contains(t),
        targets.no_duplicates() && targets.contains(t)
            ==> (spared(targets, from_idx).contains(t) <==> !cut(targets, from_idx).contains(t)),
{
    lemma_spared_contains(targets, from_idx, t);
    match cut_range(from_idx) {
        Some((lo, hi)) => {
            lemma_ids_among_contains(lo as nat, (hi - lo + 1) as nat, targets, t);
        },
        None => {},
    }
}

/// Distinct targets stay distinct among those spared.
proof fn lemma_spared_no_duplicates(targets: Seq<usize>, from_idx: u64)
    requires
        targets.no_duplicates(),
    ensures
        spared(targets, from_idx).no_duplicates(),
{
    lemma_spared_contains(targets, from_idx, 0);
}

/// The ids found among the targets in a range are distinct.
proof fn lemma_ids_among_no_duplicates(lo: nat, n: nat, targets: Seq<usize>)
    requires
        lo + n <= usize::MAX,
    ensures
        ids_among(lo, n, targets).no_duplicates(),
    decreases n,
{
    if n > 0 {
        lemma_ids_among_no_duplicates(lo, (n - 1) as nat, targets);
        let id = (lo + n - 1) as usize;
        lemma_ids_among_contains(lo, (n - 1) as nat, targets, id);
        if targets.contains(id) {
            crate::util::lemma_push_no_duplicates(ids_among(lo, (n - 1) as nat, targets), id);
        }
    }
}

/// With distinct targets, those spared followed by those cut off are the
/// targets rearranged: each target exactly once, and nothing else.
pub proof fn lemma_transmit_rearranges(targets: Seq<usize>, from_idx: u64)
    requires
        targets.no_duplicates(),
    ensures
        (spared(targets, from_idx) + cut(targets, from_idx)).no_duplicates(),
        forall|t: usize| #![trigger targets.contains(t)]
            (spared(targets, from_idx) + cut(targets, from_idx)).contains(t) <==> targets.contains(t),
{
    let sp = spared(targets, from_idx);
    let ct = cut(targets, from_idx);
    let all = sp + ct;
    lemma_spared_no_duplicates(targets, from_idx);
    match cut_range(from_idx) {
        Some((lo, hi)) => lemma_ids_among_no_duplicates(lo as nat, (hi - lo + 1) as nat, targets),
        None => {},
    }
    assert forall|a: int, b: int| 0 <= a < all.len() && 0 <= b < all.len() && a != b implies all[a] != all[b] by {
        if a < sp.len() && b >= sp.len() {
            assert(sp.contains(all[a]) && ct.contains(all[b]));
            lemma_transmit_partition(targets, from_idx, all[a]);
        } else if b < sp.len() && a >= sp.len() {
            assert(sp.contains(all[b]) && ct.contains(all[a]));
            lemma_transmit_partition(targets, from_idx, all[b]);
        } else if a < sp.len() {
            assert(all[a] == sp[a] && all[b] == sp[b]);
        } else {
            assert(all[a] == ct[a - sp.len()] && all[b] == ct[b - sp.len()]);
        }
    }
    assert forall|t: usize| #![trigger targets.contains(t)] all.contains(t) <==> targets.contains(t) by {
        lemma_transmit_partition(targets, from_idx, t);
        if all.contains(t) {
            let j = choose|j: int| 0 <= j < all.len() && all[j] == t;
            if j < sp.len() {
                assert(sp[j] == t);
            } else {
                assert(ct[j - sp.len()] == t);
            }
        }
        if sp.contains(t) {
            let j = choose|j: int| 0 <= j < sp.len() && sp[j] == t;
            assert(all[j] == t);
        }
        if ct.contains(t) {
            let j = choose|j: int| 0 <= j < ct.len() && ct[j] == t;
            assert(all[sp.len() + j] == t);
        }
    }
}

// ---------------------------------------------------------------------------
// Blocks asked from other nodes
// ---------------------------------------------------------------------------

/// What the synchronizer keeps track of: the blocks asked from other nodes,
/// each with the time of the request (in milliseconds) and the block that
/// waits for it, if any; and, for each waiting block (by its digest), the
/// asked blocks it still waits for.
pub struct Synchronizer {
    pub pending: VecMap<Digest, (u64, Option<Block>)>,
    pub demands: VecMap<Digest, Vec<Digest>>,
}

/// The digest of a block, as a key.
pub open spec fn block_key(b: Block) -> Digest {
    digest_key(crate::crypto::Hash::spec_digest(&b))
}

/// Whether a waiting block still waits for something besides `d`.
pub open spec fn still_waits(asked: Seq<Digest>, d: Digest) -> bool {
    exists|x: Digest| asked.contains(x) && x != d
}

/// The key of a block is its digest.
proof fn lemma_block_key(b: Block, d: Digest)
    requires
        d@ == crate::crypto::Hash::spec_digest(&b),
    ensures
        block_key(b) == d,
{
    let k = block_key(b);
    assert(k@ == d@);
    crate::crypto::lemma_digest_view_eq(k, d);
}

/// Whether `d` occurs in `v`.
fn contains_digest(v: &Vec<Digest>, d: &Digest) -> (b: bool)
    ensures
        b == v@.contains(*d),
{
    let mut i: usize = 0;
    while i < v.len()
        invariant
            i <= v@.len(),
            forall|j: int| 0 <= j < i ==> v@[j] != *d,
        decreases v@.len() - i,
    {
        proof {
            crate::crypto::lemma_digest_view_eq(v@[i as int], *d);
        }
        if crate::util::MapKey::key_eq(&v[i], d) {
            assert(v@[i as int] == *d);
            return true;
        }
        i = i + 1;
    }
    false
}

/// `v` without `d`.
fn without_digest(v: &Vec<Digest>, d: &Digest) -> (r: Vec<Digest>)
    requires
        v@.no_duplicates(),
    ensures
        r@.no_duplicates(),
        forall|x: Digest| r@.contains(x) <==> (v@.contains(x) && x != *d),
        r@.len() == 0 <==> !still_waits(v@, *d),
{
    let mut r: Vec<Digest> = Vec::new();
    let mut i: usize = 0;
    while i < v.len()
        invariant
            i <= v@.len(),
            v@.no_duplicates(),
            r@.no_duplicates(),
            forall|x: Digest| r@.contains(x) <==> (exists|j: int| 0 <= j < i && v@[j] == x && x != *d),
        decreases v@.len() - i,
    {
        let x = v[i];
        if !crate::util::MapKey::key_eq(&x, d) {
            let ghost before = r@;
            proof {
                assert(!before.contains(x)) by {
                    if before.contains(x) {
                        let j = choose|j: int| 0 <= j < i && v@[j] == x && x != *d;
                        assert(v@[j] == v@[i as int]);
                    }
                }
            }
            r.push(x);
            proof {
                lemma_push_no_duplicates(before, x);
                assert forall|y: Digest| r@.contains(y) <==> (exists|j: int| 0 <= j < i + 1 && v@[j] == y && y != *d) by {
                    if r@.contains(y) {
                        let k = choose|k: int| 0 <= k < r@.len() && r@[k] == y;
                        if k < before.len() {
                            assert(before[k] == y);
                            assert(before.contains(y));
                        } else {
                            assert(v@[i as int] == y);
                        }
                    }
                    if exists|j: int| 0 <= j < i + 1 && v@[j] == y && y != *d {
                        let j = choose|j: int| 0 <= j < i + 1 && v@[j] == y && y != *d;
                        if j < i {
                            assert(before.contains(y));
                            let k = choose|k: int| 0 <= k < before.len() && before[k] == y;
                            assert(r@[k] == y);
                        } else {
                            assert(r@[before.len() as int] == y);
                        }
                    }
                }
            }
        } else {
            proof {
                assert forall|y: Digest| r@.contains(y) <==> (exists|j: int| 0 <= j < i + 1 && v@[j] == y && y != *d) by {
                    if exists|j: int| 0 <= j < i + 1 && v@[j] == y && y != *d {
                        let j = choose|j: int| 0 <= j < i + 1 && v@[j] == y && y != *d;
                        if j == i {
                            assert(v@[i as int] == *d);
                        }
                    }
                }
            }
        }
        i = i + 1;
    }
    proof {
        assert forall|x: Digest| r@.contains(x) <==> (v@.contains(x) && x != *d) by {
            if v@.contains(x) && x != *d {
                let j = choose|j: int| 0 <= j < v@.len() && v@[j] == x;
                assert(exists|j: int| 0 <= j < i && v@[j] == x && x != *d);
            }
        }
        if r@.len() == 0 {
            assert forall|x: Digest| !(v@.contains(x) && x != *d) by {
                if v@.contains(x) && x != *d {
                    assert(r@.contains(x));
                }
            }
        } else {
            assert(r@.contains(r@[0]));
        }
    }
    r
}

impl Synchronizer {
    /// Every waiting block of a pending request is among the demands and
    /// waits for that request; no demand lists a block twice.
    pub open spec fn wf(self) -> bool {
        &&& self.pending.wf()
        &&& self.demands.wf()
        &&& forall|k: Digest| #[trigger] self.demands@.contains_key(k) ==> self.demands@[k]@.no_duplicates()
        &&& forall|d: Digest| #[trigger] self.pending@.contains_key(d) ==> (self.pending@[d].1 matches Some(w)
            ==> self.demands@.contains_key(block_key(w)) && self.demands@[block_key(w)]@.contains(d))
    }

    /// Nothing asked yet.
    pub fn new() -> (s: Synchronizer)
        ensures
            s.wf(),
            s.pending@ == Map::<Digest, (u64, Option<Block>)>::empty(),
            s.demands@ == Map::<Digest, Vec<Digest>>::empty(),
    {
        Synchronizer { pending: VecMap::new(), demands: VecMap::new() }
    }

    /// Records that the block `digest`, which the store does not have, is
    /// asked for at time `now` on behalf of the block `waiting`; tells
    /// whether to send the request. When a request for it is pending
    /// already, nothing is recorded and nothing is sent.
    pub fn request(&mut self, digest: Digest, waiting: Option<Block>, now: u64) -> (send: bool)
        requires
            old(self).wf(),
        ensures
            final(self).wf(),
            send == !old(self).pending@.contains_key(digest),
            sync_step(*old(self), SyncEvent::Request(digest, waiting, now), *final(self), send),
            !send ==> final(self).pending@ == old(self).pending@ && final(self).demands@ == old(self).demands@,
            send ==> final(self).pending@ == old(self).pending@.insert(digest, (now, waiting)),
            send && waiting is None ==> final(self).demands@ == old(self).demands@,
            send && waiting is Some ==> ({
                let k = block_key(waiting->0);
                &&& final(self).demands@.dom() == old(self).demands@.dom().insert(k)
                &&& forall|j: Digest| j != k && #[trigger] old(self).demands@.contains_key(j) ==> final(self).demands@[j] == old(self).demands@[j]
                &&& forall|x: Digest| #[trigger] final(self).demands@[k]@.contains(x) <==> (x == digest
                    || (old(self).demands@.contains_key(k) && old(self).demands@[k]@.contains(x)))
            }),
    {
        if self.pending.contains_key(&digest) {
            return false;
        }
        match waiting {
            None => {
                self.pending.insert(digest, (now, None));
            },
            Some(w) => {
                let k = crate::crypto::Hash::digest(&w);
                proof {
                    lemma_block_key(w, k);
                }
                let ghost old_demands = self.demands@;
                let mut asked = match self.demands.remove(&k) {
                    Some(v) => v,
                    None => Vec::new(),
                };
                let ghost before = asked@;
                if !contains_digest(&asked, &digest) {
                    asked.push(digest);
                    proof {
                        lemma_push_no_duplicates(before, digest);
                    }
                }
                proof {
                    assert forall|x: Digest| asked@.contains(x) <==> (x == digest
                        || (old_demands.contains_key(k) && old_demands[k]@.contains(x))) by {
                        if asked@.contains(x) && x != digest {
                            let j = choose|j: int| 0 <= j < asked@.len() && asked@[j] == x;
                            if j < before.len() {
                                assert(before[j] == x);
                            }
                        }
                        if old_demands.contains_key(k) && old_demands[k]@.contains(x) {
                            let j = choose|j: int| 0 <= j < before.len() && before[j] == x;
                            assert(asked@[j] == x);
                        }
                        if x == digest && !before.contains(x) {
                            assert(asked@[before.len() as int] == x);
                        }
                    }
                }
                self.demands.insert(k, asked);
                self.pending.insert(digest, (now, Some(w)));
                proof {
                    assert(self.demands@.dom() =~= old_demands.dom().insert(k));
                    assert forall|d: Digest| #[trigger] self.pending@.contains_key(d) implies (self.pending@[d].1 matches Some(v)
                        ==> self.demands@.contains_key(block_key(v)) && self.demands@[block_key(v)]@.contains(d)) by {
                        if d != digest {
                            if let Some(v) = self.pending@[d].1 {
                                assert(old_demands.contains_key(block_key(v)));
                                assert(old_demands[block_key(v)]@.contains(d));
                            }
                        }
                    }
                }
            },
        }
        true
    }

    /// Takes note that the block `digest` has arrived: its request is no
    /// longer pending, and the block that waited for it stops waiting for
    /// it. That block is handed back, to be processed again, when it waits
    /// for nothing else.
    pub fn arrived(&mut self, digest: &Digest) -> (ready: Option<Block>)
        requires
            old(self).wf(),
        ensures
            final(self).wf(),
            final(self).pending@ == old(self).pending@.remove(*digest),
            sync_step(*old(self), SyncEvent::Arrived(*digest), *final(self), false),
            !old(self).pending@.contains_key(*digest) || old(self).pending@[*digest].1 is None
                ==> ready is None && final(self).demands@ == old(self).demands@,
            old(self).pending@.contains_key(*digest) && old(self).pending@[*digest].1 is Some ==> ({
                let w = old(self).pending@[*digest].1->0;
                let k = block_key(w);
                let asked = old(self).demands@[k]@;
                &&& forall|j: Digest| j != k ==> (final(self).demands@.contains_key(j) <==> old(self).demands@.contains_key(j))
                &&& forall|j: Digest| j != k && #[trigger] final(self).demands@.contains_key(j) ==> final(self).demands@[j] == old(self).demands@[j]
                &&& if still_waits(asked, *digest) {
                    &&& ready is None
                    &&& final(self).demands@.contains_key(k)
                    &&& forall|x: Digest| #[trigger] final(self).demands@[k]@.contains(x) <==> (asked.contains(x) && x != *digest)
                } else {
                    ready == Some(w) && !final(self).demands@.contains_key(k)
                }
            }),
    {
        let ghost old_pending = self.pending@;
        let ghost old_demands = self.demands@;
        match self.pending.remove(digest) {
            None => None,
            Some(entry) => {
                let (_, waiting) = entry;
                match waiting {
                    None => {
                        proof {
                            assert forall|d: Digest| #[trigger] self.pending@.contains_key(d) implies (self.pending@[d].1 matches Some(v)
                                ==> self.demands@.contains_key(block_key(v)) && self.demands@[block_key(v)]@.contains(d)) by {
                                assert(old_pending.contains_key(d));
                            }
                        }
                        None
                    },
                    Some(w) => {
                        let k = crate::crypto::Hash::digest(&w);
                        proof {
                            lemma_block_key(w, k);
                            assert(old_pending.contains_key(*digest));
                        }
                        let asked = self.demands.remove(&k).unwrap();
                        let rest = without_digest(&asked, digest);
                        if rest.len() == 0 {
                            proof {
                                assert forall|d: Digest| #[trigger] self.pending@.contains_key(d) implies (self.pending@[d].1 matches Some(v)
                                    ==> self.demands@.contains_key(block_key(v)) && self.demands@[block_key(v)]@.contains(d)) by {
                                    assert(old_pending.contains_key(d) && d != *digest);
                                    if let Some(v) = self.pending@[d].1 {
                                        if block_key(v) == k {
                                            assert(asked@.contains(d));
                                            assert(rest@.contains(d));
                                        }
                                    }
                                }
                            }
                            Some(w)
                        } else {
                            self.demands.insert(k, rest);
                            proof {
                                assert forall|d: Digest| #[trigger] self.pending@.contains_key(d) implies (self.pending@[d].1 matches Some(v)
                                    ==> self.demands@.contains_key(block_key(v)) && self.demands@[block_key(v)]@.contains(d)) by {
                                    assert(old_pending.contains_key(d) && d != *digest);
                                    if let Some(v) = self.pending@[d].1 {
                                        if block_key(v) == k {
                                            assert(asked@.contains(d));
                                            assert(rest@.contains(d));
                                        }
                                    }
                                }
                            }
                            None
                        }
                    },
                }
            },
        }
    }

    /// The blocks whose requests have been pending for more than `delay`
    /// milliseconds at time `now`: they are to be asked for again.
    pub fn overdue(&self, now: u64, delay: u64) -> (late: Vec<Digest>)
        requires
            self.wf(),
        ensures
            late@.no_duplicates(),
            forall|d: Digest| late@.contains(d) <==> (self.pending@.contains_key(d) && self.pending@[d].0 + delay < now),
    {
        let keys = self.pending.keys();
        let mut late: Vec<Digest> = Vec::new();
        let mut i: usize = 0;
        while i < keys.len()
            invariant
                self.wf(),
                i <= keys@.len(),
                keys@.no_duplicates(),
                forall|d: Digest| self.pending@.contains_key(d) <==> keys@.contains(d),
                late@.no_duplicates(),
                forall|d: Digest| late@.contains(d) <==> (exists|j: int| 0 <= j < i && keys@[j] == d
                    && self.pending@[d].0 + delay < now),
            decreases keys@.len() - i,
        {
            let d = keys[i];
            assert(keys@.contains(d)) by {
                assert(keys@[i as int] == d);
            }
            let t = match self.pending.get(&d) {
                Some(e) => e.0,
                None => now,
            };
            let ghost before = late@;
            if t < now && now - t > delay {
                proof {
                    assert(!before.contains(d)) by {
                        if before.contains(d) {
                            let j = choose|j: int| 0 <= j < i && keys@[j] == d && self.pending@[d].0 + delay < now;
                            assert(keys@[j] == keys@[i as int]);
                        }
                    }
                }
                late.push(d);
                proof {
                    lemma_push_no_duplicates(before, d);
                }
            }
            proof {
                assert forall|y: Digest| late@.contains(y) <==> (exists|j: int| 0 <= j < i + 1 && keys@[j] == y
                    && self.pending@[y].0 + delay < now) by {
                    if late@.contains(y) {
                        let k = choose|k: int| 0 <= k < late@.len() && late@[k] == y;
                        if k < before.len() {
                            assert(before[k] == y);
                            assert(before.contains(y));
                        } else {
                            assert(y == d);
                            assert(keys@[i as int] == y);
                        }
                    }
                    if exists|j: int| 0 <= j < i + 1 && keys@[j] == y && self.pending@[y].0 + delay < now {
                        let j = choose|j: int| 0 <= j < i + 1 && keys@[j] == y && self.pending@[y].0 + delay < now;
                        if j < i {
                            assert(before.contains(y));
                            let k = choose|k: int| 0 <= k < before.len() && before[k] == y;
                            assert(late@[k] == y);
                        } else {
                            assert(late@[before.len() as int] == y);
                        }
                    }
                }
            }
            i = i + 1;
        }
        proof {
            assert forall|d: Digest| late@.contains(d) <==> (self.pending@.contains_key(d) && self.pending@[d].0 + delay < now) by {
                if self.pending@.contains_key(d) && self.pending@[d].0 + delay < now {
                    assert(keys@.contains(d));
                    let j = choose|j: int| 0 <= j < keys@.len() && keys@[j] == d;
                    assert(exists|j: int| 0 <= j < i && keys@[j] == d && self.pending@[d].0 + delay < now);
                }
                if late@.contains(d) {
                    let j = choose|j: int| 0 <= j < i && keys@[j] == d && self.pending@[d].0 + delay < now;
                    assert(keys@.contains(d)) by {
                        assert(keys@[j] == d);
                    }
                }
            }
        }
        late
    }
}

// ---------------------------------------------------------------------------
// Blocks known without the store
// ---------------------------------------------------------------------------

/// What happens to the bookkeeping of asked blocks: a request for a block
/// (with the block that waits for it and the time), or the arrival of a
/// block.
pub enum SyncEvent {
    Request(Digest, Option<Block>, u64),
    Arrived(Digest),
}

/// One event, as `request` and `arrived` state it, on the pending requests:
/// a request is sent (`sent`) exactly when its block is not pending, and is
/// then recorded with its time; an arrival ends the request for its block.
pub open spec fn sync_step(s: Synchronizer, e: SyncEvent, t: Synchronizer, sent: bool) -> bool {
    match e {
        SyncEvent::Request(d, w, now) => {
            &&& sent == !s.pending@.contains_key(d)
            &&& t.pending@ == if sent { s.pending@.insert(d, (now, w)) } else { s.pending@ }
        },
        SyncEvent::Arrived(d) => t.pending@ == s.pending@.remove(d),
    }
}

/// Whether `e` asks for block `d`.
pub open spec fn asks_for(e: SyncEvent, d: Digest) -> bool {
    e matches SyncEvent::Request(x, _, _) && x == d
}

/// Whether `e` is the arrival of block `d`.
pub open spec fn brings(e: SyncEvent, d: Digest) -> bool {
    e matches SyncEvent::Arrived(x) && x == d
}

/// Among the first `n` events, some asks for `d` and none after it brings
/// `d`.
pub open spec fn still_asked(events: Seq<SyncEvent>, n: int, d: Digest) -> bool {
    exists|i: int| 0 <= i < n && asks_for(#[trigger] events[i], d)
        && forall|j: int| i < j < n ==> !brings(#[trigger] events[j], d)
}

/// A run of events from nothing asked: `syncs[i]` becomes `syncs[i + 1]`
/// with `events[i]`, telling `sent[i]`.
pub open spec fn sync_run(syncs: Seq<Synchronizer>, events: Seq<SyncEvent>, sent: Seq<bool>) -> bool {
    &&& syncs.len() == events.len() + 1
    &&& sent.len() == events.len()
    &&& syncs[0].pending@ == Map::<Digest, (u64, Option<Block>)>::empty()
    &&& forall|i: int| 0 <= i < events.len() ==> sync_step(syncs[i], #[trigger] events[i], syncs[i + 1], sent[i])
}

/// Along a run, a block is pending exactly while it has been asked for and
/// has not arrived since.
proof fn lemma_sync_pending(syncs: Seq<Synchronizer>, events: Seq<SyncEvent>, sent: Seq<bool>, d: Digest, n: int)
    requires
        sync_run(syncs, events, sent),
        0 <= n <= events.len(),
    ensures
        syncs[n].pending@.contains_key(d) <==> still_asked(events, n, d),
    decreases n,
{
    if n > 0 {
        let p = n - 1;
        lemma_sync_pending(syncs, events, sent, d, p);
        assert(sync_step(syncs[p], events[p], syncs[n], sent[p]));
        if asks_for(events[p], d) {
            assert(still_asked(events, n, d)) by {
                assert(asks_for(events[p], d));
                assert forall|j: int| p < j < n implies !brings(#[trigger] events[j], d) by {}
            }
        } else if brings(events[p], d) {
            if still_asked(events, n, d) {
                let i = choose|i: int| 0 <= i < n && asks_for(#[trigger] events[i], d)
                    && forall|j: int| i < j < n ==> !brings(#[trigger] events[j], d);
                assert(i != p);
                assert(!brings(events[p], d));
            }
        } else {
            if still_asked(events, n, d) {
                let i = choose|i: int| 0 <= i < n && asks_for(#[trigger] events[i], d)
                    && forall|j: int| i < j < n ==> !brings(#[trigger] events[j], d);
                assert(i < p);
                assert forall|j: int| i < j < p implies !brings(#[trigger] events[j], d) by {}
                assert(still_asked(events, p, d));
            }
            if still_asked(events, p, d) {
                let i = choose|i: int| 0 <= i < p && asks_for(#[trigger] events[i], d)
                    && forall|j: int| i < j < p ==> !brings(#[trigger] events[j], d);
                assert forall|j: int| i < j < n implies !brings(#[trigger] events[j], d) by {
                    if j == p {
                        assert(!brings(events[p], d));
                    }
                }
                assert(still_asked(events, n, d));
            }
            match events[p] {
                SyncEvent::Request(x, _, _) => assert(x != d),
                SyncEvent::Arrived(x) => assert(x != d),
            }
        }
    }
}

/// Along a run of requests and arrivals from nothing asked, a request for a
/// block is sent exactly when no earlier request for it is still open (asked
/// and not arrived since): while a block is asked for, asking again sends
/// nothing.
pub proof fn lemma_requests_sent_once(syncs: Seq<Synchronizer>, events: Seq<SyncEvent>, sent: Seq<bool>, d: Digest, n: int)
    requires
        sync_run(syncs, events, sent),
        0 <= n < events.len(),
        asks_for(events[n], d),
    ensures
        sent[n] <==> !still_asked(events, n, d),
        syncs[n + 1].pending@.contains_key(d),
        sent[n] ==> (events[n] matches SyncEvent::Request(_, _, now) && syncs[n + 1].pending@[d].0 == now),
        !sent[n] ==> syncs[n + 1].pending@ == syncs[n].pending@,
{
    lemma_sync_pending(syncs, events, sent, d, n);
    assert(sync_step(syncs[n], events[n], syncs[n + 1], sent[n]));
}

impl Synchronizer {
    /// The index of `key` among the keys of the committee in ascending order:
    /// the number of members whose key comes before it.
    pub fn get_idx(key: &PublicKey, committee: &Committee) -> (idx: SeqNumber)
        requires
            committee.has_member(*key),
        ensures
            idx == rank(committee.members(), *key),
    {
        let auths = committee.authorities();
        let mut count: SeqNumber = 0;
        let mut i: usize = 0;
        assert(auths@.subrange(0, 0) =~= Seq::<Authority>::empty());
        while i < auths.len()
            invariant
                i <= auths@.len(),
                auths@ == committee.members(),
                count == rank(auths@.subrange(0, i as int), *key),
                count <= i,
            decreases auths@.len() - i,
        {
            proof {
                assert(auths@.subrange(0, i + 1).drop_last() =~= auths@.subrange(0, i as int));
            }
            if auths[i].name.precedes(key) {
                count = count + 1;
            }
            i = i + 1;
        }
        assert(auths@.subrange(0, auths@.len() as int) =~= auths@);
        count
    }

    /// Splits the ids of the authorities a message goes to into those that
    /// get it and those the staged attack cuts off: while the attack
    /// is on (`elapsed` seconds after the first message), the sender of index
    /// `from_idx` does not reach the other side on the chains' network
    /// (`tag` is `HOTSTUFF`); otherwise everyone is reached. The attack
    /// leaves the agreement's network (any other tag) alone.
    pub fn transmit_targets(elapsed: u64, from_idx: u64, targets: &Vec<usize>, tag: u8) -> (r: (Vec<usize>, Vec<usize>))
        ensures
            !(attack_active(elapsed) && tag == HOTSTUFF) ==> r.0@ == targets@ && r.1@.len() == 0,
            attack_active(elapsed) && tag == HOTSTUFF ==> r.0@ == spared(targets@, from_idx) && r.1@ == cut(targets@, from_idx),
    {
        if tag != HOTSTUFF || elapsed % ATTACK_CYCLE_SECS < ATTACK_START_SECS || from_idx > 6 {
            return (crate::util::copy_vec(targets), Vec::new());
        }
        let lo: usize = if from_idx <= 3 { 4 } else { 0 };
        let hi: usize = if from_idx <= 3 { 6 } else { 3 };
        let mut kept = crate::util::copy_vec(targets);
        let mut deleted: Vec<usize> = Vec::new();
        let mut id: usize = lo;
        while id <= hi
            invariant
                cut_range(from_idx) == Some((lo, hi)),
                lo <= id <= hi + 1,
                hi <= 6,
                kept@ == strip(targets@, lo as nat, (id - lo) as nat),
                deleted@ == ids_among(lo as nat, (id - lo) as nat, targets@),
            decreases hi + 1 - id,
        {
            let mut j: usize = 0;
            while j < kept.len() && kept[j] != id
                invariant
                    j <= kept@.len(),
                    forall|k: int| 0 <= k < j ==> kept@[k] != id,
                decreases kept@.len() - j,
            {
                j = j + 1;
            }
            proof {
                lemma_strip_contains(targets@, lo as nat, (id - lo) as nat, id);
            }
            if j < kept.len() {
                proof {
                    lemma_remove_first_at(kept@, id, j as int);
                    assert(kept@.contains(id)) by {
                        assert(kept@[j as int] == id);
                    }
                }
                kept.remove(j);
                deleted.push(id);
            } else {
                proof {
                    assert(!kept@.contains(id)) by {
                        if kept@.contains(id) {
                            let k = choose|k: int| 0 <= k < kept@.len() && kept@[k] == id;
                            assert(kept@[k] != id);
                        }
                    }
                    lemma_remove_first_absent(kept@, id);
                }
            }
            id = id + 1;
        }
        (kept, deleted)
    }

    /// The block that `digest` names without asking the store: genesis, for the
    /// digest of the genesis QC.
    pub fn known_block(digest: &Digest) -> (b: Option<Block>)
        ensures
            b is Some <==> digest@ == zero_bytes(32),
            b matches Some(g) ==> g.is_genesis_block(),
    {
        let zero = Digest::default();
        proof {
            crate::crypto::lemma_digest_view_eq(*digest, zero);
        }
        if *digest == zero {
            Some(Block::genesis())
        } else {
            None
        }
    }
}

} // verus!
