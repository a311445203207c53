use vstd::prelude::*;
use crate::util::MapKey;
use ed25519_dalek::Digest as _;
use ed25519_dalek::Signer as _;

verus! {

/// A 32-byte message digest: the first half of a SHA-512 hash.
#[derive(Clone, Copy, Debug, Hash)]
pub struct Digest(pub [u8; 32]);

impl View for Digest {
    type V = Seq<u8>;

    open spec fn view(&self) -> Seq<u8> {
        self.0@
    }
}

/// Compares two 32-byte arrays byte by byte.
pub fn bytes32_eq(a: &[u8; 32], b: &[u8; 32]) -> (r: bool)
    ensures
        r == (a@ == b@),
{
    let mut i: usize = 0;
    while i < 32
        invariant
            i <= 32,
            forall|j: int| 0 <= j < i ==> a@[j] == b@[j],
        decreases 32 - i,
    {
        if a[i] != b[i] {
            return false;
        }
        i = i + 1;
    }
    proof {
        assert(a@ =~= b@);
    }
    true
}

impl PartialEq for Digest {
    fn eq(&self, other: &Self) -> (r: bool) {
        proof {
            lemma_digest_view_eq(*self, *other);
        }
        let r = bytes32_eq(&self.0, &other.0);
        assert(r == (*self == *other));
        r
    }
}

impl vstd::std_specs::cmp::PartialEqSpecImpl for Digest {
    open spec fn obeys_eq_spec() -> bool {
        true
    }

    open spec fn eq_spec(&self, other: &Digest) -> bool {
        *self == *other
    }
}

impl Eq for Digest {}

impl MapKey for Digest {
    fn key_eq(&self, other: &Self) -> (r: bool) {
        proof {
            lemma_digest_view_eq(*self, *other);
        }
        bytes32_eq(&self.0, &other.0)
    }
}

impl Digest {
    /// The bytes of the digest, in order.
    pub fn to_vec(&self) -> (v: Vec<u8>)
        ensures
            v@ == self@,
    {
        let mut v: Vec<u8> = Vec::new();
        let mut i: usize = 0;
        while i < 32
            invariant
                i <= 32,
                v@ == self@.subrange(0, i as int),
            decreases 32 - i,
        {
            v.push(self.0[i]);
            i = i + 1;
        }
        v
    }

    /// The number of bytes in a digest.
    pub fn size(&self) -> (n: usize)
        ensures
            n == self@.len(),
            n == 32,
    {
        self.0.len()
    }
}


impl Default for Digest {
    fn default() -> (d: Self)
        ensures
            d@ == Seq::new(32, |i: int| 0u8),
    {
        let d = Digest([0u8; 32]);
        assert(d@ =~= Seq::new(32, |i: int| 0u8));
        d
    }
}

/// `n` zero bytes.
pub open spec fn zero_bytes(n: nat) -> Seq<u8> {
    Seq::new(n, |i: int| 0u8)
}

/// A message that is signed and certified through its digest.
pub trait Hash {
    /// The bytes of the digest of `self`.
    spec fn spec_digest(&self) -> Seq<u8>;

    /// The digest of `self`.
    fn digest(&self) -> (d: Digest)
        ensures
            d@ == self.spec_digest(),
    ;
}

/// The little-endian encoding of the `n` low bytes of `x`.
pub open spec fn le_bytes(x: nat, n: nat) -> Seq<u8>
    decreases n,
{
    if n == 0 {
        Seq::empty()
    } else {
        seq![(x % 256) as u8] + le_bytes(x / 256, (n - 1) as nat)
    }
}

/// The eight bytes of `x`, least significant first (`u64::to_le_bytes`).
pub open spec fn u64_le(x: u64) -> Seq<u8> {
    le_bytes(x as nat, 8)
}

/// Appends the little-endian encoding of `x` to `buf`.
pub fn push_u64_le(buf: &mut Vec<u8>, x: u64)
    ensures
        final(buf)@ == old(buf)@ + u64_le(x),
{
    let ghost start = buf@;
    let mut v: u64 = x;
    let mut i: usize = 0;
    while i < 8
        invariant
            i <= 8,
            buf@ + le_bytes(v as nat, (8 - i) as nat) == start + u64_le(x),
        decreases 8 - i,
    {
        let ghost before = buf@;
        let b: u8 = (v % 256) as u8;
        buf.push(b);
        proof {
            assert(le_bytes(v as nat, (8 - i) as nat) == seq![b] + le_bytes((v / 256) as nat, (8 - i - 1) as nat));
            assert(before + (seq![b] + le_bytes((v / 256) as nat, (8 - i - 1) as nat))
                =~= buf@ + le_bytes((v / 256) as nat, (8 - i - 1) as nat));
        }
        v = v / 256;
        i = i + 1;
    }
    assert(le_bytes(v as nat, 0) =~= Seq::<u8>::empty());
    assert(buf@ + Seq::<u8>::empty() =~= buf@);
}

/// Appends the bytes of `bytes` to `buf`.
pub fn push_bytes32(buf: &mut Vec<u8>, bytes: &[u8; 32])
    ensures
        final(buf)@ == old(buf)@ + bytes@,
{
    let ghost start = buf@;
    let mut i: usize = 0;
    while i < 32
        invariant
            i <= 32,
            buf@ == start + bytes@.subrange(0, i as int),
        decreases 32 - i,
    {
        buf.push(bytes[i]);
        proof {
            assert(start + bytes@.subrange(0, i + 1) =~= start + bytes@.subrange(0, i as int) + seq![bytes@[i as int]]);
        }
        i = i + 1;
    }
    assert(bytes@.subrange(0, 32) =~= bytes@);
}

/// What SHA-512, as `ed25519_dalek::Sha512` computes it, gives for `data`.
pub uninterp spec fn sha512(data: Seq<u8>) -> Seq<u8>;

/// Hashes `data` with `ed25519_dalek::Sha512` (the `sha2` crate). Trusted: the
/// result is the SHA-512 hash of `data`, 64 bytes long. Feeding the bytes in
/// several `update` calls gives the same hash as one call on their
/// concatenation, so callers build the whole message first.
#[verifier::external_body]
fn sha512_hash(data: &[u8]) -> (h: Vec<u8>)
    ensures
        h@ == sha512(data@),
        h@.len() == 64,
{
    ed25519_dalek::Sha512::digest(data).to_vec()
}

/// The digest of a message: the first 32 bytes of its SHA-512 hash.
pub open spec fn hash_digest(data: Seq<u8>) -> Seq<u8> {
    sha512(data).subrange(0, 32)
}

/// Hashes `data` and keeps the first 32 bytes of the hash.
pub fn digest_of(data: &Vec<u8>) -> (d: Digest)
    ensures
        d@ == hash_digest(data@),
{
    let h = sha512_hash(data.as_slice());
    let mut out = [0u8; 32];
    let mut i: usize = 0;
    while i < 32
        invariant
            i <= 32,
            h@.len() == 64,
            forall|j: int| 0 <= j < i ==> out@[j] == h@[j],
        decreases 32 - i,
    {
        out[i] = h[i];
        i = i + 1;
    }
    let d = Digest(out);
    assert(d@ =~= hash_digest(data@));
    d
}


/// The public half of an ed25519 key pair: a compressed curve point.
#[derive(Clone, Copy, Debug, Hash, PartialOrd, Ord)]
pub struct PublicKey(pub [u8; 32]);

impl View for PublicKey {
    type V = Seq<u8>;

    open spec fn view(&self) -> Seq<u8> {
        self.0@
    }
}

impl PartialEq for PublicKey {
    fn eq(&self, other: &Self) -> (r: bool) {
        proof {
            lemma_public_key_view_eq(*self, *other);
        }
        let r = bytes32_eq(&self.0, &other.0);
        assert(r == (*self == *other));
        r
    }
}

impl vstd::std_specs::cmp::PartialEqSpecImpl for PublicKey {
    open spec fn obeys_eq_spec() -> bool {
        true
    }

    open spec fn eq_spec(&self, other: &PublicKey) -> bool {
        *self == *other
    }
}

impl Eq for PublicKey {}

/// Two keys are equal exactly when their bytes are.
pub proof fn lemma_public_key_view_eq(a: PublicKey, b: PublicKey)
    ensures
        (a@ == b@) <==> a == b,
{
    if a@ == b@ {
        assert(a.0 =~= b.0);
    }
}

/// Two digests are equal exactly when their bytes are.
pub proof fn lemma_digest_view_eq(a: Digest, b: Digest)
    ensures
        (a@ == b@) <==> a == b,
{
    if a@ == b@ {
        assert(a.0 =~= b.0);
    }
}

/// Whether `k` occurs in `v`.
pub fn contains_public_key(v: &Vec<PublicKey>, k: &PublicKey) -> (r: bool)
    ensures
        r == v@.contains(*k),
{
    let mut i: usize = 0;
    while i < v.len()
        invariant
            i <= v@.len(),
            forall|j: int| 0 <= j < i ==> v@[j] != *k,
        decreases v@.len() - i,
    {
        if v[i] == *k {
            assert(v@[i as int] == *k);
            return true;
        }
        i = i + 1;
    }
    false
}

impl MapKey for PublicKey {
    fn key_eq(&self, other: &Self) -> (r: bool) {
        proof {
            lemma_public_key_view_eq(*self, *other);
        }
        bytes32_eq(&self.0, &other.0)
    }
}

impl Default for PublicKey {
    fn default() -> (k: Self)
        ensures
            k@ == Seq::new(32, |i: int| 0u8),
    {
        let k = PublicKey([0u8; 32]);
        assert(k@ =~= Seq::new(32, |i: int| 0u8));
        k
    }
}

/// Lexicographic order on byte strings, the order `Ord` gives byte arrays:
/// at the first position where they differ the smaller byte comes first,
/// and a proper prefix comes before the longer string.
pub open spec fn bytes_lt(a: Seq<u8>, b: Seq<u8>) -> bool
    decreases a.len(),
{
    if a.len() == 0 {
        b.len() > 0
    } else if b.len() == 0 {
        false
    } else if a[0] != b[0] {
        a[0] < b[0]
    } else {
        bytes_lt(a.drop_first(), b.drop_first())
    }
}

/// No byte string comes before itself.
pub proof fn lemma_bytes_lt_irreflexive(a: Seq<u8>)
    ensures
        !bytes_lt(a, a),
    decreases a.len(),
{
    if a.len() > 0 {
        lemma_bytes_lt_irreflexive(a.drop_first());
    }
}

/// The order is transitive.
pub proof fn lemma_bytes_lt_transitive(a: Seq<u8>, b: Seq<u8>, c: Seq<u8>)
    requires
        bytes_lt(a, b),
        bytes_lt(b, c),
    ensures
        bytes_lt(a, c),
    decreases a.len(),
{
    if a.len() > 0 && b.len() > 0 && c.len() > 0 && a[0] == b[0] && b[0] == c[0] {
        lemma_bytes_lt_transitive(a.drop_first(), b.drop_first(), c.drop_first());
    }
}

/// Of two different byte strings of one length, one comes first.
pub proof fn lemma_bytes_lt_total(a: Seq<u8>, b: Seq<u8>)
    requires
        a.len() == b.len(),
        a != b,
    ensures
        bytes_lt(a, b) || bytes_lt(b, a),
    decreases a.len(),
{
    if a.len() == 0 {
        assert(a =~= b);
    } else if a[0] == b[0] {
        if a.drop_first() == b.drop_first() {
            assert(a =~= b) by {
                assert forall|i: int| 0 <= i < a.len() implies a[i] == b[i] by {
                    if i > 0 {
                        assert(a[i] == a.drop_first()[i - 1]);
                        assert(b[i] == b.drop_first()[i - 1]);
                    }
                }
            }
        }
        lemma_bytes_lt_total(a.drop_first(), b.drop_first());
    }
}

impl PublicKey {
    /// Whether this key comes before `other` in the order of their bytes.
    pub fn precedes(&self, other: &PublicKey) -> (b: bool)
        ensures
            b == bytes_lt(self@, other@),
    {
        let mut i: usize = 0;
        assert(self@.skip(0) =~= self@);
        assert(other@.skip(0) =~= other@);
        while i < 32
            invariant
                i <= 32,
                bytes_lt(self@, other@) == bytes_lt(self@.skip(i as int), other@.skip(i as int)),
            decreases 32 - i,
        {
            let x = self.0[i];
            let y = other.0[i];
            assert(self@.skip(i as int)[0] == x);
            assert(other@.skip(i as int)[0] == y);
            if x != y {
                return x < y;
            }
            assert(self@.skip(i as int).drop_first() =~= self@.skip(i + 1));
            assert(other@.skip(i as int).drop_first() =~= other@.skip(i + 1));
            i = i + 1;
        }
        assert(self@.skip(32).len() == 0);
        assert(other@.skip(32).len() == 0);
        false
    }
}

/// A full ed25519 key pair in `Keypair::to_bytes` layout: the 32 secret
/// bytes followed by the 32 bytes of the public key.
#[derive(Clone)]
pub struct SecretKey([u8; 64]);

impl View for SecretKey {
    type V = Seq<u8>;

    closed spec fn view(&self) -> Seq<u8> {
        self.0@
    }
}

// ---------------------------------------------------------------------------
// Keys as text, and new keys
// ---------------------------------------------------------------------------

/// The character of the standard base64 alphabet for a value below 64:
/// `A`-`Z`, `a`-`z`, `0`-`9`, `+`, `/`.
pub open spec fn base64_char(v: int) -> char {
    if v < 26 {
        (65 + v) as char
    } else if v < 52 {
        (97 + v - 26) as char
    } else if v < 62 {
        (48 + v - 52) as char
    } else if v == 62 {
        '+'
    } else {
        '/'
    }
}

/// The standard base64 text of some bytes (with `=` padding): every three
/// bytes become four characters of six bits each, a last group of one or
/// two bytes is padded with zero bits and `=`.
pub open spec fn base64_encoding(bytes: Seq<u8>) -> Seq<char>
    decreases bytes.len(),
{
    if bytes.len() == 0 {
        Seq::empty()
    } else {
        let b0 = bytes[0] as int;
        let b1 = if bytes.len() > 1 { bytes[1] as int } else { 0 };
        let b2 = if bytes.len() > 2 { bytes[2] as int } else { 0 };
        let c0 = base64_char(b0 / 4);
        let c1 = base64_char((b0 % 4) * 16 + b1 / 16);
        let c2 = base64_char((b1 % 16) * 4 + b2 / 64);
        let c3 = base64_char(b2 % 64);
        if bytes.len() == 1 {
            seq![c0, c1, '=', '=']
        } else if bytes.len() == 2 {
            seq![c0, c1, c2, '=']
        } else {
            seq![c0, c1, c2, c3] + base64_encoding(bytes.skip(3))
        }
    }
}

/// The bytes that standard base64 text decodes to, `None` when it does not
/// decode.
pub uninterp spec fn base64_decoding(text: Seq<char>) -> Option<Seq<u8>>;

/// Calls `base64::encode` (standard alphabet, with padding). Trusted: the
/// text is the standard base64 encoding of the bytes, and decodes back to
/// them.
#[verifier::external_body]
fn base64_encode(bytes: &[u8]) -> (text: String)
    requires
        bytes@.len() <= usize::MAX / 4,
    ensures
        text@ == base64_encoding(bytes@),
        base64_decoding(text@) == Some(bytes@),
{
    base64::encode(bytes)
}

/// Calls `base64::decode`. Trusted: it succeeds exactly when the text
/// decodes, with the decoded bytes; which `DecodeError` a failure carries is
/// not stated.
#[verifier::external_body]
fn base64_decode(text: &str) -> (r: Result<Vec<u8>, base64::DecodeError>)
    ensures
        r is Ok <==> base64_decoding(text@) is Some,
        r matches Ok(bytes) ==> Some(bytes@) == base64_decoding(text@),
{
    base64::decode(text)
}

#[verifier::external_type_specification]
#[verifier::external_body]
pub struct ExDecodeError(base64::DecodeError);

#[verifier::external_type_specification]
#[verifier::external_body]
pub struct ExStdRng(rand::rngs::StdRng);

/// Calls `ed25519_dalek::Keypair::generate` with a seeded `StdRng` and
/// returns `Keypair::to_bytes`. The key pair depends on the generator's
/// state, so only what holds of every outcome is stated: the bytes load as
/// a key pair, and the public half, a multiple of the base point (derived
/// from the secret half), is torsion-free.
#[verifier::external_body]
fn ed25519_generate(csprng: &mut rand::rngs::StdRng) -> (keypair: [u8; 64])
    ensures
        ed25519_keypair_loads(keypair@),
        ed25519_key_torsion_free(keypair@.subrange(32, 64)),
{
    ed25519_dalek::Keypair::generate(csprng).to_bytes()
}

/// Calls `ed25519_dalek::Keypair::generate` with the operating system's
/// generator (`OsRng`) and returns `Keypair::to_bytes`. The outcome is
/// random: only that the bytes load as a key pair and that the public half,
/// a multiple of the base point, is torsion-free is stated.
#[verifier::external_body]
fn ed25519_generate_os() -> (keypair: [u8; 64])
    ensures
        ed25519_keypair_loads(keypair@),
        ed25519_key_torsion_free(keypair@.subrange(32, 64)),
{
    ed25519_dalek::Keypair::generate(&mut rand::rngs::OsRng).to_bytes()
}

/// The first 32 bytes of `bytes`.
fn prefix32(bytes: &Vec<u8>) -> (out: [u8; 32])
    requires
        bytes@.len() >= 32,
    ensures
        out@ == bytes@.subrange(0, 32),
{
    let mut out = [0u8; 32];
    let mut i: usize = 0;
    while i < 32
        invariant
            i <= 32,
            bytes@.len() >= 32,
            forall|j: int| 0 <= j < i ==> out@[j] == bytes@[j],
        decreases 32 - i,
    {
        out[i] = bytes[i];
        i = i + 1;
    }
    assert(out@ =~= bytes@.subrange(0, 32));
    out
}

/// The first 64 bytes of `bytes`.
fn prefix64(bytes: &Vec<u8>) -> (out: [u8; 64])
    requires
        bytes@.len() >= 64,
    ensures
        out@ == bytes@.subrange(0, 64),
{
    let mut out = [0u8; 64];
    let mut i: usize = 0;
    while i < 64
        invariant
            i <= 64,
            bytes@.len() >= 64,
            forall|j: int| 0 <= j < i ==> out@[j] == bytes@[j],
        decreases 64 - i,
    {
        out[i] = bytes[i];
        i = i + 1;
    }
    assert(out@ =~= bytes@.subrange(0, 64));
    out
}

impl PublicKey {
    /// The key as standard base64 text, which decodes back to the key.
    pub fn to_base64(&self) -> (s: String)
        ensures
            s@ == base64_encoding(self@),
            base64_decoding(s@) == Some(self@),
    {
        base64_encode(self.0.as_slice())
    }

    /// The key whose bytes start the decoding of `s`; the decoding error
    /// when `s` does not decode. Text that decodes to fewer than 32 bytes is
    /// left out (see `try_from_base64`).
    pub fn from_base64(s: &str) -> (r: Result<PublicKey, base64::DecodeError>)
        requires
            base64_decoding(s@) matches Some(bytes) ==> bytes.len() >= 32,
        ensures
            r is Ok <==> base64_decoding(s@) is Some,
            r matches Ok(k) ==> k@ == base64_decoding(s@)->0.subrange(0, 32),
    {
        match base64_decode(s) {
            Ok(bytes) => Ok(PublicKey(prefix32(&bytes))),
            Err(e) => Err(e),
        }
    }

    /// `from_base64` where the text decodes to at least 32 bytes; `None`
    /// where it decodes to fewer.
    pub fn try_from_base64(s: &str) -> (r: Option<Result<PublicKey, base64::DecodeError>>)
        ensures
            r is None <==> (base64_decoding(s@) matches Some(bytes) && bytes.len() < 32),
            r matches Some(x) ==> (x is Ok <==> base64_decoding(s@) is Some),
            r matches Some(Ok(k)) ==> k@ == base64_decoding(s@)->0.subrange(0, 32),
    {
        match base64_decode(s) {
            Ok(bytes) => {
                if bytes.len() < 32 {
                    None
                } else {
                    Some(PublicKey::from_base64(s))
                }
            },
            Err(e) => Some(Err(e)),
        }
    }
}

impl SecretKey {
    /// The key pair as standard base64 text, which decodes back to it.
    pub fn to_base64(&self) -> (s: String)
        ensures
            s@ == base64_encoding(self@),
            base64_decoding(s@) == Some(self@),
    {
        base64_encode(self.0.as_slice())
    }

    /// The key pair whose bytes start the decoding of `s`; the decoding
    /// error when `s` does not decode. Text that decodes to fewer than 64
    /// bytes is left out (see `try_from_base64`).
    pub fn from_base64(s: &str) -> (r: Result<SecretKey, base64::DecodeError>)
        requires
            base64_decoding(s@) matches Some(bytes) ==> bytes.len() >= 64,
        ensures
            r is Ok <==> base64_decoding(s@) is Some,
            r matches Ok(k) ==> k@ == base64_decoding(s@)->0.subrange(0, 64),
    {
        match base64_decode(s) {
            Ok(bytes) => Ok(SecretKey(prefix64(&bytes))),
            Err(e) => Err(e),
        }
    }

    /// `from_base64` where the text decodes to at least 64 bytes; `None`
    /// where it decodes to fewer.
    pub fn try_from_base64(s: &str) -> (r: Option<Result<SecretKey, base64::DecodeError>>)
        ensures
            r is None <==> (base64_decoding(s@) matches Some(bytes) && bytes.len() < 64),
            r matches Some(x) ==> (x is Ok <==> base64_decoding(s@) is Some),
            r matches Some(Ok(k)) ==> k@ == base64_decoding(s@)->0.subrange(0, 64),
    {
        match base64_decode(s) {
            Ok(bytes) => {
                if bytes.len() < 64 {
                    None
                } else {
                    Some(SecretKey::from_base64(s))
                }
            },
            Err(e) => Some(Err(e)),
        }
    }

    /// Whether the bytes load as an ed25519 key pair, as signing needs.
    pub fn is_valid_keypair(&self) -> (b: bool)
        ensures
            b == ed25519_keypair_loads(self@),
    {
        ed25519_check_keypair(&self.0)
    }
}

/// Splits the bytes of a key pair into its public key and the key pair.
fn split_keypair(bytes: [u8; 64]) -> (keys: (PublicKey, SecretKey))
    ensures
        keys.0@ == bytes@.subrange(32, 64),
        keys.1@ == bytes@,
{
    let mut public = [0u8; 32];
    let mut i: usize = 0;
    while i < 32
        invariant
            i <= 32,
            forall|j: int| 0 <= j < i ==> public@[j] == bytes@[j + 32],
        decreases 32 - i,
    {
        public[i] = bytes[i + 32];
        i = i + 1;
    }
    assert(public@ =~= bytes@.subrange(32, 64));
    (PublicKey(public), SecretKey(bytes))
}

/// A new key pair drawn from `csprng`: the public key is the public half of
/// the key pair, which loads for signing.
pub fn generate_keypair(csprng: &mut rand::rngs::StdRng) -> (keys: (PublicKey, SecretKey))
    ensures
        ed25519_keypair_loads(keys.1@),
        keys.0@ == keys.1@.subrange(32, 64),
        ed25519_key_torsion_free(keys.0@),
{
    split_keypair(ed25519_generate(csprng))
}

/// A new key pair drawn from the operating system's generator.
pub fn generate_production_keypair() -> (keys: (PublicKey, SecretKey))
    ensures
        ed25519_keypair_loads(keys.1@),
        keys.0@ == keys.1@.subrange(32, 64),
        ed25519_key_torsion_free(keys.0@),
{
    split_keypair(ed25519_generate_os())
}

/// A public key written as base64 reads back as itself: text that decodes
/// to the key's bytes is accepted by `from_base64`, which gives the key.
pub proof fn lemma_public_key_base64_roundtrip(k: PublicKey, text: Seq<char>)
    requires
        base64_decoding(text) == Some(k@),
    ensures
        base64_decoding(text) matches Some(bytes) && bytes.len() >= 32 && bytes.subrange(0, 32) == k@,
{
    assert(k@.subrange(0, 32) =~= k@);
}

/// A key pair written as base64 reads back as itself.
pub proof fn lemma_secret_key_base64_roundtrip(k: SecretKey, text: Seq<char>)
    requires
        base64_decoding(text) == Some(k@),
    ensures
        base64_decoding(text) matches Some(bytes) && bytes.len() >= 64 && bytes.subrange(0, 64) == k@,
{
    assert(k@.len() == 64);
    assert(k@.subrange(0, 64) =~= k@);
}

/// An ed25519 signature, held as its two 32-byte halves (`R` and `s`).
#[derive(Clone, Copy, Debug)]
pub struct Signature {
    part1: [u8; 32],
    part2: [u8; 32],
}

impl View for Signature {
    type V = Seq<u8>;

    /// The 64 bytes of the signature.
    closed spec fn view(&self) -> Seq<u8> {
        self.part1@ + self.part2@
    }
}

impl Default for Signature {
    fn default() -> (s: Self)
        ensures
            s@ == Seq::new(64, |i: int| 0u8),
    {
        let s = Signature { part1: [0u8; 32], part2: [0u8; 32] };
        assert(s@ =~= Seq::new(64, |i: int| 0u8));
        s
    }
}

/// Whether `ed25519_dalek::Keypair::from_bytes` accepts these 64 bytes.
pub uninterp spec fn ed25519_keypair_loads(keypair: Seq<u8>) -> bool;

/// The signature that an ed25519 key pair gives to a message.
pub uninterp spec fn ed25519_signature(keypair: Seq<u8>, message: Seq<u8>) -> Seq<u8>;

/// Whether a signature verifies strictly under a public key: the signature
/// bytes parse, the key bytes decompress to a curve point, and
/// `verify_strict` accepts.
pub uninterp spec fn ed25519_verify_strict(message: Seq<u8>, public: Seq<u8>, signature: Seq<u8>) -> bool;

/// Whether `ed25519_dalek::PublicKey::from_bytes` accepts these 32 bytes:
/// they decompress to a curve point.
pub uninterp spec fn ed25519_key_decompresses(public: Seq<u8>) -> bool;

/// Whether these 32 bytes decompress to a point of the prime-order subgroup
/// of the curve (no small-order component), as every multiple of the base
/// point is.
pub uninterp spec fn ed25519_key_torsion_free(public: Seq<u8>) -> bool;

/// Whether the scalar half of a signature has one of its three highest bits
/// set (its last byte is 32 or more), which `ed25519::Signature::from_bytes`
/// refuses.
pub open spec fn signature_scalar_too_high(signature: Seq<u8>) -> bool {
    signature[63] >= 32
}

/// Calls `ed25519_dalek::Keypair::from_bytes`. Trusted: the result tells
/// whether the bytes load as a key pair.
#[verifier::external_body]
fn ed25519_check_keypair(keypair: &[u8; 64]) -> (ok: bool)
    ensures
        ok == ed25519_keypair_loads(keypair@),
{
    ed25519_dalek::Keypair::from_bytes(keypair).is_ok()
}

/// Loads the key pair with `ed25519_dalek::Keypair::from_bytes` and signs
/// `message` with `Signer::sign`. Trusted: ed25519 signing is deterministic,
/// so the 64 bytes are a function of the key pair and the message.
#[verifier::external_body]
fn ed25519_sign(keypair: &[u8; 64], message: &[u8]) -> (sig: [u8; 64])
    requires
        ed25519_keypair_loads(keypair@),
    ensures
        sig@ == ed25519_signature(keypair@, message@),
{
    let pair = ed25519_dalek::Keypair::from_bytes(keypair).unwrap();
    pair.sign(message).to_bytes()
}

/// Parses the signature with `ed25519_dalek::Signature::from_bytes`, the
/// key with `ed25519_dalek::PublicKey::from_bytes`, and calls
/// `PublicKey::verify_strict`. Trusted: `Ok` exactly when all three accept,
/// so only when the key decompresses and the signature's scalar is not too
/// high.
#[verifier::external_body]
fn ed25519_verify(message: &[u8], public: &[u8; 32], signature: &[u8; 64]) -> (r: Result<(), CryptoError>)
    ensures
        r is Ok <==> ed25519_verify_strict(message@, public@, signature@),
        r is Ok ==> ed25519_key_decompresses(public@) && !signature_scalar_too_high(signature@),
{
    let signature = ed25519_dalek::Signature::from_bytes(signature)?;
    let key = ed25519_dalek::PublicKey::from_bytes(public)?;
    key.verify_strict(message, &signature)
}

/// Calls `ed25519_dalek::verify_batch` on one message signed by every pair
/// (key, signature), parsing each with `from_bytes` first. Trusted:
/// - when every signature verifies strictly on its own and every key is
///   torsion-free, the batch is accepted: the batch equation is a weighted
///   sum of per-pair equations that each hold exactly, whatever the random
///   weights;
/// - the batch is accepted only when every pair parses, every key
///   decompressing and no signature's scalar being too high.
/// Not stated: whether a batch holding a bad signature is refused (the
/// weights come from `thread_rng`), and what a key with a small-order component gives.
/// The batch multiplies each key by its weight times its hash reduced
/// modulo the group order, which for a key with a small-order component is
/// not the multiple that `verify_strict` checks, so such a key can make the
/// batch refuse pairs that each verify strictly.
#[verifier::external_body]
fn ed25519_verify_batch(message: &[u8], signed: &[([u8; 32], [u8; 64])]) -> (r: Result<(), CryptoError>)
    ensures
        (forall|i: int| 0 <= i < signed@.len() ==> ed25519_verify_strict(message@, #[trigger] signed@[i].0@, signed@[i].1@)
            && ed25519_key_torsion_free(signed@[i].0@)) ==> r is Ok,
        r is Ok ==> forall|i: int| 0 <= i < signed@.len()
            ==> ed25519_key_decompresses(#[trigger] signed@[i].0@) && !signature_scalar_too_high(signed@[i].1@),
{
    let mut messages: Vec<&[u8]> = Vec::new();
    let mut signatures: Vec<ed25519_dalek::Signature> = Vec::new();
    let mut keys: Vec<ed25519_dalek::PublicKey> = Vec::new();
    for (key, sig) in signed {
        messages.push(message);
        signatures.push(ed25519_dalek::Signature::from_bytes(sig)?);
        keys.push(ed25519_dalek::PublicKey::from_bytes(key)?);
    }
    ed25519_dalek::verify_batch(&messages[..], &signatures[..], &keys[..])
}

/// The error of a failed signature check.
pub type CryptoError = ed25519_dalek::SignatureError;

#[verifier::external_type_specification]
#[verifier::external_body]
pub struct ExSignatureError(ed25519_dalek::SignatureError);

impl Signature {
    /// Signs `digest` with the key pair `secret`.
    pub fn new(digest: &Digest, secret: &SecretKey) -> (s: Self)
        requires
            ed25519_keypair_loads(secret@),
        ensures
            s@ == ed25519_signature(secret@, digest@),
    {
        let sig = ed25519_sign(&secret.0, digest.0.as_slice());
        let mut part1 = [0u8; 32];
        let mut part2 = [0u8; 32];
        let mut i: usize = 0;
        while i < 32
            invariant
                i <= 32,
                forall|j: int| 0 <= j < i ==> part1@[j] == sig@[j],
                forall|j: int| 0 <= j < i ==> part2@[j] == sig@[j + 32],
            decreases 32 - i,
        {
            part1[i] = sig[i];
            part2[i] = sig[i + 32];
            i = i + 1;
        }
        let s = Signature { part1, part2 };
        assert(s@ =~= sig@);
        s
    }

    /// The 64 bytes of the signature.
    pub fn flatten(&self) -> (bytes: [u8; 64])
        ensures
            bytes@ == self@,
    {
        let mut bytes = [0u8; 64];
        let mut i: usize = 0;
        while i < 32
            invariant
                i <= 32,
                forall|j: int| 0 <= j < i ==> bytes@[j] == self.part1@[j],
                forall|j: int| 0 <= j < i ==> bytes@[j + 32] == self.part2@[j],
            decreases 32 - i,
        {
            bytes[i] = self.part1[i];
            bytes[i + 32] = self.part2[i];
            i = i + 1;
        }
        assert(bytes@ =~= self@);
        bytes
    }

    /// Checks the signature on `digest` under `public_key`.
    pub fn verify(&self, digest: &Digest, public_key: &PublicKey) -> (r: Result<(), CryptoError>)
        ensures
            r is Ok <==> ed25519_verify_strict(digest@, public_key@, self@),
    {
        let bytes = self.flatten();
        ed25519_verify(digest.0.as_slice(), &public_key.0, &bytes)
    }

    /// Checks in one batch that every vote signs `digest`: it succeeds when
    /// every signature verifies on its own under a torsion-free key, and it
    /// fails when some vote does not even parse (its key does not decompress
    /// or its signature's scalar is too high). Other batches rest on random
    /// weights, or on the small-order part of a key.
    pub fn verify_batch(digest: &Digest, votes: &Vec<(PublicKey, Signature)>) -> (r: Result<(), CryptoError>)
        ensures
            (forall|i: int| 0 <= i < votes@.len() ==> ed25519_verify_strict(digest@, #[trigger] votes@[i].0@, votes@[i].1@)
                && ed25519_key_torsion_free(votes@[i].0@)) ==> r is Ok,
            r is Ok ==> forall|i: int| 0 <= i < votes@.len()
                ==> ed25519_key_decompresses(#[trigger] votes@[i].0@) && !signature_scalar_too_high(votes@[i].1@),
    {
        let mut signed: Vec<([u8; 32], [u8; 64])> = Vec::new();
        let mut i: usize = 0;
        while i < votes.len()
            invariant
                i <= votes@.len(),
                signed@.len() == i,
                forall|j: int| 0 <= j < i ==> signed@[j].0@ == votes@[j].0@ && signed@[j].1@ == votes@[j].1@,
            decreases votes@.len() - i,
        {
            let (key, sig) = votes[i];
            signed.push((key.0, sig.flatten()));
            i = i + 1;
        }
        proof {
            if forall|i: int| 0 <= i < votes@.len() ==> ed25519_verify_strict(digest@, #[trigger] votes@[i].0@, votes@[i].1@)
                && ed25519_key_torsion_free(votes@[i].0@) {
                assert forall|i: int| 0 <= i < signed@.len() implies ed25519_verify_strict(digest@, #[trigger] signed@[i].0@, signed@[i].1@)
                    && ed25519_key_torsion_free(signed@[i].0@) by {
                    assert(ed25519_verify_strict(digest@, votes@[i].0@, votes@[i].1@));
                }
            }
        }
        let r = ed25519_verify_batch(digest.0.as_slice(), signed.as_slice());
        proof {
            if r is Ok {
                assert forall|i: int| 0 <= i < votes@.len() implies ed25519_key_decompresses(#[trigger] votes@[i].0@)
                    && !signature_scalar_too_high(votes@[i].1@) by {
                    assert(signed@[i].0@ == votes@[i].0@ && signed@[i].1@ == votes@[i].1@);
                }
            }
        }
        r
    }
}


// ---------------------------------------------------------------------------
// Threshold signatures (common coin)
// ---------------------------------------------------------------------------

/// A threshold public key set (`threshold_crypto::PublicKeySet`), held in its
/// bincode encoding. Its bytes never announce an empty list of coefficients
/// (see `announces_no_coefficients`).
pub struct TssPublicKeySet {
    pub(crate) bytes: Vec<u8>,
}

impl View for TssPublicKeySet {
    type V = Seq<u8>;

    /// The bincode bytes of the key set.
    closed spec fn view(&self) -> Seq<u8> {
        self.bytes@
    }
}

/// Whether bytes start with the bincode encoding of an empty list: bincode
/// (fixed-width integers, little endian, as `bincode::deserialize` uses it)
/// writes the coefficients of a key set's commitment as a `u64` count, then
/// the points. Such bytes decode to a key set with no coefficients, on which
/// `PublicKeySet::combine_signatures` panics (`Commitment::degree` computes
/// the count minus one). Any other bytes either do not decode or decode to a
/// key set with at least one coefficient.
pub open spec fn announces_no_coefficients(bytes: Seq<u8>) -> bool {
    bytes.len() >= 8 && forall|i: int| 0 <= i < 8 ==> bytes[i] == 0u8
}

/// Whether the signature share (`threshold_crypto::SignatureShare` in its
/// 96-byte form) verifies on `message` under key share `id` of the key set.
pub uninterp spec fn tss_share_verifies(pk_set: Seq<u8>, id: usize, share: Seq<u8>, message: Seq<u8>) -> bool;

/// The 96 bytes of the signature that `PublicKeySet::combine_signatures`
/// interpolates from the first threshold + 1 (id, share) pairs, taken in
/// order; `None` when it refuses them (too few shares) or a share or the
/// key set does not decode.
pub uninterp spec fn tss_combined(pk_set: Seq<u8>, shares: Seq<(usize, [u8; 96])>) -> Option<Seq<u8>>;

/// Decodes the key set (bincode) and the share
/// (`threshold_crypto::SignatureShare::from_bytes`), and calls
/// `PublicKeySet::public_key_share(id).verify(share, message)`. Trusted: the
/// result is a function of the bytes, the id and the message; it is `false`
/// when either decoding fails.
#[verifier::external_body]
fn tss_verify_share(pk_set: &[u8], id: usize, share: &[u8; 96], message: &[u8]) -> (ok: bool)
    ensures
        ok == tss_share_verifies(pk_set@, id, share@, message@),
{
    let pks: threshold_crypto::PublicKeySet = match bincode::deserialize(pk_set) {
        Ok(p) => p,
        Err(_) => return false,
    };
    match threshold_crypto::SignatureShare::from_bytes(share) {
        Ok(s) => pks.public_key_share(id).verify(&s, message),
        Err(_) => false,
    }
}

/// Decodes the key set (bincode) and the shares, and calls
/// `PublicKeySet::combine_signatures` on the (id, share) pairs in the given
/// order. Trusted: the result is a function of the key set and the pairs.
/// Bytes that announce no coefficients are left out: the call panics on them.
#[verifier::external_body]
fn tss_combine(pk_set: &[u8], shares: &[(usize, [u8; 96])]) -> (sig: Option<[u8; 96]>)
    requires
        !announces_no_coefficients(pk_set@),
    ensures
        sig is Some <==> tss_combined(pk_set@, shares@) is Some,
        sig is Some ==> sig->0@ == tss_combined(pk_set@, shares@)->0,
{
    let pks: threshold_crypto::PublicKeySet = bincode::deserialize(pk_set).ok()?;
    let mut parsed: Vec<(usize, threshold_crypto::SignatureShare)> = Vec::new();
    for (id, bytes) in shares {
        parsed.push((*id, threshold_crypto::SignatureShare::from_bytes(bytes).ok()?));
    }
    pks.combine_signatures(parsed.iter().map(|(id, s)| (*id, s))).ok().map(|s| s.to_bytes())
}

/// A threshold secret key share (`threshold_crypto::SecretKeyShare`), held
/// in its bincode encoding.
pub struct TssSecretShare {
    pub bytes: Vec<u8>,
}

/// Whether the bytes decode (bincode) as a `threshold_crypto::SecretKeyShare`.
pub uninterp spec fn tss_share_decodes(secret: Seq<u8>) -> bool;

/// The 96 bytes of the signature share that a secret key share gives
/// `message`.
pub uninterp spec fn tss_share_signature(secret: Seq<u8>, message: Seq<u8>) -> Seq<u8>;

/// Decodes a `threshold_crypto::SecretKeyShare` with `bincode::deserialize`.
/// Trusted: tells whether the bytes decode.
#[verifier::external_body]
fn tss_check_share(secret: &[u8]) -> (ok: bool)
    ensures
        ok == tss_share_decodes(secret@),
{
    bincode::deserialize::<threshold_crypto::SecretKeyShare>(secret).is_ok()
}

/// Decodes the key share (bincode) and calls `SecretKeyShare::sign` (BLS,
/// deterministic) on `message`. Trusted: it signs exactly when the share
/// decodes, and the share is a function of the bytes and the message.
#[verifier::external_body]
fn tss_sign(secret: &[u8], message: &[u8]) -> (sig: Option<[u8; 96]>)
    ensures
        sig is Some <==> tss_share_decodes(secret@),
        sig matches Some(s) ==> s@ == tss_share_signature(secret@, message@),
{
    let share: threshold_crypto::SecretKeyShare = bincode::deserialize(secret).ok()?;
    Some(share.sign(message).to_bytes())
}

/// Signs for a node: with its ed25519 key pair, which loads, and, when the
/// node has one, with its threshold key share, which decodes.
pub struct SignatureService {
    secret: SecretKey,
    tss_secret: Option<TssSecretShare>,
}

impl SignatureService {
    #[verifier::type_invariant]
    spec fn keys_load(self) -> bool {
        &&& ed25519_keypair_loads(self.secret@)
        &&& self.tss_secret matches Some(share) ==> tss_share_decodes(share.bytes@)
    }

    /// The bytes of the key pair that the service signs with.
    pub closed spec fn key(self) -> Seq<u8> {
        self.secret@
    }

    /// The bytes of the threshold key share, if the service has one.
    pub closed spec fn share(self) -> Option<Seq<u8>> {
        match self.tss_secret {
            Some(s) => Some(s.bytes@),
            None => None,
        }
    }

    /// A service that signs with `secret` and, if given, `tss_secret`;
    /// `None` when the key pair does not load or the share does not decode.
    pub fn new(secret: SecretKey, tss_secret: Option<TssSecretShare>) -> (s: Option<SignatureService>)
        ensures
            s is Some <==> ed25519_keypair_loads(secret@) && (tss_secret matches Some(t) ==> tss_share_decodes(t.bytes@)),
            s matches Some(service) ==> service.key() == secret@ && service.share() == match tss_secret {
                Some(t) => Some(t.bytes@),
                None => None::<Seq<u8>>,
            },
    {
        if !ed25519_check_keypair(&secret.0) {
            return None;
        }
        let ok = match &tss_secret {
            Some(t) => tss_check_share(t.bytes.as_slice()),
            None => true,
        };
        if !ok {
            return None;
        }
        Some(SignatureService { secret, tss_secret })
    }

    /// Whether the node has a threshold key share.
    pub fn has_tss_share(&self) -> (b: bool)
        ensures
            b == self.share() is Some,
    {
        self.tss_secret.is_some()
    }

    /// The signature of the node on `digest`.
    pub fn request_signature(&self, digest: Digest) -> (sig: Signature)
        ensures
            ed25519_keypair_loads(self.key()),
            sig@ == ed25519_signature(self.key(), digest@),
    {
        proof {
            use_type_invariant(self);
        }
        Signature::new(&digest, &self.secret)
    }

    /// The threshold signature share of the node on `digest`, `None` when
    /// the node has no key share.
    pub fn request_tss_signature(&self, digest: Digest) -> (sig: Option<[u8; 96]>)
        ensures
            sig is Some <==> self.share() is Some,
            sig matches Some(s) ==> s@ == tss_share_signature(self.share()->0, digest@),
    {
        proof {
            use_type_invariant(self);
        }
        match &self.tss_secret {
            Some(t) => tss_sign(t.bytes.as_slice(), digest.0.as_slice()),
            None => None,
        }
    }
}

impl TssPublicKeySet {
    #[verifier::type_invariant]
    spec fn has_coefficients(self) -> bool {
        !announces_no_coefficients(self.bytes@)
    }

    /// The key set held in `bytes`, refused (`None`) when the bytes announce
    /// no coefficients.
    pub fn new(bytes: Vec<u8>) -> (s: Option<TssPublicKeySet>)
        ensures
            s is Some <==> !announces_no_coefficients(bytes@),
            s matches Some(k) ==> k@ == bytes@,
    {
        if bytes.len() < 8 {
            return Some(TssPublicKeySet { bytes });
        }
        let mut i: usize = 0;
        while i < 8
            invariant
                i <= 8,
                bytes@.len() >= 8,
                forall|j: int| 0 <= j < i ==> bytes@[j] == 0u8,
            decreases 8 - i,
        {
            if bytes[i] != 0 {
                return Some(TssPublicKeySet { bytes });
            }
            i = i + 1;
        }
        None
    }

    /// The bytes of the key set.
    pub fn bytes(&self) -> (b: &Vec<u8>)
        ensures
            b@ == self@,
    {
        &self.bytes
    }

    /// Checks a signature share of member `id` on `message`.
    pub fn verify_share(&self, id: usize, share: &[u8; 96], message: &Digest) -> (ok: bool)
        ensures
            ok == tss_share_verifies(self@, id, share@, message@),
    {
        tss_verify_share(self.bytes.as_slice(), id, share, message.0.as_slice())
    }

    /// Combines (id, share) pairs, taken in order, into a full signature.
    pub fn combine(&self, shares: &Vec<(usize, [u8; 96])>) -> (sig: Option<[u8; 96]>)
        ensures
            sig is Some <==> tss_combined(self@, shares@) is Some,
            sig is Some ==> sig->0@ == tss_combined(self@, shares@)->0,
    {
        proof {
            use_type_invariant(self);
        }
        tss_combine(self.bytes.as_slice(), shares.as_slice())
    }
}

/// The value of bytes read as a big-endian number.
pub open spec fn be_value(s: Seq<u8>) -> nat
    decreases s.len(),
{
    if s.len() == 0 {
        0
    } else {
        be_value(s.drop_last()) * 256 + s.last() as nat
    }
}

/// The coin a combined threshold signature gives: its first eight bytes read
/// as a big-endian number, modulo 2.
pub open spec fn coin_of(sig: Seq<u8>) -> nat {
    be_value(sig.subrange(0, 8)) % 2
}

/// The parity of a big-endian number is that of its last byte.
proof fn lemma_be_parity(s: Seq<u8>)
    requires
        s.len() > 0,
    ensures
        be_value(s) % 2 == s.last() % 2,
{
    let v = be_value(s.drop_last());
    assert((v * 256 + s.last()) % 2 == s.last() % 2) by (nonlinear_arith);
}

/// The coin of a combined signature.
pub fn coin_from_signature(sig: &[u8; 96]) -> (coin: usize)
    ensures
        coin as nat == coin_of(sig@),
        coin < 2,
{
    proof {
        lemma_be_parity(sig@.subrange(0, 8));
    }
    (sig[7] % 2) as usize
}

} // verus!
