use vstd::prelude::*;
use crate::config::SeqNumber;
use crate::crypto::{Digest, PublicKey};

verus! {

/// Why a message or a step of the protocol was refused.
#[derive(Debug, Clone)]
pub enum ConsensusError {
    /// A signature did not verify.
    InvalidSignature,
    /// A threshold signature share did not verify.
    InvalidThresholdSignature(PublicKey),
    /// The author holds no stake.
    UnknownAuthority(PublicKey),
    /// An authority voted twice for one QC.
    AuthorityReuseinQC(PublicKey),
    /// An authority sent two timeouts for one TC.
    AuthorityReuseinTC(PublicKey),
    /// An authority voted twice in one ABA phase.
    AuthorityReuseinABA(PublicKey, u8),
    /// An authority sent two coin shares for one ABA round.
    AuthorityReuseinCoin(PublicKey),
    /// A QC (or an ABA proof) without a quorum of stake.
    QCRequiresQuorum,
    /// A TC without a quorum of stake.
    TCRequiresQuorum,
    /// An ABA message names a phase that carries no values.
    InvalidPhase(u8),
    /// A block proposed on a chain by another authority than its owner.
    WrongAuthor { digest: Digest, author: PublicKey, height: SeqNumber },
    /// The block store failed.
    StoreError(String),
    /// Bytes read back from the store did not decode.
    SerializationError(String),
}

/// The result of a step of the protocol.
pub type ConsensusResult<T> = Result<T, ConsensusError>;

} // verus!
