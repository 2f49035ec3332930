//! Self-sovereign identities: a public key bound to a single-use seal,
//! certificate chains that revoke and rebind it, and the armored container in
//! which keys and certificates are stored and exchanged.
//!
//! - [`algo`]: what a signature algorithm offers, and the one provided.
//! - [`seal`] and [`proofs`]: references to ledger outputs, and evidence that
//!   one was spent.
//! - [`identity`] and [`sigs`]: identities, their certificates with the chain
//!   of revocations, and signatures that carry their signer's certificate.
//! - [`bindle`]: the envelope around keys and certificates, as a binary file
//!   and as an armored block, with the law that what was written is read
//!   back.
//! - [`armor`], [`text85`] and [`encoding`]: the text block, its payload and
//!   the binary encoding underneath.
//!
//! Every function is verified against its contract. Calls into other crates
//! stand behind small functions whose contracts are taken on trust; each of
//! them says which call it makes and what it claims of it.

pub mod encoding;
pub mod armor;
pub mod text85;
pub mod algo;
pub mod bindle;
pub mod seal;
pub mod proofs;
pub mod identity;
pub mod sigs;

pub use algo::ristretto25519::RistrettoPk;
pub use algo::ristretto25519::RistrettoSig;
pub use algo::ristretto25519::RistrettoSk;
pub use algo::Digest;
pub use algo::Fingerprint;
pub use algo::InvalidKeyEncoding;
pub use algo::Pk;
pub use algo::Sig;
pub use algo::Sk;
pub use armor::Armor;
pub use bindle::Bindle;
pub use bindle::BindleContent;
pub use bindle::BindleId;
pub use bindle::BindleParseError;
pub use bindle::DeserializeError;
pub use bindle::LoadError;
pub use encoding::DecodeError;
pub use encoding::StrictCodec;
pub use identity::ChainVerificationFailure;
pub use identity::IdCert;
pub use identity::Identity;
pub use identity::Revocation;
pub use identity::RevocationError;
pub use identity::Ssi;
pub use proofs::BpProof;
pub use proofs::Proof;
pub use proofs::SealTx;
pub use proofs::WitnessTx;
pub use seal::Ledger;
pub use seal::Outpoint;
pub use seal::Seal;
pub use seal::SealParseError;
pub use sigs::SigCert;
pub use sigs::Signature;
