//! Identities and their certificates. An identity is a public key bound to a
//! seal. A certificate holds the first identity, a signature that its key
//! made of it, and the revocations that replaced it since, oldest first.

use vstd::prelude::*;
use vstd::utf8::is_ascii_chars;
use crate::algo::Digest;
use crate::algo::Fingerprint;
use crate::algo::ristretto25519::RistrettoPk;
use crate::algo::Pk;
use crate::algo::Sk;
use crate::armor::append;
use crate::armor::ascii;
use crate::armor::ascii_bytes;
use crate::armor::ascii_string;
use crate::armor::printable;
use crate::bindle::BindleContent;
use crate::bindle::BindleId;
use crate::encoding::decode_list;
use crate::encoding::decode_pair;
use crate::encoding::lemma_after;
use crate::encoding::lemma_concat;
use crate::encoding::lemma_pair_frame;
use crate::encoding::lemma_skip;
use crate::encoding::lemma_split;
use crate::encoding::pair_frame;
use crate::encoding::encode_list;
use crate::encoding::is_list_encodable;
use crate::encoding::lemma_list_frame;
use crate::encoding::lemma_list_same;
use crate::encoding::lemma_same_prefix;
use crate::encoding::list_encodable;
use crate::encoding::list_encoding;
use crate::encoding::list_frame;
use crate::encoding::Bound;
use crate::encoding::DecodeError;
use crate::encoding::StrictCodec;
use crate::proofs::Proof;
use crate::seal::Seal;

verus! {

/// The largest number of bytes of an identity's encoding.
pub const MAX_IDENTITY_LEN: usize = 256;

/// The SHA-256 hash of a byte string.
pub uninterp spec fn sha256(data: Seq<u8>) -> Seq<u8>;

/// Hashes `data` with `commit_verify::Sha256`, through `new`, `update` and
/// `finalize` of its `Digest`, and names the hash.
#[verifier::external_body]
fn sha256_of(data: &[u8]) -> (hash: [u8; 32])
    ensures
        hash@ == sha256(data@),
{
    let mut hasher = <commit_verify::Sha256 as commit_verify::Digest>::new();
    commit_verify::Digest::update(&mut hasher, data);
    commit_verify::Digest::finalize(hasher).into()
}

/// Who someone is: a public key, and the seal whose closing revokes it.
#[derive(Clone, Copy, PartialEq, Eq, Debug)]
pub struct Identity<K: Pk = RistrettoPk> {
    pub key: K,
    pub seal: Seal,
}

/// One step of a certificate's chain: the identity that takes over, and the
/// proof that the seal of the identity before it was closed.
#[derive(Clone, PartialEq, Eq, Debug)]
pub struct Revocation<K: Pk = RistrettoPk> {
    pub new_identity: Identity<K>,
    pub revocation_proof: Proof,
}

/// A certificate: the first identity, signed by its own key, and the chain of
/// revocations since. Revocations are added at the end and never taken out
/// or moved.
pub struct IdCert<K: Pk = RistrettoPk> {
    pub revocations: Vec<Revocation<K>>,
    pub genesis_id: Identity<K>,
    pub genesis_sig: <K::Sk as Sk>::Sig,
}

/// An identity in the hands of its owner: the secret key, and the
/// certificate of the identity that the key stands for.
pub struct Ssi<K: Pk = RistrettoPk> {
    pub sk: K::Sk,
    pub cert: IdCert<K>,
}

/// Why a revocation was not added to a certificate.
#[derive(Clone, Copy, PartialEq, Eq, Debug, Structural)]
pub enum RevocationError {
    /// The proof does not close the seal of the current identity.
    SealNotClosed,
    /// The chain holds as many revocations as its encoding admits.
    ChainFull,
}

/// Why a certificate was found invalid.
#[derive(Clone, Copy, PartialEq, Eq, Debug, Structural)]
pub enum ChainVerificationFailure {
    /// The signature of the first identity is not one of its key.
    Genesis,
    /// A revocation's proof does not close the seal before it, or was not
    /// confirmed. The chain is valid up to the entry with the given number,
    /// where 0 is the first identity, and no further.
    Revocation { valid_up_to: usize },
}

impl<K: Pk> Identity<K> {
    /// The digest of the identity: the hash of its encoding.
    pub open spec fn digest_bytes(&self) -> Seq<u8> {
        sha256(self.encoding())
    }

    /// An identity's encoding takes at most 256 bytes.
    pub proof fn lemma_encoding_len(&self)
        ensures
            self.encoding().len() <= MAX_IDENTITY_LEN,
    {
        self.key.lemma_key_len();
    }

    /// The text of the identity: `ssi:` and the text of its key.
    pub open spec fn text(&self) -> Seq<u8> {
        ascii("ssi:"@) + self.key.text()
    }

    /// The text of the identity with its seal: the text of the identity, an
    /// at sign and the text of the seal.
    pub open spec fn text_with_seal(&self) -> Seq<u8> {
        self.text() + ascii("@"@) + self.seal.text()
    }

    /// The fingerprint of the identity's key.
    pub fn fingerprint(&self) -> (fp: Fingerprint)
        ensures
            fp.0@ == self.key.encoding().subrange(0, 4),
    {
        self.key.fingerprint()
    }

    /// Writes the identity as text, which is printable.
    pub fn to_text(&self) -> (text: Vec<u8>)
        ensures
            text@ == self.text(),
            printable(text@),
    {
        proof {
            reveal_strlit("ssi:");
        }
        let mut text: Vec<u8> = Vec::new();
        append(&mut text, ascii_bytes("ssi:"));
        let key: Vec<u8> = self.key.to_text();
        append(&mut text, key.as_slice());
        text
    }

    /// Writes the identity as text.
    pub fn to_string(&self) -> (text: String)
        ensures
            is_ascii_chars(text@),
            ascii(text@) == self.text(),
    {
        ascii_string(self.to_text())
    }

    /// Writes the identity and its seal as text.
    pub fn to_string_with_seal(&self) -> (text: String)
        ensures
            is_ascii_chars(text@),
            ascii(text@) == self.text_with_seal(),
    {
        proof {
            reveal_strlit("@");
        }
        let mut text: Vec<u8> = self.to_text();
        append(&mut text, ascii_bytes("@"));
        let seal: Vec<u8> = self.seal.to_text();
        append(&mut text, seal.as_slice());
        ascii_string(text)
    }

    /// The digest of the identity: what is signed when it is certified.
    pub fn digest(&self) -> (digest: Digest)
        requires
            self.encodable(),
        ensures
            digest.0@ == self.digest_bytes(),
    {
        let mut bytes: Vec<u8> = Vec::new();
        self.strict_encode(&mut bytes);
        proof {
            assert(bytes@ =~= self.encoding());
        }
        Digest(sha256_of(bytes.as_slice()))
    }
}

impl<K: Pk> StrictCodec for Identity<K> {
    open spec fn encoding(&self) -> Seq<u8> {
        self.key.encoding() + self.seal.encoding()
    }

    open spec fn encodable(&self) -> bool {
        self.key.encodable()
    }

    open spec fn frame(bytes: Seq<u8>) -> Result<nat, DecodeError> {
        match K::frame(bytes) {
            Err(e) => Err(e),
            Ok(a) => match Seal::frame(bytes.skip(a as int)) {
                Err(e) => Err(e),
                Ok(b) => Ok(a + b),
            },
        }
    }

    proof fn lemma_frame(&self, rest: Seq<u8>) {
        let a = self.key.encoding();
        let b = self.seal.encoding();
        let text = self.encoding() + rest;
        self.key.lemma_frame(b + rest);
        assert(text =~= a + (b + rest));
        self.seal.lemma_frame(rest);
        assert(text.skip(a.len() as int) =~= b + rest);
    }

    fn is_encodable(&self) -> (ok: bool) {
        self.key.is_encodable()
    }

    fn strict_encode(&self, out: &mut Vec<u8>) {
        self.key.strict_encode(out);
        self.seal.strict_encode(out);
        proof {
            assert(out@ =~= old(out)@ + self.encoding());
        }
    }

    fn strict_decode(input: &[u8], at: usize) -> (r: Result<(Self, usize), DecodeError>) {
        let (key, mid) = match K::strict_decode(input, at) {
            Ok(v) => v,
            Err(e) => {
                return Err(e);
            },
        };
        proof {
            assert(input@.skip(at as int).skip(mid - at) =~= input@.skip(mid as int));
        }
        let (seal, end) = match Seal::strict_decode(input, mid) {
            Ok(v) => v,
            Err(e) => {
                return Err(e);
            },
        };
        let identity = Identity { key, seal };
        proof {
            assert(identity.encoding() =~= input@.subrange(at as int, end as int));
        }
        Ok((identity, end))
    }
}

impl<K: Pk> StrictCodec for Revocation<K> {
    open spec fn encoding(&self) -> Seq<u8> {
        self.new_identity.encoding() + self.revocation_proof.encoding()
    }

    open spec fn encodable(&self) -> bool {
        self.new_identity.encodable() && self.revocation_proof.encodable()
    }

    open spec fn frame(bytes: Seq<u8>) -> Result<nat, DecodeError> {
        match Identity::<K>::frame(bytes) {
            Err(e) => Err(e),
            Ok(a) => match Proof::frame(bytes.skip(a as int)) {
                Err(e) => Err(e),
                Ok(b) => Ok(a + b),
            },
        }
    }

    proof fn lemma_frame(&self, rest: Seq<u8>) {
        let a = self.new_identity.encoding();
        let b = self.revocation_proof.encoding();
        let text = self.encoding() + rest;
        self.new_identity.lemma_frame(b + rest);
        assert(text =~= a + (b + rest));
        self.revocation_proof.lemma_frame(rest);
        assert(text.skip(a.len() as int) =~= b + rest);
    }

    fn is_encodable(&self) -> (ok: bool) {
        self.new_identity.is_encodable() && self.revocation_proof.is_encodable()
    }

    fn strict_encode(&self, out: &mut Vec<u8>) {
        self.new_identity.strict_encode(out);
        self.revocation_proof.strict_encode(out);
        proof {
            assert(out@ =~= old(out)@ + self.encoding());
        }
    }

    fn strict_decode(input: &[u8], at: usize) -> (r: Result<(Self, usize), DecodeError>) {
        let (new_identity, mid) = match Identity::<K>::strict_decode(input, at) {
            Ok(v) => v,
            Err(e) => {
                return Err(e);
            },
        };
        proof {
            assert(input@.skip(at as int).skip(mid - at) =~= input@.skip(mid as int));
        }
        let (revocation_proof, end) = match Proof::strict_decode(input, mid) {
            Ok(v) => v,
            Err(e) => {
                return Err(e);
            },
        };
        let revocation = Revocation { new_identity, revocation_proof };
        proof {
            assert(revocation.encoding() =~= input@.subrange(at as int, end as int));
        }
        Ok((revocation, end))
    }
}

impl<K: Pk> IdCert<K> {
    /// The number of entries of the chain: the first identity and one for
    /// each revocation.
    pub open spec fn entries(&self) -> nat {
        self.revocations@.len() + 1
    }

    /// The identity at entry `i` of the chain: the first identity at 0, and
    /// after it the identities that the revocations brought in.
    pub open spec fn entry(&self, i: int) -> Identity<K> {
        if i <= 0 {
            self.genesis_id
        } else {
            self.revocations@[i - 1].new_identity
        }
    }

    /// The identity that is in force: the one of the last revocation, or the
    /// first identity where nothing was revoked.
    pub open spec fn current(&self) -> Identity<K> {
        self.entry(self.revocations@.len() as int)
    }

    /// Whether the first identity carries a signature of its own key.
    pub open spec fn genesis_valid(&self) -> bool {
        self.genesis_id.key.accepts(self.genesis_id.digest_bytes(), self.genesis_sig)
    }

    /// Whether revocation `i` closes the seal of the entry before it.
    pub open spec fn link_closes(&self, i: int) -> bool {
        self.revocations@[i].revocation_proof.closes(self.entry(i).seal)
    }

    /// A certificate for an identity and the signature that its key made of
    /// it, with nothing revoked.
    pub fn new(identity: Identity<K>, sig: <K::Sk as Sk>::Sig) -> (cert: Self)
        ensures
            cert.revocations@.len() == 0,
            cert.genesis_id == identity,
            cert.genesis_sig == sig,
            cert.current() == identity,
    {
        IdCert { revocations: Vec::new(), genesis_id: identity, genesis_sig: sig }
    }

    /// The identity that is in force.
    pub fn identity(&self) -> (identity: Identity<K>)
        ensures
            identity == self.current(),
    {
        let n: usize = self.revocations.len();
        if n == 0 {
            self.genesis_id
        } else {
            self.revocations[n - 1].new_identity
        }
    }

    /// The fingerprint of the key that is in force, never that of a key
    /// that was revoked.
    pub fn fingerprint(&self) -> (fp: Fingerprint)
        ensures
            fp.0@ == self.current().key.encoding().subrange(0, 4),
    {
        self.identity().fingerprint()
    }

    /// Revokes the identity in force in favour of `new_identity`.
    ///
    /// The proof has to close the seal of the identity in force, and the
    /// chain must have room. Then the revocation is added at the end of the
    /// chain. Otherwise the certificate stays as it is.
    pub fn revoke(&mut self, new_identity: Identity<K>, proof_: Proof) -> (r: Result<
        (),
        RevocationError,
    >)
        ensures
            final(self).genesis_id == old(self).genesis_id,
            final(self).genesis_sig == old(self).genesis_sig,
            match r {
                Ok(()) => {
                    &&& proof_.closes(old(self).current().seal)
                    &&& old(self).revocations@.len() < Bound::Small.max()
                    &&& final(self).revocations@ == old(self).revocations@.push(
                        Revocation { new_identity, revocation_proof: proof_ },
                    )
                    &&& final(self).current() == new_identity
                },
                Err(e) => {
                    &&& final(self).revocations@ == old(self).revocations@
                    &&& e == if !proof_.closes(old(self).current().seal) {
                        RevocationError::SealNotClosed
                    } else {
                        RevocationError::ChainFull
                    }
                    &&& !proof_.closes(old(self).current().seal) || old(self).revocations@.len()
                        >= Bound::Small.max()
                },
            },
    {
        let current: Identity<K> = self.identity();
        if !proof_.is_closing(&current.seal) {
            return Err(RevocationError::SealNotClosed);
        }
        if self.revocations.len() >= 65535 {
            return Err(RevocationError::ChainFull);
        }
        self.revocations.push(Revocation { new_identity, revocation_proof: proof_ });
        Ok(())
    }

    /// The number of the last entry up to which the chain holds: every
    /// revocation before it closes the seal before itself and was confirmed.
    pub open spec fn valid_up_to(&self, confirmed: Seq<bool>) -> int
        decreases self.revocations@.len(),
    {
        Self::links_valid(self.revocations@, self.genesis_id, confirmed, 0)
    }

    /// The number of revocations from `from` on that hold in a row, added to
    /// `from`.
    pub open spec fn links_valid(
        revocations: Seq<Revocation<K>>,
        genesis: Identity<K>,
        confirmed: Seq<bool>,
        from: int,
    ) -> int
        decreases revocations.len() - from,
    {
        if from < 0 || from >= revocations.len() || from >= confirmed.len() {
            from
        } else {
            let before = if from == 0 {
                genesis
            } else {
                revocations[from - 1].new_identity
            };
            if revocations[from].revocation_proof.closes(before.seal) && confirmed[from] {
                Self::links_valid(revocations, genesis, confirmed, from + 1)
            } else {
                from
            }
        }
    }

    /// Verifies the certificate in full: the signature of the first identity,
    /// then each revocation in order against the seal of the entry before
    /// it. `confirmed` holds, for each revocation, whether a ledger client
    /// found its proof confirmed.
    ///
    /// A failure leaves the entries before it valid, and says which is the
    /// last of them.
    pub fn verify(&self, confirmed: &Vec<bool>) -> (r: Result<(), ChainVerificationFailure>)
        requires
            self.genesis_id.encodable(),
            confirmed@.len() == self.revocations@.len(),
        ensures
            match r {
                Ok(()) => self.genesis_valid() && self.valid_up_to(confirmed@)
                    == self.revocations@.len(),
                Err(ChainVerificationFailure::Genesis) => !self.genesis_valid(),
                Err(ChainVerificationFailure::Revocation { valid_up_to }) => {
                    &&& self.genesis_valid()
                    &&& valid_up_to == self.valid_up_to(confirmed@)
                    &&& valid_up_to < self.revocations@.len()
                },
            },
    {
        let digest: Digest = self.genesis_id.digest();
        if !self.genesis_id.key.verify(&digest, &self.genesis_sig) {
            return Err(ChainVerificationFailure::Genesis);
        }
        let n: usize = self.revocations.len();
        let mut i: usize = 0;
        while i < n
            invariant
                i <= n,
                n == self.revocations@.len(),
                n == confirmed@.len(),
                self.genesis_valid(),
                self.valid_up_to(confirmed@) == Self::links_valid(
                    self.revocations@,
                    self.genesis_id,
                    confirmed@,
                    i as int,
                ),
            decreases n - i,
        {
            let before: Seal = if i == 0 {
                self.genesis_id.seal
            } else {
                self.revocations[i - 1].new_identity.seal
            };
            let holds: bool = self.revocations[i].revocation_proof.is_closing(&before)
                && confirmed[i];
            proof {
                let next = Self::links_valid(
                    self.revocations@,
                    self.genesis_id,
                    confirmed@,
                    i as int,
                );
                if holds {
                    assert(next == Self::links_valid(
                        self.revocations@,
                        self.genesis_id,
                        confirmed@,
                        i + 1,
                    ));
                } else {
                    assert(next == i);
                }
            }
            if !holds {
                return Err(ChainVerificationFailure::Revocation { valid_up_to: i });
            }
            i += 1;
        }
        proof {
            assert(Self::links_valid(self.revocations@, self.genesis_id, confirmed@, n as int)
                == n);
        }
        Ok(())
    }
}

impl<K: Pk> StrictCodec for IdCert<K> {
    open spec fn encoding(&self) -> Seq<u8> {
        list_encoding(Bound::Small, self.revocations@) + self.genesis_id.encoding()
            + self.genesis_sig.encoding()
    }

    open spec fn encodable(&self) -> bool {
        &&& list_encodable(Bound::Small, self.revocations@)
        &&& self.genesis_id.encodable()
        &&& self.genesis_sig.encodable()
    }

    open spec fn frame(bytes: Seq<u8>) -> Result<nat, DecodeError> {
        match list_frame::<Revocation<K>>(Bound::Small, bytes) {
            Err(e) => Err(e),
            Ok(a) => match pair_frame::<Identity<K>, <K::Sk as Sk>::Sig>(bytes.skip(a as int)) {
                Err(e) => Err(e),
                Ok(b) => Ok(a + b),
            },
        }
    }

    proof fn lemma_frame(&self, rest: Seq<u8>) {
        let a = list_encoding(Bound::Small, self.revocations@);
        let i = self.genesis_id.encoding();
        let s = self.genesis_sig.encoding();
        lemma_concat(a, i, s);
        lemma_concat(a, i + s, rest);
        lemma_after(a, i + s + rest);
        lemma_list_frame(Bound::Small, self.revocations@, i + s + rest);
        lemma_pair_frame(self.genesis_id, self.genesis_sig, rest);
    }

    fn is_encodable(&self) -> (ok: bool) {
        is_list_encodable(Bound::Small, &self.revocations) && self.genesis_id.is_encodable()
            && self.genesis_sig.is_encodable()
    }

    fn strict_encode(&self, out: &mut Vec<u8>) {
        encode_list(Bound::Small, &self.revocations, out);
        self.genesis_id.strict_encode(out);
        self.genesis_sig.strict_encode(out);
        proof {
            assert(out@ =~= old(out)@ + self.encoding());
        }
    }

    #[verifier::rlimit(40)]
    fn strict_decode(input: &[u8], at: usize) -> (r: Result<(Self, usize), DecodeError>) {
        let (revocations, mid) = match decode_list::<Revocation<K>>(Bound::Small, input, at) {
            Ok(v) => v,
            Err(e) => {
                return Err(e);
            },
        };
        proof {
            lemma_skip(input@, at as int, mid - at);
        }
        let (genesis_id, genesis_sig, end) = match decode_pair::<
            Identity<K>,
            <K::Sk as Sk>::Sig,
        >(input, mid) {
            Ok(v) => v,
            Err(e) => {
                return Err(e);
            },
        };
        let cert = IdCert { revocations, genesis_id, genesis_sig };
        proof {
            lemma_split(input@, at as int, mid as int, end as int);
            lemma_concat(
                list_encoding(Bound::Small, cert.revocations@),
                cert.genesis_id.encoding(),
                cert.genesis_sig.encoding(),
            );
        }
        Ok((cert, end))
    }
}

impl<K: Pk> BindleContent for IdCert<K> {
    type Id = K;

    const MAGIC: [u8; 4] = [83, 83, 73, 68];

    const PLATE_TITLE: &'static str = "SSID IDENTITY CERTIFICATE";

    open spec fn content_id(&self) -> K {
        self.current().key
    }

    open spec fn mnemonic(&self) -> Option<Seq<u8>> {
        None
    }

    open spec fn headers(&self) -> Seq<Seq<u8>> {
        Seq::empty()
    }

    proof fn lemma_same_id(&self, other: &Self) {
        let empty = Seq::<u8>::empty();
        let tail_a = self.genesis_id.encoding() + self.genesis_sig.encoding();
        let tail_b = other.genesis_id.encoding() + other.genesis_sig.encoding();
        assert(self.encoding() =~= list_encoding(Bound::Small, self.revocations@) + tail_a);
        assert(other.encoding() =~= list_encoding(Bound::Small, other.revocations@) + tail_b);
        lemma_list_same(Bound::Small, self.revocations@, other.revocations@, tail_a, tail_b);
        let n = self.revocations@.len() as int;
        if n == 0 {
            lemma_same_prefix(
                self.genesis_id,
                other.genesis_id,
                self.genesis_sig.encoding(),
                other.genesis_sig.encoding(),
            );
            lemma_same_key(self.genesis_id, other.genesis_id);
        } else {
            let a = self.revocations@[n - 1];
            let b = other.revocations@[n - 1];
            assert(a.encodable() && b.encodable());
            assert(a.encoding() == b.encoding());
            lemma_same_prefix(
                a.new_identity,
                b.new_identity,
                a.revocation_proof.encoding(),
                b.revocation_proof.encoding(),
            );
            lemma_same_key(a.new_identity, b.new_identity);
        }
    }

    proof fn lemma_plate_title() {
        reveal_strlit("SSID IDENTITY CERTIFICATE");
    }

    fn bindle_id(&self) -> (id: K) {
        proof {
            if self.revocations@.len() > 0 {
                assert(self.revocations@[self.revocations@.len() - 1].encodable());
            }
        }
        self.identity().key
    }

    fn bindle_mnemonic(&self) -> (mnemonic: Option<Vec<u8>>) {
        None
    }

    fn bindle_headers(&self) -> (headers: Vec<Vec<u8>>) {
        let headers: Vec<Vec<u8>> = Vec::new();
        proof {
            assert(crate::armor::views(headers@) =~= self.headers());
        }
        headers
    }
}

impl<K: Pk> Ssi<K> {
    /// Whether the secret key is the one of the identity in force.
    pub open spec fn holds_key(&self) -> bool {
        K::public_of(&self.sk) == self.cert.current().key
    }

    /// The handle of a fresh identity bound to `seal`, made with the given
    /// secret key: the certificate holds the key's public key, the seal, and
    /// the signature that the key made of the two.
    pub fn with_key(sk: K::Sk, seal: Seal) -> (ssi: Self)
        ensures
            ssi.sk == sk,
            ssi.holds_key(),
            ssi.cert.revocations@.len() == 0,
            ssi.cert.genesis_id == (Identity { key: K::public_of(&sk), seal }),
            sk.signs(ssi.cert.genesis_id.digest_bytes(), ssi.cert.genesis_sig),
            sk.is_key_pair() ==> ssi.cert.genesis_valid(),
            ssi.cert.encodable(),
    {
        let identity = Identity { key: K::with(&sk), seal };
        let digest: Digest = identity.digest();
        let sig = sk.sign(&digest);
        proof {
            if sk.is_key_pair() {
                K::lemma_sound(&sk, digest.0@, sig);
            }
        }
        Ssi { sk, cert: IdCert::new(identity, sig) }
    }

    /// Makes a new identity bound to `seal`, with a fresh secret key. Returns
    /// `None` where no key could be made.
    pub fn new(seal: Seal) -> (r: Option<Self>)
        ensures
            r matches Some(ssi) ==> {
                &&& ssi.sk.is_key_pair()
                &&& ssi.holds_key()
                &&& ssi.cert.revocations@.len() == 0
                &&& ssi.cert.genesis_id == (Identity { key: K::public_of(&ssi.sk), seal })
                &&& ssi.cert.genesis_valid()
                &&& ssi.cert.encodable()
            },
    {
        match K::Sk::generate() {
            Some(sk) => Some(Ssi::with_key(sk, seal)),
            None => None,
        }
    }

    /// Revokes the identity in force in favour of a new secret key bound to
    /// `seal`.
    ///
    /// The proof has to close the seal of the identity in force, and the
    /// chain must have room. Then the revocation is added at the end of the
    /// chain and the handle holds the new key. Otherwise the handle stays as
    /// it is.
    pub fn revoke(&mut self, sk: K::Sk, seal: Seal, proof_: Proof) -> (r: Result<
        (),
        RevocationError,
    >)
        ensures
            final(self).cert.genesis_id == old(self).cert.genesis_id,
            final(self).cert.genesis_sig == old(self).cert.genesis_sig,
            match r {
                Ok(()) => {
                    &&& proof_.closes(old(self).cert.current().seal)
                    &&& old(self).cert.revocations@.len() < Bound::Small.max()
                    &&& final(self).sk == sk
                    &&& final(self).holds_key()
                    &&& final(self).cert.revocations@ == old(self).cert.revocations@.push(
                        Revocation {
                            new_identity: Identity { key: K::public_of(&sk), seal },
                            revocation_proof: proof_,
                        },
                    )
                },
                Err(e) => {
                    &&& final(self).sk == old(self).sk
                    &&& final(self).cert.revocations@ == old(self).cert.revocations@
                    &&& e == if !proof_.closes(old(self).cert.current().seal) {
                        RevocationError::SealNotClosed
                    } else {
                        RevocationError::ChainFull
                    }
                    &&& !proof_.closes(old(self).cert.current().seal) || old(
                        self,
                    ).cert.revocations@.len() >= Bound::Small.max()
                },
            },
    {
        let identity = Identity { key: K::with(&sk), seal };
        match self.cert.revoke(identity, proof_) {
            Ok(()) => {
                self.sk = sk;
                Ok(())
            },
            Err(e) => Err(e),
        }
    }

    /// The fingerprint of the key that is in force.
    pub fn fingerprint(&self) -> (fp: Fingerprint)
        ensures
            fp.0@ == self.cert.current().key.encoding().subrange(0, 4),
    {
        self.cert.fingerprint()
    }
}

/// A certificate's file starts with `SSID`, and its block is titled
/// `SSID IDENTITY CERTIFICATE`.
pub proof fn lemma_certificate_plate<K: Pk>()
    ensures
        IdCert::<K>::MAGIC@ == seq![83u8, 83u8, 73u8, 68u8],
        IdCert::<K>::MAGIC@ == ascii("SSID"@),
        IdCert::<K>::PLATE_TITLE@ == "SSID IDENTITY CERTIFICATE"@,
        crate::bindle::plate_title::<IdCert<K>>() == ascii("SSID IDENTITY CERTIFICATE"@),
{
    reveal_strlit("SSID");
    assert(IdCert::<K>::MAGIC@ =~= seq![83u8, 83u8, 73u8, 68u8]);
    assert(IdCert::<K>::MAGIC@ =~= ascii("SSID"@));
}

/// Identities with the same encoding have the same key.
pub proof fn lemma_same_key<K: Pk>(a: Identity<K>, b: Identity<K>)
    requires
        a.encodable(),
        b.encodable(),
        a.encoding() == b.encoding(),
    ensures
        a.key == b.key,
{
    lemma_same_prefix(a.key, b.key, a.seal.encoding(), b.seal.encoding());
    a.key.lemma_injective(&b.key);
}

/// A chain only grows: after revocations are added one by one, the identity
/// in force is the one that the last of them brought in, and every entry
/// that the chain held before is still in its place.
pub proof fn lemma_chain_grows<K: Pk>(before: IdCert<K>, after: IdCert<K>, added: Seq<Revocation<K>>)
    requires
        after.genesis_id == before.genesis_id,
        after.revocations@ == before.revocations@ + added,
    ensures
        added.len() > 0 ==> after.current() == added.last().new_identity,
        added.len() == 0 ==> after.current() == before.current(),
        forall|i: int| 0 <= i < before.entries() ==> after.entry(i) == before.entry(i),
        forall|i: int|
            0 <= i < added.len() ==> after.entry(before.entries() + i) == (
            #[trigger] added[i]).new_identity,
{
}

} // verus!
