//! Signatures that can be checked without looking up a key: each comes with
//! the certificate of its signer.

use vstd::prelude::*;
use crate::algo::ristretto25519::RistrettoPk;
use crate::algo::ristretto25519::RistrettoSig;
use crate::algo::Pk;
use crate::algo::Sig;
use crate::algo::Sk;
use crate::encoding::DecodeError;
use crate::encoding::StrictCodec;
use crate::identity::IdCert;
use crate::identity::Identity;

verus! {

/// A signature and the digest that was signed.
#[derive(Clone, Copy, PartialEq, Eq, Debug)]
pub struct Signature<S: Sig = RistrettoSig> {
    pub digest: [u8; 32],
    pub sig: S,
}

/// A signature with the certificate of the identity that made it.
pub struct SigCert<K: Pk = RistrettoPk> {
    pub sig: Signature<<K::Sk as Sk>::Sig>,
    pub id: IdCert<K>,
}

impl<K: Pk> SigCert<K> {
    /// The identity of the signer that is in force.
    pub fn identity(&self) -> (identity: Identity<K>)
        ensures
            identity == self.id.current(),
    {
        self.id.identity()
    }

    /// Whether the signature is one that the signer's key in force accepts
    /// for the digest it comes with.
    pub open spec fn holds(&self) -> bool {
        self.id.current().key.accepts(self.sig.digest@, self.sig.sig)
    }

    /// Checks the signature against the signer's key in force.
    pub fn verify(&self) -> (ok: bool)
        ensures
            ok == self.holds(),
    {
        let digest = crate::algo::Digest(self.sig.digest);
        self.id.identity().key.verify(&digest, &self.sig.sig)
    }
}

impl<S: Sig> StrictCodec for Signature<S> {
    open spec fn encoding(&self) -> Seq<u8> {
        self.digest@ + self.sig.encoding()
    }

    open spec fn encodable(&self) -> bool {
        self.sig.encodable()
    }

    open spec fn frame(bytes: Seq<u8>) -> Result<nat, DecodeError> {
        if bytes.len() < 32 {
            Err(DecodeError::UnexpectedEof)
        } else {
            match S::frame(bytes.skip(32)) {
                Err(e) => Err(e),
                Ok(n) => Ok(32 + n),
            }
        }
    }

    proof fn lemma_frame(&self, rest: Seq<u8>) {
        self.sig.lemma_frame(rest);
        assert((self.encoding() + rest).skip(32) =~= self.sig.encoding() + rest);
    }

    fn is_encodable(&self) -> (ok: bool) {
        self.sig.is_encodable()
    }

    fn strict_encode(&self, out: &mut Vec<u8>) {
        self.digest.strict_encode(out);
        self.sig.strict_encode(out);
        proof {
            assert(out@ =~= old(out)@ + self.encoding());
        }
    }

    fn strict_decode(input: &[u8], at: usize) -> (r: Result<(Self, usize), DecodeError>) {
        let (digest, mid) = match <[u8; 32] as StrictCodec>::strict_decode(input, at) {
            Ok(v) => v,
            Err(e) => {
                return Err(e);
            },
        };
        proof {
            assert(input@.skip(at as int).skip(32) =~= input@.skip(mid as int));
        }
        let (sig, end) = match S::strict_decode(input, mid) {
            Ok(v) => v,
            Err(e) => {
                return Err(e);
            },
        };
        let signature = Signature { digest, sig };
        proof {
            assert(signature.encoding() =~= input@.subrange(at as int, end as int));
        }
        Ok((signature, end))
    }
}

impl<K: Pk> StrictCodec for SigCert<K> {
    open spec fn encoding(&self) -> Seq<u8> {
        self.sig.encoding() + self.id.encoding()
    }

    open spec fn encodable(&self) -> bool {
        self.sig.encodable() && self.id.encodable()
    }

    open spec fn frame(bytes: Seq<u8>) -> Result<nat, DecodeError> {
        match Signature::<<K::Sk as Sk>::Sig>::frame(bytes) {
            Err(e) => Err(e),
            Ok(a) => match IdCert::<K>::frame(bytes.skip(a as int)) {
                Err(e) => Err(e),
                Ok(b) => Ok(a + b),
            },
        }
    }

    proof fn lemma_frame(&self, rest: Seq<u8>) {
        let a = self.sig.encoding();
        let b = self.id.encoding();
        let text = self.encoding() + rest;
        self.sig.lemma_frame(b + rest);
        assert(text =~= a + (b + rest));
        self.id.lemma_frame(rest);
        assert(text.skip(a.len() as int) =~= b + rest);
    }

    fn is_encodable(&self) -> (ok: bool) {
        self.sig.is_encodable() && self.id.is_encodable()
    }

    fn strict_encode(&self, out: &mut Vec<u8>) {
        self.sig.strict_encode(out);
        self.id.strict_encode(out);
        proof {
            assert(out@ =~= old(out)@ + self.encoding());
        }
    }

    fn strict_decode(input: &[u8], at: usize) -> (r: Result<(Self, usize), DecodeError>) {
        let (sig, mid) = match Signature::<<K::Sk as Sk>::Sig>::strict_decode(input, at) {
            Ok(v) => v,
            Err(e) => {
                return Err(e);
            },
        };
        proof {
            assert(input@.skip(at as int).skip(mid - at) =~= input@.skip(mid as int));
        }
        let (id, end) = match IdCert::<K>::strict_decode(input, mid) {
            Ok(v) => v,
            Err(e) => {
                return Err(e);
            },
        };
        let cert = SigCert { sig, id };
        proof {
            assert(cert.encoding() =~= input@.subrange(at as int, end as int));
        }
        Ok((cert, end))
    }
}

} // verus!
