//! What a signature algorithm has to offer: secret keys that sign, public
//! keys that are derived from them and verify, and signatures, each with a
//! canonical encoding of fixed length.

use vstd::prelude::*;
use vstd::string::StringSliceAdditionalSpecFns;
use vstd::utf8::is_ascii_chars;
use crate::armor::ascii;
use crate::armor::ascii_string;
use crate::bindle::BindleContent;
use crate::bindle::BindleId;
use crate::encoding::StrictCodec;

pub mod ristretto25519;

verus! {

/// The number of bytes of a fingerprint.
pub const FINGERPRINT_LEN: usize = 4;

/// The longest canonical encoding that a public key may have, so that an
/// identity, which adds a seal of 37 bytes, stays within the 256 bytes that
/// are hashed into its digest.
pub const MAX_KEY_LEN: usize = 219;

/// A short identifier of a public key for people to read and compare: the
/// first four bytes of the key's canonical encoding. Different keys may
/// share one.
#[derive(Clone, Copy, PartialEq, Eq, Hash, Debug)]
pub struct Fingerprint(pub [u8; 4]);

/// The hash of an object's canonical encoding: the message that is signed
/// and verified.
#[derive(Clone, Copy, PartialEq, Eq, Hash, Debug)]
pub struct Digest(pub [u8; 32]);

/// Why bytes are not the encoding of a key or of a signature.
#[derive(Clone, Copy, PartialEq, Eq, Debug, Structural)]
pub enum InvalidKeyEncoding {
    /// The payload does not have the length that the algorithm fixes.
    WrongLength { expected: usize, found: usize },
    /// The payload carries the tag of another algorithm, which is given.
    WrongAlgorithm(u8),
}

/// A signature.
pub trait Sig: StrictCodec + Copy {
    /// The number of bytes of a signature of this algorithm.
    spec fn sig_len() -> nat;

    /// Every signature's encoding has the length that the algorithm fixes.
    proof fn lemma_sig_len(&self)
        ensures
            self.encoding().len() == Self::sig_len(),
    ;
}

/// A secret key.
pub trait Sk: BindleContent {
    /// The signatures that the key makes.
    type Sig: Sig;

    /// Whether the key is a complete key pair: the public key that it carries
    /// belongs to its secret part.
    spec fn is_key_pair(&self) -> bool;

    /// Whether `sig` is a signature that this key may have made of the
    /// digest `message`.
    spec fn signs(&self, message: Seq<u8>, sig: Self::Sig) -> bool;

    /// Makes a fresh key from the system's source of randomness. Returns
    /// `None` where the source handed out bytes that no key can be made of.
    fn generate() -> (sk: Option<Self>)
        ensures
            sk matches Some(key) ==> key.is_key_pair() && key.encodable(),
    ;

    /// Signs a message. Signing draws on randomness: two signatures of one
    /// message may differ.
    fn sign(&self, message: &Digest) -> (sig: Self::Sig)
        ensures
            self.signs(message.0@, sig),
            sig.encodable(),
    ;
}

/// A public key.
pub trait Pk: BindleId {
    /// The secret keys that the public key belongs to.
    type Sk: Sk;

    /// The tag of the algorithm in a key's text form.
    const ID: u8;

    /// The public key of a secret key.
    spec fn public_of(sk: &Self::Sk) -> Self;

    /// Whether the key accepts `sig` as a signature of the digest `message`.
    spec fn accepts(&self, message: Seq<u8>, sig: <Self::Sk as Sk>::Sig) -> bool;

    /// The number of bytes of a public key of this algorithm.
    spec fn key_len() -> nat;

    /// Every key's encoding has the length that the algorithm fixes, which
    /// is at least that of a fingerprint and at most `MAX_KEY_LEN`.
    proof fn lemma_key_len(&self)
        ensures
            self.encoding().len() == Self::key_len(),
            FINGERPRINT_LEN <= Self::key_len() <= MAX_KEY_LEN,
    ;

    /// What a key pair signs, its public key accepts.
    proof fn lemma_sound(sk: &Self::Sk, message: Seq<u8>, sig: <Self::Sk as Sk>::Sig)
        requires
            sk.is_key_pair(),
            sk.signs(message, sig),
        ensures
            Self::public_of(sk).accepts(message, sig),
    ;

    /// Derives the public key of a secret key.
    fn with(sk: &Self::Sk) -> (pk: Self)
        ensures
            pk == Self::public_of(sk),
            pk.encodable(),
    ;

    /// Whether `sig` is a valid signature of `message` under this key. Says
    /// `false` of anything malformed.
    fn verify(&self, message: &Digest, sig: &<Self::Sk as Sk>::Sig) -> (ok: bool)
        ensures
            ok == self.accepts(message.0@, *sig),
    ;

    /// The fingerprint of the key: the first four bytes of its encoding.
    fn fingerprint(&self) -> (fp: Fingerprint)
        ensures
            fp.0@ == self.encoding().subrange(0, FINGERPRINT_LEN as int),
    ;
}

/// A key has one fingerprint: whatever is the start of its encoding is the
/// same fingerprint each time.
pub proof fn lemma_one_fingerprint<K: Pk>(key: K, first: Fingerprint, second: Fingerprint)
    requires
        first.0@ == key.encoding().subrange(0, FINGERPRINT_LEN as int),
        second.0@ == key.encoding().subrange(0, FINGERPRINT_LEN as int),
    ensures
        first == second,
{
    assert(first.0 =~= second.0);
}

/// The lower-case hexadecimal digit for a number below 16.
pub open spec fn hex_char(n: int) -> u8 {
    if n < 10 {
        (48 + n) as u8
    } else {
        (87 + n) as u8
    }
}

/// The number that a hexadecimal digit of either case stands for, or `None`
/// for a byte that is no such digit.
pub open spec fn hex_value(c: u8) -> Option<int> {
    if 48 <= c <= 57 {
        Some(c - 48)
    } else if 97 <= c <= 102 {
        Some(c - 87)
    } else if 65 <= c <= 70 {
        Some(c - 55)
    } else {
        None
    }
}

/// The hexadecimal text of a byte string: two lower-case digits for each
/// byte, the high one first.
pub open spec fn hex_of(bytes: Seq<u8>) -> Seq<u8> {
    Seq::new(
        2 * bytes.len(),
        |i: int|
            if i % 2 == 0 {
                hex_char(bytes[i / 2] as int / 16)
            } else {
                hex_char(bytes[i / 2] as int % 16)
            },
    )
}

/// Whether a text is the hexadecimal form, in either case, of the given
/// bytes.
pub open spec fn is_hex_of(text: Seq<u8>, bytes: Seq<u8>) -> bool {
    &&& text.len() == 2 * bytes.len()
    &&& forall|i: int|
        0 <= i < bytes.len() ==> hex_value(#[trigger] text[2 * i]) is Some && hex_value(
            text[2 * i + 1],
        ) is Some && bytes[i] == 16 * hex_value(text[2 * i]).unwrap() + hex_value(
            text[2 * i + 1],
        ).unwrap()
}

/// Whether a text holds hexadecimal digits only.
pub open spec fn all_hex(text: Seq<u8>) -> bool {
    forall|i: int| 0 <= i < text.len() ==> hex_value(#[trigger] text[i]) is Some
}

/// The hexadecimal text of a byte string is a hexadecimal form of it.
pub proof fn lemma_hex_of(bytes: Seq<u8>)
    ensures
        is_hex_of(hex_of(bytes), bytes),
{
    let text = hex_of(bytes);
    assert forall|i: int| 0 <= i < bytes.len() implies hex_value(#[trigger] text[2 * i]) is Some
        && hex_value(text[2 * i + 1]) is Some && bytes[i] == 16 * hex_value(
        text[2 * i],
    ).unwrap() + hex_value(text[2 * i + 1]).unwrap() by {
        let b = bytes[i] as int;
        assert((2 * i) % 2 == 0 && (2 * i) / 2 == i);
        assert((2 * i + 1) % 2 == 1 && (2 * i + 1) / 2 == i);
        assert(text[2 * i] == hex_char(b / 16));
        assert(text[2 * i + 1] == hex_char(b % 16));
    }
}

/// The number that a hexadecimal digit stands for.
fn hex_value_of(c: u8) -> (v: Option<u8>)
    ensures
        match v {
            Some(n) => hex_value(c) == Some(n as int) && n < 16,
            None => hex_value(c) is None,
        },
{
    if 48 <= c && c <= 57 {
        Some(c - 48)
    } else if 97 <= c && c <= 102 {
        Some(c - 87)
    } else if 65 <= c && c <= 70 {
        Some(c - 55)
    } else {
        None
    }
}

/// The lower-case hexadecimal digit for a number below 16.
fn hex_char_of(n: u8) -> (c: u8)
    requires
        n < 16,
    ensures
        c == hex_char(n as int),
{
    if n < 10 {
        48 + n
    } else {
        87 + n
    }
}

impl Fingerprint {
    /// The fingerprint's text: eight lower-case hexadecimal digits, fit for
    /// a file name.
    pub fn to_hex(&self) -> (text: Vec<u8>)
        ensures
            text@ == hex_of(self.0@),
    {
        let mut text: Vec<u8> = Vec::new();
        let mut i: usize = 0;
        while i < FINGERPRINT_LEN
            invariant
                i <= FINGERPRINT_LEN,
                text@.len() == 2 * i,
                forall|j: int| 0 <= j < 2 * i ==> text@[j] == hex_of(self.0@)[j],
            decreases FINGERPRINT_LEN - i,
        {
            let b: u8 = self.0[i];
            text.push(hex_char_of(b / 16));
            text.push(hex_char_of(b % 16));
            proof {
                assert((2 * i) % 2 == 0 && (2 * i) / 2 == i);
                assert((2 * i + 1) % 2 == 1 && (2 * i + 1) / 2 == i);
            }
            i += 1;
        }
        proof {
            assert(text@ =~= hex_of(self.0@));
        }
        text
    }

    /// The fingerprint's text as a string.
    pub fn to_string(&self) -> (text: String)
        ensures
            is_ascii_chars(text@),
            ascii(text@) == hex_of(self.0@),
    {
        ascii_string(self.to_hex())
    }

    /// Reads a fingerprint from a string of eight hexadecimal digits of
    /// either case. Refuses a string of another length, and one that holds
    /// anything else.
    pub fn from_str(text: &str) -> (r: Option<Fingerprint>)
        ensures
            match r {
                Some(fp) => is_hex_of(text.spec_bytes(), fp.0@),
                None => text.spec_bytes().len() != 2 * FINGERPRINT_LEN || !all_hex(
                    text.spec_bytes(),
                ),
            },
    {
        Fingerprint::from_hex(text.as_bytes())
    }

    /// Reads a fingerprint from eight hexadecimal digits of either case.
    /// Refuses a text of another length, and one that holds anything else.
    pub fn from_hex(text: &[u8]) -> (r: Option<Fingerprint>)
        ensures
            match r {
                Some(fp) => is_hex_of(text@, fp.0@),
                None => text@.len() != 2 * FINGERPRINT_LEN || !all_hex(text@),
            },
    {
        if text.len() != 2 * FINGERPRINT_LEN {
            return None;
        }
        let mut bytes: [u8; 4] = [0u8; 4];
        let mut i: usize = 0;
        while i < FINGERPRINT_LEN
            invariant
                i <= FINGERPRINT_LEN,
                text@.len() == 2 * FINGERPRINT_LEN,
                forall|j: int|
                    0 <= j < i ==> hex_value(#[trigger] text@[2 * j]) is Some && hex_value(
                        text@[2 * j + 1],
                    ) is Some && bytes@[j] == 16 * hex_value(text@[2 * j]).unwrap() + hex_value(
                        text@[2 * j + 1],
                    ).unwrap(),
            decreases FINGERPRINT_LEN - i,
        {
            let hi: u8 = match hex_value_of(text[2 * i]) {
                Some(v) => v,
                None => {
                    return None;
                },
            };
            let lo: u8 = match hex_value_of(text[2 * i + 1]) {
                Some(v) => v,
                None => {
                    return None;
                },
            };
            bytes[i] = 16 * hi + lo;
            i += 1;
        }
        Some(Fingerprint(bytes))
    }
}

} // verus!
