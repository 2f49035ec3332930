//! The one signature algorithm provided: Ed25519 keys and signatures, as the
//! `ec25519` crate computes them.

use vstd::prelude::*;
use vstd::slice::slice_subrange;
use vstd::slice::slice_to_vec;
use vstd::utf8::is_ascii_chars;
use crate::algo::Digest;
use crate::algo::Fingerprint;
use crate::algo::InvalidKeyEncoding;
use crate::algo::Pk;
use crate::algo::Sig;
use crate::algo::Sk;
use crate::armor::ascii;
use crate::armor::ascii_bytes;
use crate::armor::printable;
use crate::bindle::BindleContent;
use crate::bindle::BindleId;
use crate::encoding::DecodeError;
use crate::encoding::StrictCodec;

verus! {

/// The number of bytes of a secret key: a seed of 32 bytes, then the public
/// key.
pub const SK_LEN: usize = 64;

/// The number of bytes of a seed.
pub const SEED_LEN: usize = 32;

/// The number of bytes of a public key.
pub const PK_LEN: usize = 32;

/// The number of bytes of a signature.
pub const SIG_LEN: usize = 64;

/// The number of bytes of the noise that goes into a signature.
pub const NOISE_LEN: usize = 16;

/// The number of bytes of a public key in its text form: the tag of the
/// algorithm, then the key.
pub const TAGGED_PK_LEN: usize = 33;

/// The public key that belongs to a seed, as `ec25519::KeyPair::from_seed`
/// derives it.
pub uninterp spec fn ed25519_public(seed: Seq<u8>) -> Seq<u8>;

/// The signature that `ec25519::SecretKey::sign` makes of a message with a
/// secret key, given as its seed and the public key it carries, and a given
/// noise.
pub uninterp spec fn ed25519_signature(
    seed: Seq<u8>,
    public: Seq<u8>,
    message: Seq<u8>,
    noise: Seq<u8>,
) -> Seq<u8>;

/// Whether `ec25519::PublicKey::verify` accepts a signature of a message.
pub uninterp spec fn ed25519_accepts(pk: Seq<u8>, message: Seq<u8>, sig: Seq<u8>) -> bool;

/// The text of a tagged public key, as `baid58` writes it with the prefix
/// `ssi`, in chunks and followed by its mnemonic.
pub uninterp spec fn baid58_text(payload: Seq<u8>) -> Seq<u8>;

/// The three words that `baid58` gives for the checksum of a tagged public
/// key.
pub uninterp spec fn baid58_mnemonic(payload: Seq<u8>) -> Seq<u8>;

/// The tag of this algorithm in a key's text form.
pub const ALGORITHM: u8 = 1;

/// The colon that ends the prefix of a key's text.
pub const COLON: u8 = 58;

/// The hash sign that stands before the mnemonic of a key's text.
pub const HASH: u8 = 35;

/// The least number of characters that the value of a key's text takes:
/// five chunks of six and four times eight characters, and a separator
/// after each.
pub const MIN_CHUNKED_LEN: usize = 43;

/// The offset of the first `byte` in `text`, or the length of `text` if it
/// holds none.
pub open spec fn first_of(text: Seq<u8>, byte: u8) -> int
    decreases text.len(),
{
    if text.len() == 0 || text[0] == byte {
        0
    } else {
        1 + first_of(text.skip(1), byte)
    }
}

/// `first_of` points at the first such byte, and at the end of a text that
/// has none.
pub proof fn lemma_first_of(text: Seq<u8>, byte: u8, k: int)
    requires
        0 <= k <= text.len(),
        forall|j: int| 0 <= j < k ==> text[j] != byte,
        k < text.len() ==> text[k] == byte,
    ensures
        first_of(text, byte) == k,
    decreases text.len(),
{
    if text.len() == 0 || text[0] == byte {
    } else {
        let rest = text.skip(1);
        assert forall|j: int| 0 <= j < k - 1 implies rest[j] != byte by {
            assert(rest[j] == text[j + 1]);
        }
        lemma_first_of(rest, byte, k - 1);
    }
}

/// What follows the prefix of a key's text: the text after its first colon,
/// or all of it where no colon has anything after it.
pub open spec fn after_prefix(text: Seq<u8>) -> Seq<u8> {
    let colon = first_of(text, COLON);
    if colon + 1 < text.len() {
        text.skip(colon + 1)
    } else {
        text
    }
}

/// Whether a text has the room that a key's text takes: it is ASCII, and
/// what follows its prefix holds at least 43 characters, counted from after
/// a second colon where one stands before the first hash sign. A text
/// without that room is no key's text, and its chunks cannot be looked at.
pub open spec fn has_room(text: Seq<u8>) -> bool {
    let value = after_prefix(text);
    let hash = first_of(value, HASH);
    let colon = first_of(value.subrange(0, hash), COLON);
    let start = if colon < hash {
        colon + 1
    } else {
        0
    };
    &&& forall|i: int| 0 <= i < text.len() ==> text[i] < 128
    &&& value.len() >= start + MIN_CHUNKED_LEN
}

/// The offset of the first `byte` in `text`, or the length of `text`.
fn find(text: &[u8], byte: u8) -> (at: usize)
    ensures
        at == first_of(text@, byte),
        at <= text@.len(),
{
    let mut i: usize = 0;
    while i < text.len() && text[i] != byte
        invariant
            i <= text@.len(),
            forall|j: int| 0 <= j < i ==> text@[j] != byte,
        decreases text@.len() - i,
    {
        i += 1;
    }
    proof {
        lemma_first_of(text@, byte, i as int);
    }
    i
}

/// Whether a byte string holds ASCII only.
fn is_ascii(text: &[u8]) -> (yes: bool)
    ensures
        yes == (forall|i: int| 0 <= i < text@.len() ==> text@[i] < 128),
{
    let mut i: usize = 0;
    while i < text.len()
        invariant
            i <= text@.len(),
            forall|j: int| 0 <= j < i ==> text@[j] < 128,
        decreases text@.len() - i,
    {
        if text[i] >= 128 {
            return false;
        }
        i += 1;
    }
    true
}

/// Whether a byte string holds zeros only.
pub open spec fn all_zero(bytes: Seq<u8>) -> bool {
    forall|i: int| 0 <= i < bytes.len() ==> bytes[i] == 0
}

/// A secret key: a seed and the public key that goes with it. In its
/// encoding of 64 bytes the seed comes first.
pub struct RistrettoSk {
    pub seed: [u8; 32],
    pub public: [u8; 32],
}

/// A public key.
#[derive(Clone, Copy, PartialEq, Eq, Hash, Debug)]
pub struct RistrettoPk(pub [u8; 32]);

/// A signature.
#[derive(Clone, Copy, PartialEq, Eq, Hash, Debug)]
pub struct RistrettoSig(pub [u8; 64]);

/// Calls `ec25519::KeyPair::from_seed`, which refuses a seed of zeros, and
/// hands back the public key that it derived from the seed.
#[verifier::external_body]
fn public_from_seed(seed: &[u8; 32]) -> (public: [u8; 32])
    requires
        !all_zero(seed@),
    ensures
        public@ == ed25519_public(seed@),
{
    *ec25519::KeyPair::from_seed(ec25519::Seed::new(*seed)).pk
}

/// Calls `ec25519::SecretKey::sign` with the given noise. The signature is
/// named; where the public key is the one that belongs to the seed, it
/// accepts the signature.
#[verifier::external_body]
fn sign_with(seed: &[u8; 32], public: &[u8; 32], message: &[u8; 32], noise: &[u8; 16]) -> (sig:
    [u8; 64])
    ensures
        sig@ == ed25519_signature(seed@, public@, message@, noise@),
        public@ == ed25519_public(seed@) ==> ed25519_accepts(public@, message@, sig@),
{
    let mut sk = [0u8; 64];
    sk[..32].copy_from_slice(seed);
    sk[32..].copy_from_slice(public);
    *ec25519::SecretKey::new(sk).sign(message, Some(ec25519::Noise::new(*noise)))
}

/// Calls `ec25519::PublicKey::verify` and says whether it accepted.
#[verifier::external_body]
fn verify_with(pk: &[u8; 32], message: &[u8; 32], sig: &[u8; 64]) -> (ok: bool)
    ensures
        ok == ed25519_accepts(pk@, message@, sig@),
{
    ec25519::PublicKey::new(*pk).verify(message, &ec25519::Signature::new(*sig)).is_ok()
}

/// Draws a seed with `rand::Rng::fill` from the generator that
/// `rand::thread_rng` hands out. Nothing is known of it.
#[verifier::external_body]
fn random_seed() -> (seed: [u8; 32]) {
    let mut seed = [0u8; 32];
    rand::Rng::fill(&mut rand::thread_rng(), &mut seed);
    seed
}

/// Draws noise with `rand::random`. Nothing is known of it.
#[verifier::external_body]
fn random_noise() -> (noise: [u8; 16]) {
    rand::random()
}

/// Formats a `baid58::Baid58` made of a tagged public key with its `Display`:
/// the prefix `ssi`, a colon, the Base58 of the payload in chunks, a hash
/// sign and the mnemonic. The text is named, and holds printable ASCII only.
#[verifier::external_body]
fn baid58_format(payload: &[u8; 33]) -> (text: String)
    ensures
        is_ascii_chars(text@),
        ascii(text@) == baid58_text(payload@),
        printable(ascii(text@)),
{
    let id = baid58::Baid58::<33>::with_chunks("ssi", *payload, &baid58::CHUNK_POSITIONS_32, '-');
    format!("{::<#.2}", id)
}

/// Calls `baid58::Baid58::mnemonic` on a tagged public key: three words
/// joined by hyphens. The text is named, and holds printable ASCII only.
#[verifier::external_body]
fn baid58_words(payload: &[u8; 33]) -> (text: String)
    ensures
        is_ascii_chars(text@),
        ascii(text@) == baid58_mnemonic(payload@),
        printable(ascii(text@)),
{
    baid58::Baid58::<33>::with_chunks("ssi", *payload, &baid58::CHUNK_POSITIONS_32, '-').mnemonic()
}

/// Whether a byte string holds zeros only.
fn is_all_zero(bytes: &[u8]) -> (zero: bool)
    ensures
        zero == all_zero(bytes@),
{
    let mut i: usize = 0;
    while i < bytes.len()
        invariant
            i <= bytes@.len(),
            forall|j: int| 0 <= j < i ==> bytes@[j] == 0,
        decreases bytes@.len() - i,
    {
        if bytes[i] != 0 {
            return false;
        }
        i += 1;
    }
    true
}

/// Whether two arrays hold the same bytes.
fn same_array<const N: usize>(a: &[u8; N], b: &[u8; N]) -> (same: bool)
    ensures
        same == (*a == *b),
{
    let mut i: usize = 0;
    while i < N
        invariant
            i <= N,
            forall|j: int| 0 <= j < i ==> a@[j] == b@[j],
        decreases N - i,
    {
        if a[i] != b[i] {
            return false;
        }
        i += 1;
    }
    proof {
        assert(a@ =~= b@);
        assert(*a =~= *b);
    }
    true
}

impl RistrettoSk {
    /// The 64 bytes of the key: the seed, then the public key.
    pub open spec fn bytes(&self) -> Seq<u8> {
        self.seed@ + self.public@
    }

    /// The key with the given bytes.
    pub fn new(bytes: [u8; 64]) -> (sk: Self)
        ensures
            sk.bytes() == bytes@,
    {
        let mut seed: [u8; 32] = [0u8; 32];
        let mut public: [u8; 32] = [0u8; 32];
        let mut i: usize = 0;
        while i < SEED_LEN
            invariant
                i <= SEED_LEN,
                forall|j: int| 0 <= j < i ==> seed@[j] == bytes@[j],
                forall|j: int| 0 <= j < i ==> public@[j] == bytes@[j + SEED_LEN],
            decreases SEED_LEN - i,
        {
            seed[i] = bytes[i];
            public[i] = bytes[i + SEED_LEN];
            i += 1;
        }
        proof {
            assert(seed@ + public@ =~= bytes@);
        }
        RistrettoSk { seed, public }
    }

    /// The 64 bytes of the key.
    pub fn to_bytes(&self) -> (bytes: [u8; 64])
        ensures
            bytes@ == self.bytes(),
    {
        let mut bytes: [u8; 64] = [0u8; 64];
        let mut i: usize = 0;
        while i < SEED_LEN
            invariant
                i <= SEED_LEN,
                forall|j: int| 0 <= j < i ==> bytes@[j] == self.seed@[j],
                forall|j: int| 0 <= j < i ==> bytes@[j + SEED_LEN] == self.public@[j],
            decreases SEED_LEN - i,
        {
            bytes[i] = self.seed[i];
            bytes[i + SEED_LEN] = self.public[i];
            i += 1;
        }
        proof {
            assert(bytes@ =~= self.bytes());
        }
        bytes
    }

    /// The key pair of a seed, or `None` for the seed of zeros, of which no
    /// key is made.
    pub fn from_seed(seed: &[u8; 32]) -> (sk: Option<Self>)
        ensures
            sk is Some <==> !all_zero(seed@),
            sk matches Some(key) ==> {
                &&& key.seed == *seed
                &&& key.public@ == ed25519_public(seed@)
                &&& key.is_key_pair()
            },
    {
        if is_all_zero(seed.as_slice()) {
            return None;
        }
        let public: [u8; 32] = public_from_seed(seed);
        Some(RistrettoSk { seed: *seed, public })
    }

    /// Decodes a key from exactly 64 bytes.
    pub fn from_slice(bytes: &[u8]) -> (r: Result<Self, InvalidKeyEncoding>)
        ensures
            match r {
                Ok(key) => bytes@.len() == SK_LEN && key.bytes() == bytes@,
                Err(e) => bytes@.len() != SK_LEN && e == (InvalidKeyEncoding::WrongLength {
                    expected: SK_LEN,
                    found: bytes@.len() as usize,
                }),
            },
    {
        if bytes.len() != SK_LEN {
            return Err(InvalidKeyEncoding::WrongLength { expected: SK_LEN, found: bytes.len() });
        }
        match <[u8; 64] as StrictCodec>::strict_decode(bytes, 0) {
            Ok((array, _)) => {
                proof {
                    assert(bytes@.subrange(0, SK_LEN as int) =~= bytes@);
                }
                Ok(RistrettoSk::new(array))
            },
            Err(_) => Err(InvalidKeyEncoding::WrongLength { expected: SK_LEN, found: bytes.len() }),
        }
    }

    /// Signs a message with the given noise. The same key, message and noise
    /// give the same signature.
    pub fn sign_with_noise(&self, message: &Digest, noise: &[u8; 16]) -> (sig: RistrettoSig)
        ensures
            sig.bytes() == ed25519_signature(self.seed@, self.public@, message.0@, noise@),
            self.signs(message.0@, sig),
    {
        RistrettoSig(sign_with(&self.seed, &self.public, &message.0, noise))
    }
}

impl StrictCodec for RistrettoSk {
    open spec fn encoding(&self) -> Seq<u8> {
        self.bytes()
    }

    open spec fn encodable(&self) -> bool {
        true
    }

    open spec fn frame(bytes: Seq<u8>) -> Result<nat, DecodeError> {
        <[u8; 64] as StrictCodec>::frame(bytes)
    }

    proof fn lemma_frame(&self, rest: Seq<u8>) {
    }

    fn is_encodable(&self) -> (ok: bool) {
        true
    }

    fn strict_encode(&self, out: &mut Vec<u8>) {
        self.seed.strict_encode(out);
        self.public.strict_encode(out);
        proof {
            assert(out@ =~= old(out)@ + self.encoding());
        }
    }

    fn strict_decode(input: &[u8], at: usize) -> (r: Result<(Self, usize), DecodeError>) {
        match <[u8; 64] as StrictCodec>::strict_decode(input, at) {
            Ok((bytes, end)) => Ok((RistrettoSk::new(bytes), end)),
            Err(e) => Err(e),
        }
    }
}

impl BindleContent for RistrettoSk {
    type Id = RistrettoPk;

    const MAGIC: [u8; 4] = [83, 83, 83, 75];

    const PLATE_TITLE: &'static str = "SSID SECRET KEY";

    open spec fn content_id(&self) -> RistrettoPk {
        RistrettoPk(self.public)
    }

    open spec fn mnemonic(&self) -> Option<Seq<u8>> {
        None
    }

    open spec fn headers(&self) -> Seq<Seq<u8>> {
        Seq::empty()
    }

    proof fn lemma_same_id(&self, other: &Self) {
        assert(self.public@ =~= self.encoding().subrange(SEED_LEN as int, SK_LEN as int));
        assert(other.public@ =~= other.encoding().subrange(SEED_LEN as int, SK_LEN as int));
        assert(self.public =~= other.public);
    }

    proof fn lemma_plate_title() {
        reveal_strlit("SSID SECRET KEY");
    }

    fn bindle_id(&self) -> (id: RistrettoPk) {
        RistrettoPk(self.public)
    }

    fn bindle_mnemonic(&self) -> (mnemonic: Option<Vec<u8>>) {
        None
    }

    fn bindle_headers(&self) -> (headers: Vec<Vec<u8>>) {
        let headers: Vec<Vec<u8>> = Vec::new();
        proof {
            assert(crate::armor::views(headers@) =~= self.headers());
        }
        headers
    }
}

/// A secret key's file starts with `SSSK`, and its block is titled
/// `SSID SECRET KEY`.
pub proof fn lemma_secret_key_plate()
    ensures
        RistrettoSk::MAGIC@ == seq![83u8, 83u8, 83u8, 75u8],
        RistrettoSk::MAGIC@ == ascii("SSSK"@),
        RistrettoSk::PLATE_TITLE@ == "SSID SECRET KEY"@,
        crate::bindle::plate_title::<RistrettoSk>() == ascii("SSID SECRET KEY"@),
{
    reveal_strlit("SSSK");
    assert(RistrettoSk::MAGIC@ =~= seq![83u8, 83u8, 83u8, 75u8]);
    assert(RistrettoSk::MAGIC@ =~= ascii("SSSK"@));
}

impl Sk for RistrettoSk {
    type Sig = RistrettoSig;

    open spec fn is_key_pair(&self) -> bool {
        self.public@ == ed25519_public(self.seed@)
    }

    open spec fn signs(&self, message: Seq<u8>, sig: RistrettoSig) -> bool {
        self.is_key_pair() ==> ed25519_accepts(self.public@, message, sig.bytes())
    }

    fn generate() -> (sk: Option<Self>) {
        let seed: [u8; 32] = random_seed();
        RistrettoSk::from_seed(&seed)
    }

    fn sign(&self, message: &Digest) -> (sig: RistrettoSig) {
        let noise: [u8; 16] = random_noise();
        self.sign_with_noise(message, &noise)
    }
}

impl RistrettoPk {
    /// The bytes of the key.
    pub open spec fn bytes(&self) -> Seq<u8> {
        self.0@
    }

    /// The key's text form before it is written as text: the tag of the
    /// algorithm, then the key.
    pub open spec fn tagged(&self) -> Seq<u8> {
        seq![ALGORITHM] + self.bytes()
    }

    /// The key with the given bytes.
    pub fn new(bytes: [u8; 32]) -> (pk: Self)
        ensures
            pk.bytes() == bytes@,
    {
        RistrettoPk(bytes)
    }

    /// The bytes of the key.
    pub fn to_bytes(&self) -> (bytes: [u8; 32])
        ensures
            bytes@ == self.bytes(),
    {
        self.0
    }

    /// Decodes a key from exactly 32 bytes.
    pub fn from_slice(bytes: &[u8]) -> (r: Result<Self, InvalidKeyEncoding>)
        ensures
            match r {
                Ok(key) => bytes@.len() == PK_LEN && key.bytes() == bytes@,
                Err(e) => bytes@.len() != PK_LEN && e == (InvalidKeyEncoding::WrongLength {
                    expected: PK_LEN,
                    found: bytes@.len() as usize,
                }),
            },
    {
        if bytes.len() != PK_LEN {
            return Err(InvalidKeyEncoding::WrongLength { expected: PK_LEN, found: bytes.len() });
        }
        match <[u8; 32] as StrictCodec>::strict_decode(bytes, 0) {
            Ok((array, _)) => {
                proof {
                    assert(bytes@.subrange(0, PK_LEN as int) =~= bytes@);
                }
                Ok(RistrettoPk(array))
            },
            Err(_) => Err(InvalidKeyEncoding::WrongLength { expected: PK_LEN, found: bytes.len() }),
        }
    }

    /// The tag of the algorithm followed by the key: what the key's text
    /// form is made of.
    pub fn to_baid58_payload(&self) -> (payload: [u8; 33])
        ensures
            payload@ == self.tagged(),
    {
        let mut payload: [u8; 33] = [0u8; 33];
        payload[0] = ALGORITHM;
        let mut i: usize = 0;
        while i < PK_LEN
            invariant
                i <= PK_LEN,
                payload@[0] == ALGORITHM,
                forall|j: int| 0 <= j < i ==> payload@[j + 1] == self.0@[j],
            decreases PK_LEN - i,
        {
            payload[i + 1] = self.0[i];
            i += 1;
        }
        proof {
            assert(payload@ =~= self.tagged());
        }
        payload
    }

    /// Decodes a key from a tagged payload: the tag of the algorithm, then
    /// the 32 bytes of the key. A payload of another length is refused, and
    /// so is one with another tag.
    pub fn from_baid58_payload(payload: &[u8]) -> (r: Result<Self, InvalidKeyEncoding>)
        ensures
            match r {
                Ok(key) => payload@ == key.tagged(),
                Err(e) => if payload@.len() != TAGGED_PK_LEN {
                    e == (InvalidKeyEncoding::WrongLength {
                        expected: TAGGED_PK_LEN,
                        found: payload@.len() as usize,
                    })
                } else {
                    payload@[0] != ALGORITHM && e == InvalidKeyEncoding::WrongAlgorithm(
                        payload@[0],
                    )
                },
            },
    {
        if payload.len() != TAGGED_PK_LEN {
            return Err(
                InvalidKeyEncoding::WrongLength { expected: TAGGED_PK_LEN, found: payload.len() },
            );
        }
        if payload[0] != ALGORITHM {
            return Err(InvalidKeyEncoding::WrongAlgorithm(payload[0]));
        }
        match <[u8; 32] as StrictCodec>::strict_decode(payload, 1) {
            Ok((array, _)) => {
                let key = RistrettoPk(array);
                proof {
                    assert(payload@ =~= key.tagged());
                }
                Ok(key)
            },
            Err(_) => Err(
                InvalidKeyEncoding::WrongLength { expected: TAGGED_PK_LEN, found: payload.len() },
            ),
        }
    }

    /// Whether a text has the room that a key's text takes. Where it has
    /// not, it is no key's text.
    pub fn text_has_room(text: &[u8]) -> (yes: bool)
        ensures
            yes == has_room(text@),
    {
        if !is_ascii(text) {
            return false;
        }
        let colon: usize = find(text, COLON);
        let value: &[u8] = if text.len() - colon > 1 {
            slice_subrange(text, colon + 1, text.len())
        } else {
            text
        };
        proof {
            assert(value@ =~= after_prefix(text@));
        }
        let hash: usize = find(value, HASH);
        let colon: usize = find(slice_subrange(value, 0, hash), COLON);
        let start: usize = if colon < hash {
            colon + 1
        } else {
            0
        };
        value.len() - start >= MIN_CHUNKED_LEN
    }

    /// The text of the key: `ssi:`, the tagged key in Base58 cut into
    /// chunks, a hash sign and the mnemonic.
    pub fn to_baid58_string(&self) -> (text: String)
        ensures
            is_ascii_chars(text@),
            ascii(text@) == baid58_text(self.tagged()),
            printable(ascii(text@)),
    {
        let payload: [u8; 33] = self.to_baid58_payload();
        baid58_format(&payload)
    }

    /// The mnemonic of the key: three words that stand for its checksum.
    pub fn to_mnemonic(&self) -> (text: String)
        ensures
            is_ascii_chars(text@),
            ascii(text@) == baid58_mnemonic(self.tagged()),
            printable(ascii(text@)),
    {
        let payload: [u8; 33] = self.to_baid58_payload();
        baid58_words(&payload)
    }
}

impl StrictCodec for RistrettoPk {
    open spec fn encoding(&self) -> Seq<u8> {
        self.bytes()
    }

    open spec fn encodable(&self) -> bool {
        true
    }

    open spec fn frame(bytes: Seq<u8>) -> Result<nat, DecodeError> {
        <[u8; 32] as StrictCodec>::frame(bytes)
    }

    proof fn lemma_frame(&self, rest: Seq<u8>) {
    }

    fn is_encodable(&self) -> (ok: bool) {
        true
    }

    fn strict_encode(&self, out: &mut Vec<u8>) {
        self.0.strict_encode(out);
    }

    fn strict_decode(input: &[u8], at: usize) -> (r: Result<(Self, usize), DecodeError>) {
        match <[u8; 32] as StrictCodec>::strict_decode(input, at) {
            Ok((bytes, end)) => Ok((RistrettoPk(bytes), end)),
            Err(e) => Err(e),
        }
    }
}

impl BindleId for RistrettoPk {
    open spec fn text(&self) -> Seq<u8> {
        baid58_text(self.tagged())
    }

    proof fn lemma_injective(&self, other: &Self) {
        assert(self.0 =~= other.0);
    }

    fn to_text(&self) -> (text: Vec<u8>) {
        let text: String = self.to_baid58_string();
        slice_to_vec(ascii_bytes(text.as_str()))
    }

    fn same(&self, other: &Self) -> (same: bool) {
        same_array(&self.0, &other.0)
    }
}

impl Pk for RistrettoPk {
    type Sk = RistrettoSk;

    const ID: u8 = ALGORITHM;

    open spec fn public_of(sk: &RistrettoSk) -> RistrettoPk {
        RistrettoPk(sk.public)
    }

    open spec fn accepts(&self, message: Seq<u8>, sig: RistrettoSig) -> bool {
        ed25519_accepts(self.bytes(), message, sig.bytes())
    }

    open spec fn key_len() -> nat {
        PK_LEN as nat
    }

    proof fn lemma_key_len(&self) {
    }

    proof fn lemma_sound(sk: &RistrettoSk, message: Seq<u8>, sig: RistrettoSig) {
    }

    fn with(sk: &RistrettoSk) -> (pk: RistrettoPk) {
        RistrettoPk(sk.public)
    }

    fn verify(&self, message: &Digest, sig: &RistrettoSig) -> (ok: bool) {
        verify_with(&self.0, &message.0, &sig.0)
    }

    fn fingerprint(&self) -> (fp: Fingerprint) {
        let fp: [u8; 4] = [self.0[0], self.0[1], self.0[2], self.0[3]];
        proof {
            assert(fp@ =~= self.encoding().subrange(0, 4));
        }
        Fingerprint(fp)
    }
}

impl RistrettoSig {
    /// The bytes of the signature.
    pub open spec fn bytes(&self) -> Seq<u8> {
        self.0@
    }

    /// The signature with the given bytes.
    pub fn new(bytes: [u8; 64]) -> (sig: Self)
        ensures
            sig.bytes() == bytes@,
    {
        RistrettoSig(bytes)
    }

    /// The bytes of the signature.
    pub fn to_bytes(&self) -> (bytes: [u8; 64])
        ensures
            bytes@ == self.bytes(),
    {
        self.0
    }

    /// Decodes a signature from exactly 64 bytes.
    pub fn from_slice(bytes: &[u8]) -> (r: Result<Self, InvalidKeyEncoding>)
        ensures
            match r {
                Ok(sig) => bytes@.len() == SIG_LEN && sig.bytes() == bytes@,
                Err(e) => bytes@.len() != SIG_LEN && e == (InvalidKeyEncoding::WrongLength {
                    expected: SIG_LEN,
                    found: bytes@.len() as usize,
                }),
            },
    {
        if bytes.len() != SIG_LEN {
            return Err(InvalidKeyEncoding::WrongLength { expected: SIG_LEN, found: bytes.len() });
        }
        match <[u8; 64] as StrictCodec>::strict_decode(bytes, 0) {
            Ok((array, _)) => {
                proof {
                    assert(bytes@.subrange(0, SIG_LEN as int) =~= bytes@);
                }
                Ok(RistrettoSig(array))
            },
            Err(_) => Err(InvalidKeyEncoding::WrongLength { expected: SIG_LEN, found: bytes.len() }),
        }
    }
}

impl StrictCodec for RistrettoSig {
    open spec fn encoding(&self) -> Seq<u8> {
        self.bytes()
    }

    open spec fn encodable(&self) -> bool {
        true
    }

    open spec fn frame(bytes: Seq<u8>) -> Result<nat, DecodeError> {
        <[u8; 64] as StrictCodec>::frame(bytes)
    }

    proof fn lemma_frame(&self, rest: Seq<u8>) {
    }

    fn is_encodable(&self) -> (ok: bool) {
        true
    }

    fn strict_encode(&self, out: &mut Vec<u8>) {
        self.0.strict_encode(out);
    }

    fn strict_decode(input: &[u8], at: usize) -> (r: Result<(Self, usize), DecodeError>) {
        match <[u8; 64] as StrictCodec>::strict_decode(input, at) {
            Ok((bytes, end)) => Ok((RistrettoSig(bytes), end)),
            Err(e) => Err(e),
        }
    }
}

impl Sig for RistrettoSig {
    open spec fn sig_len() -> nat {
        SIG_LEN as nat
    }

    proof fn lemma_sig_len(&self) {
    }
}

} // verus!
