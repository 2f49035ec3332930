use ssid::BindleId;
use ssid::Digest;
use ssid::Fingerprint;
use ssid::InvalidKeyEncoding;
use ssid::Pk;
use ssid::RistrettoPk;
use ssid::RistrettoSig;
use ssid::RistrettoSk;
use ssid::Sk;
use ssid::StrictCodec;
use ssid::DecodeError;

#[derive(Copy, Clone, PartialEq, Eq, Debug)]
struct TaggedKey([u8; 33]);

impl From<[u8; 33]> for TaggedKey {
    fn from(value: [u8; 33]) -> Self {
        TaggedKey(value)
    }
}

impl baid58::ToBaid58<33> for TaggedKey {
    const HRI: &'static str = "ssi";
    const CHUNKING: Option<baid58::Chunking> = baid58::CHUNKING_32;

    fn to_baid58_payload(&self) -> [u8; 33] {
        self.0
    }
}

impl baid58::FromBaid58<33> for TaggedKey {}

fn seed() -> [u8; 32] {
    let mut seed = [0u8; 32];
    for (i, b) in seed.iter_mut().enumerate() {
        *b = i as u8 + 1;
    }
    seed
}

const PUBLIC: [u8; 32] = [
    121, 181, 86, 46, 143, 230, 84, 249, 64, 120, 177, 18, 232, 169, 139, 167, 144, 31, 133, 58,
    230, 149, 190, 215, 224, 227, 145, 11, 173, 4, 150, 100,
];

const SIGNATURE_OF_42: [u8; 64] = [
    198, 6, 245, 28, 253, 102, 181, 107, 168, 43, 163, 80, 5, 58, 118, 32, 204, 121, 85, 102,
    153, 41, 191, 136, 30, 36, 8, 255, 168, 188, 42, 147, 21, 38, 196, 240, 172, 6, 199, 10, 157,
    128, 203, 168, 94, 152, 82, 56, 58, 211, 206, 189, 233, 52, 10, 194, 104, 11, 41, 128, 143,
    144, 167, 5,
];

#[test]
fn from_seed_derives_the_public_key() {
    let sk = RistrettoSk::from_seed(&seed()).unwrap();
    assert_eq!(sk.seed, seed());
    assert_eq!(sk.public, PUBLIC);
    assert_eq!(RistrettoPk::with(&sk).to_bytes(), PUBLIC);
}

#[test]
fn from_seed_matches_the_published_vector() {
    let seed: [u8; 32] = [
        0x9d, 0x61, 0xb1, 0x9d, 0xef, 0xfd, 0x5a, 0x60, 0xba, 0x84, 0x4a, 0xf4, 0x92, 0xec, 0x2c,
        0xc4, 0x44, 0x49, 0xc5, 0x69, 0x7b, 0x32, 0x69, 0x19, 0x70, 0x3b, 0xac, 0x03, 0x1c, 0xae,
        0x7f, 0x60,
    ];
    let public: [u8; 32] = [
        0xd7, 0x5a, 0x98, 0x01, 0x82, 0xb1, 0x0a, 0xb7, 0xd5, 0x4b, 0xfe, 0xd3, 0xc9, 0x64, 0x07,
        0x3a, 0x0e, 0xe1, 0x72, 0xf3, 0xda, 0xa6, 0x23, 0x25, 0xaf, 0x02, 0x1a, 0x68, 0xf7, 0x07,
        0x51, 0x1a,
    ];
    assert_eq!(RistrettoSk::from_seed(&seed).unwrap().public, public);
}

#[test]
fn from_seed_refuses_the_seed_of_zeros() {
    assert!(RistrettoSk::from_seed(&[0u8; 32]).is_none());
    let mut almost = [0u8; 32];
    almost[31] = 1;
    assert!(RistrettoSk::from_seed(&almost).is_some());
}

#[test]
fn generate_makes_key_pairs_that_differ() {
    let a = RistrettoSk::generate().unwrap();
    let b = RistrettoSk::generate().unwrap();
    assert_ne!(a.to_bytes(), b.to_bytes());
    let again = RistrettoSk::from_seed(&a.seed).unwrap();
    assert_eq!(again.public, a.public);
}

#[test]
fn secret_key_bytes_are_seed_then_public_key() {
    let sk = RistrettoSk::from_seed(&seed()).unwrap();
    let bytes = sk.to_bytes();
    assert_eq!(&bytes[..32], &seed()[..]);
    assert_eq!(&bytes[32..], &PUBLIC[..]);
    let back = RistrettoSk::new(bytes);
    assert_eq!(back.seed, seed());
    assert_eq!(back.public, PUBLIC);
}

#[test]
fn public_key_accepts_a_signature_of_its_secret_key() {
    let sk = RistrettoSk::from_seed(&seed()).unwrap();
    let pk = RistrettoPk::with(&sk);
    for byte in [0u8, 1, 0x42, 0xff] {
        let digest = Digest([byte; 32]);
        let sig = sk.sign(&digest);
        assert!(pk.verify(&digest, &sig));
    }
}

#[test]
fn public_key_refuses_a_signature_of_another_message() {
    let sk = RistrettoSk::from_seed(&seed()).unwrap();
    let pk = RistrettoPk::with(&sk);
    let sig = sk.sign(&Digest([0x42; 32]));
    assert!(!pk.verify(&Digest([0x43; 32]), &sig));
    let mut other = [0x42u8; 32];
    other[31] = 0x41;
    assert!(!pk.verify(&Digest(other), &sig));
}

#[test]
fn public_key_refuses_a_signature_of_another_key() {
    let sk = RistrettoSk::from_seed(&seed()).unwrap();
    let other = RistrettoSk::from_seed(&[7u8; 32]).unwrap();
    let digest = Digest([0x42; 32]);
    let sig = other.sign(&digest);
    assert!(!RistrettoPk::with(&sk).verify(&digest, &sig));
    assert!(RistrettoPk::with(&other).verify(&digest, &sig));
}

#[test]
fn public_key_accepts_a_standard_signature() {
    let pk = RistrettoPk::new(PUBLIC);
    let digest = Digest([0x42; 32]);
    assert!(pk.verify(&digest, &RistrettoSig::new(SIGNATURE_OF_42)));
}

#[test]
fn verify_says_no_to_malformed_input() {
    let digest = Digest([0x42; 32]);
    let pk = RistrettoPk::new(PUBLIC);
    assert!(!pk.verify(&digest, &RistrettoSig::new([0u8; 64])));
    assert!(!pk.verify(&digest, &RistrettoSig::new([0xff; 64])));
    let mut broken = SIGNATURE_OF_42;
    broken[0] ^= 1;
    assert!(!pk.verify(&digest, &RistrettoSig::new(broken)));
    assert!(!RistrettoPk::new([0u8; 32]).verify(&digest, &RistrettoSig::new(SIGNATURE_OF_42)));
    assert!(!RistrettoPk::new([0xff; 32]).verify(&digest, &RistrettoSig::new(SIGNATURE_OF_42)));
}

#[test]
fn the_same_noise_gives_the_same_signature() {
    let sk = RistrettoSk::from_seed(&seed()).unwrap();
    let digest = Digest([0x42; 32]);
    let a = sk.sign_with_noise(&digest, &[1u8; 16]);
    let b = sk.sign_with_noise(&digest, &[1u8; 16]);
    let c = sk.sign_with_noise(&digest, &[2u8; 16]);
    assert_eq!(a, b);
    assert_ne!(a, c);
    let pk = RistrettoPk::with(&sk);
    assert!(pk.verify(&digest, &a));
    assert!(pk.verify(&digest, &c));
}

#[test]
fn signatures_of_one_message_may_differ() {
    let sk = RistrettoSk::from_seed(&seed()).unwrap();
    let digest = Digest([0x42; 32]);
    assert_ne!(sk.sign(&digest), sk.sign(&digest));
}

#[test]
fn a_key_that_is_no_pair_signs_what_its_public_part_refuses() {
    let sk = RistrettoSk::new([0x61; 64]);
    let digest = Digest([0x42; 32]);
    let sig = sk.sign(&digest);
    assert!(!RistrettoPk::with(&sk).verify(&digest, &sig));
}

#[test]
fn fingerprint_is_the_start_of_the_key() {
    let pk = RistrettoPk::new(PUBLIC);
    assert_eq!(pk.fingerprint(), Fingerprint([121, 181, 86, 46]));
    assert_eq!(pk.fingerprint(), pk.fingerprint());
    let mut other = PUBLIC;
    other[0] = 0;
    assert_ne!(RistrettoPk::new(other).fingerprint(), pk.fingerprint());
    other = PUBLIC;
    other[4] = 0;
    assert_eq!(RistrettoPk::new(other).fingerprint(), pk.fingerprint());
}

#[test]
fn fingerprints_of_many_keys_differ() {
    let mut seen = std::collections::HashSet::new();
    for _ in 0..200 {
        let sk = RistrettoSk::generate().unwrap();
        let pk = RistrettoPk::with(&sk);
        assert_eq!(pk.fingerprint(), pk.fingerprint());
        assert_eq!(pk.fingerprint().0, pk.to_bytes()[..4]);
        assert!(seen.insert(pk.fingerprint()));
    }
}

#[test]
fn every_key_pair_signs_what_its_public_key_accepts() {
    for n in 0..40u8 {
        let mut seed = [n; 32];
        seed[0] = n.wrapping_mul(31).wrapping_add(1);
        seed[31] = 0x80 | n;
        let sk = RistrettoSk::from_seed(&seed).unwrap();
        let pk = RistrettoPk::with(&sk);
        let digest = Digest([n.wrapping_mul(7); 32]);
        let sig = sk.sign_with_noise(&digest, &[n; 16]);
        assert!(pk.verify(&digest, &sig));
        let sig = sk.sign(&digest);
        assert!(pk.verify(&digest, &sig));
        assert!(!pk.verify(&Digest([n.wrapping_mul(7).wrapping_add(1); 32]), &sig));
    }
}

#[test]
fn key_texts_are_printable_and_read_back() {
    for n in 0..40u8 {
        let mut key = [n.wrapping_mul(37); 32];
        key[0] = n;
        key[31] = 255 - n;
        let pk = RistrettoPk::new(key);
        let text = pk.to_baid58_string();
        assert!(text.bytes().all(|b| (33..=126).contains(&b)));
        assert!(pk.to_mnemonic().bytes().all(|b| (33..=126).contains(&b)));
        assert!(RistrettoPk::text_has_room(text.as_bytes()));
        let parsed =
            <TaggedKey as baid58::FromBaid58<33>>::from_baid58_chunked_str(&text, ':', '#')
                .unwrap();
        assert_eq!(RistrettoPk::from_baid58_payload(&parsed.0), Ok(pk));
    }
}

#[test]
fn fingerprint_text_is_lower_case_hex() {
    assert_eq!(Fingerprint([0xde, 0xad, 0xbe, 0xef]).to_hex(), b"deadbeef".to_vec());
    assert_eq!(Fingerprint([0, 1, 0x0a, 0xf0]).to_hex(), b"00010af0".to_vec());
    assert_eq!(Fingerprint([0xde, 0xad, 0xbe, 0xef]).to_string(), "deadbeef");
    assert_eq!(Fingerprint([0, 1, 0x0a, 0xf0]).to_string(), "00010af0");
}

#[test]
fn fingerprint_is_read_from_hex_of_either_case() {
    assert_eq!(Fingerprint::from_hex(b"deadbeef"), Some(Fingerprint([0xde, 0xad, 0xbe, 0xef])));
    assert_eq!(Fingerprint::from_hex(b"DEADBEEF"), Some(Fingerprint([0xde, 0xad, 0xbe, 0xef])));
    assert_eq!(Fingerprint::from_hex(b"00010aF0"), Some(Fingerprint([0, 1, 0x0a, 0xf0])));
    assert_eq!(Fingerprint::from_hex(b"deadbee"), None);
    assert_eq!(Fingerprint::from_hex(b"deadbeef0"), None);
    assert_eq!(Fingerprint::from_hex(b"deadbeeg"), None);
    assert_eq!(Fingerprint::from_hex(b""), None);
    let fp = Fingerprint([9, 8, 7, 6]);
    assert_eq!(Fingerprint::from_hex(&fp.to_hex()), Some(fp));
    assert_eq!(Fingerprint::from_str(&fp.to_string()), Some(fp));
    assert_eq!(Fingerprint::from_str("DeadBeef"), Some(Fingerprint([0xde, 0xad, 0xbe, 0xef])));
    assert_eq!(Fingerprint::from_str("deadbeé"), None);
    assert_eq!(Fingerprint::from_str("0xdeadbe"), None);
}

#[test]
fn keys_of_the_wrong_length_are_refused() {
    assert_eq!(
        RistrettoPk::from_slice(&[1u8; 31]),
        Err(InvalidKeyEncoding::WrongLength { expected: 32, found: 31 })
    );
    assert_eq!(
        RistrettoPk::from_slice(&[1u8; 33]),
        Err(InvalidKeyEncoding::WrongLength { expected: 32, found: 33 })
    );
    assert_eq!(
        RistrettoPk::from_slice(&[]),
        Err(InvalidKeyEncoding::WrongLength { expected: 32, found: 0 })
    );
    assert_eq!(RistrettoPk::from_slice(&PUBLIC), Ok(RistrettoPk::new(PUBLIC)));
    assert!(matches!(
        RistrettoSk::from_slice(&[1u8; 63]),
        Err(InvalidKeyEncoding::WrongLength { expected: 64, found: 63 })
    ));
    assert_eq!(RistrettoSk::from_slice(&[3u8; 64]).ok().unwrap().to_bytes(), [3u8; 64]);
}

#[test]
fn signatures_of_the_wrong_length_are_refused() {
    assert_eq!(
        RistrettoSig::from_slice(&SIGNATURE_OF_42[..63]),
        Err(InvalidKeyEncoding::WrongLength { expected: 64, found: 63 })
    );
    assert_eq!(
        RistrettoSig::from_slice(&[0u8; 65]),
        Err(InvalidKeyEncoding::WrongLength { expected: 64, found: 65 })
    );
    assert_eq!(RistrettoSig::from_slice(&SIGNATURE_OF_42), Ok(RistrettoSig::new(SIGNATURE_OF_42)));
}

#[test]
fn tagged_payload_is_the_tag_then_the_key() {
    let payload = RistrettoPk::new(PUBLIC).to_baid58_payload();
    assert_eq!(payload[0], 1);
    assert_eq!(&payload[1..], &PUBLIC[..]);
    assert_eq!(RistrettoPk::ID, 1);
    assert_eq!(RistrettoPk::from_baid58_payload(&payload), Ok(RistrettoPk::new(PUBLIC)));
}

#[test]
fn tagged_payload_of_another_algorithm_is_refused() {
    let mut payload = RistrettoPk::new(PUBLIC).to_baid58_payload();
    payload[0] = 2;
    assert_eq!(
        RistrettoPk::from_baid58_payload(&payload),
        Err(InvalidKeyEncoding::WrongAlgorithm(2))
    );
    assert_eq!(
        RistrettoPk::from_baid58_payload(&payload[..32]),
        Err(InvalidKeyEncoding::WrongLength { expected: 33, found: 32 })
    );
    assert_eq!(
        RistrettoPk::from_baid58_payload(&[]),
        Err(InvalidKeyEncoding::WrongLength { expected: 33, found: 0 })
    );
}

#[test]
fn key_text_has_prefix_chunks_and_mnemonic() {
    let pk = RistrettoPk::new(PUBLIC);
    let text = pk.to_baid58_string();
    assert_eq!(pk.to_text(), text.clone().into_bytes());
    let (value, mnemonic) = text.split_once('#').unwrap();
    let value = value.strip_prefix("ssi:").unwrap();
    let chunks: Vec<&str> = value.split('-').collect();
    assert_eq!(chunks.len(), 6);
    assert_eq!(chunks[0].len(), 6);
    for chunk in &chunks[1..5] {
        assert_eq!(chunk.len(), 8);
    }
    assert_eq!(mnemonic.split('-').count(), 3);
    assert_eq!(mnemonic, pk.to_mnemonic());
    assert!(text.bytes().all(|b| (33..=126).contains(&b)));
}

#[test]
fn key_text_is_read_back_by_baid58() {
    for key in [PUBLIC, [0u8; 32], [0xff; 32]] {
        let pk = RistrettoPk::new(key);
        let text = pk.to_baid58_string();
        let parsed =
            <TaggedKey as baid58::FromBaid58<33>>::from_baid58_chunked_str(&text, ':', '#')
                .unwrap();
        assert_eq!(parsed.0, pk.to_baid58_payload());
        assert_eq!(RistrettoPk::from_baid58_payload(&parsed.0), Ok(pk));
        let expected = format!("{::<#.2}", baid58::ToBaid58::to_baid58(&parsed));
        assert_eq!(text, expected);
    }
}

#[test]
fn key_text_has_room_and_short_texts_have_none() {
    let text = RistrettoPk::new(PUBLIC).to_baid58_string().into_bytes();
    assert!(RistrettoPk::text_has_room(&text));
    assert!(RistrettoPk::text_has_room(&text[4..]));
    assert!(RistrettoPk::text_has_room(&[b'1'; 43]));
    assert!(!RistrettoPk::text_has_room(&[b'1'; 42]));
    assert!(!RistrettoPk::text_has_room(b""));
    assert!(!RistrettoPk::text_has_room(b"ssi:-----"));
    assert!(!RistrettoPk::text_has_room(b"ssi:"));
    let mut prefixed = b"ssi:".to_vec();
    prefixed.extend_from_slice(&[b'1'; 42]);
    assert!(!RistrettoPk::text_has_room(&prefixed));
    prefixed.push(b'1');
    assert!(RistrettoPk::text_has_room(&prefixed));
    let mut twice = b"a:b:".to_vec();
    twice.extend_from_slice(&[b'1'; 42]);
    assert!(!RistrettoPk::text_has_room(&twice));
    twice.extend_from_slice(b"11");
    assert!(RistrettoPk::text_has_room(&twice));
    let mut late = b"a:".to_vec();
    late.extend_from_slice(&[b'1'; 40]);
    late.extend_from_slice(b"#x:");
    late.extend_from_slice(&[b'1'; 10]);
    assert!(RistrettoPk::text_has_room(&late));
    let mut not_ascii = text.clone();
    not_ascii[10] = 0xC3;
    assert!(!RistrettoPk::text_has_room(&not_ascii));
}

#[test]
fn texts_without_room_would_not_be_read_as_keys() {
    let samples: [&str; 6] = [
        "ssi:-----",
        "ssi:aaaaaa-bbbbbbbb-cccccccc-dddddddd-eeeeeeee",
        "-----",
        "ssi:x",
        "",
        "ssi:aaaaaa-bbbbbbbb-cccccccc-dddddddd-eeeeeee-",
    ];
    for sample in samples {
        assert!(!RistrettoPk::text_has_room(sample.as_bytes()), "{sample}");
    }
    let longest = "ssi:aaaaaa-bbbbbbbb-cccccccc-dddddddd-eeeeeeee-";
    assert!(RistrettoPk::text_has_room(longest.as_bytes()));
    assert!(<TaggedKey as baid58::FromBaid58<33>>::from_baid58_chunked_str(longest, ':', '#')
        .is_err());
}

#[test]
fn key_texts_of_different_keys_differ() {
    let a = RistrettoPk::new(PUBLIC).to_baid58_string();
    let b = RistrettoPk::new([5u8; 32]).to_baid58_string();
    assert_ne!(a, b);
    assert_ne!(RistrettoPk::new(PUBLIC).to_mnemonic(), RistrettoPk::new([5u8; 32]).to_mnemonic());
}

#[test]
fn keys_encode_as_their_bytes() {
    let mut out = vec![9u8];
    RistrettoPk::new(PUBLIC).strict_encode(&mut out);
    assert_eq!(out.len(), 33);
    assert_eq!(&out[1..], &PUBLIC[..]);
    let mut out = Vec::new();
    RistrettoSk::from_seed(&seed()).unwrap().strict_encode(&mut out);
    assert_eq!(&out[..32], &seed()[..]);
    assert_eq!(&out[32..], &PUBLIC[..]);
    let mut out = Vec::new();
    RistrettoSig::new(SIGNATURE_OF_42).strict_encode(&mut out);
    assert_eq!(out, SIGNATURE_OF_42.to_vec());
}

#[test]
fn truncated_keys_do_not_decode() {
    assert_eq!(RistrettoPk::strict_decode(&PUBLIC[..31], 0), Err(DecodeError::UnexpectedEof));
    assert_eq!(RistrettoPk::strict_decode(&PUBLIC, 1), Err(DecodeError::UnexpectedEof));
    assert_eq!(RistrettoPk::strict_decode(&[], 0), Err(DecodeError::UnexpectedEof));
    assert_eq!(
        RistrettoSig::strict_decode(&SIGNATURE_OF_42[..63], 0),
        Err(DecodeError::UnexpectedEof)
    );
    assert!(RistrettoSk::strict_decode(&[0u8; 63], 0).is_err());
    assert_eq!(RistrettoPk::strict_decode(&PUBLIC, 0), Ok((RistrettoPk::new(PUBLIC), 32)));
    let mut longer = vec![7u8; 3];
    longer.extend_from_slice(&PUBLIC);
    longer.push(1);
    assert_eq!(RistrettoPk::strict_decode(&longer, 3), Ok((RistrettoPk::new(PUBLIC), 35)));
}
