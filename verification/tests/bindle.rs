use ssid::bindle::MAX_PAYLOAD;
use ssid::Armor;
use ssid::Bindle;
use ssid::BindleContent;
use ssid::BindleParseError;
use ssid::DecodeError;
use ssid::DeserializeError;
use ssid::Digest;
use ssid::IdCert;
use ssid::Identity;
use ssid::LoadError;
use ssid::Outpoint;
use ssid::RistrettoPk;
use ssid::RistrettoSk;
use ssid::Seal;
use ssid::SigCert;
use ssid::Signature;
use ssid::Sk;
use ssid::Ssi;
use ssid::StrictCodec;

type SkBindle = Bindle<RistrettoSk>;
type CertBindle = Bindle<IdCert>;

#[derive(Copy, Clone, PartialEq, Eq, Debug)]
struct TaggedKey([u8; 33]);

impl From<[u8; 33]> for TaggedKey {
    fn from(value: [u8; 33]) -> Self {
        TaggedKey(value)
    }
}

impl baid58::ToBaid58<33> for TaggedKey {
    const HRI: &'static str = "ssi";
    const CHUNKING: Option<baid58::Chunking> = baid58::CHUNKING_32;

    fn to_baid58_payload(&self) -> [u8; 33] {
        self.0
    }
}

impl baid58::FromBaid58<33> for TaggedKey {}

fn parse_id(value: &[u8]) -> Option<RistrettoPk> {
    if !RistrettoPk::text_has_room(value) {
        return None;
    }
    let text = std::str::from_utf8(value).ok()?;
    let key =
        <TaggedKey as baid58::FromBaid58<33>>::from_baid58_chunked_str(text, ':', '#').ok()?;
    RistrettoPk::from_baid58_payload(&key.0).ok()
}

fn read<C: BindleContent<Id = RistrettoPk>>(
    text: &str,
) -> Result<Bindle<C>, BindleParseError<RistrettoPk>> {
    let armor = Bindle::<C>::unarmor(text)?;
    let ids: Vec<Option<RistrettoPk>> = armor.id_values.iter().map(|v| parse_id(v)).collect();
    Bindle::from_armor(&armor, &ids)
}

fn seed() -> [u8; 32] {
    let mut seed = [0u8; 32];
    for (i, b) in seed.iter_mut().enumerate() {
        *b = i as u8 + 1;
    }
    seed
}

fn lines_of(text: &str) -> Vec<String> {
    text.lines().map(str::to_owned).collect()
}

fn with_id(text: &str, id: &str) -> String {
    let mut out = String::new();
    for line in lines_of(text) {
        if line.starts_with("Id: ") {
            out.push_str("Id: ");
            out.push_str(id);
        } else {
            out.push_str(&line);
        }
        out.push('\n');
    }
    out
}

fn a_seal() -> Seal {
    Seal::from_str(&format!("bitcoin:{}:0", "a".repeat(64))).unwrap()
}

#[test]
fn new_bindle_carries_the_identifier_of_its_content() {
    let sk = RistrettoSk::from_seed(&seed()).unwrap();
    let public = sk.public;
    let bindle = SkBindle::new(sk);
    assert_eq!(bindle.id(), RistrettoPk::new(public));
    assert_eq!(bindle.signers(), 0);
    assert_eq!(bindle.data().seed, seed());
    let (data, sigs) = bindle.into_split();
    assert_eq!(data.seed, seed());
    assert!(sigs.is_empty());
    let bindle = SkBindle::new(RistrettoSk::from_seed(&seed()).unwrap());
    assert_eq!(bindle.unbindle().to_bytes()[32..], public);
}

#[test]
fn magic_and_titles_of_the_two_kinds_of_content() {
    assert_eq!(RistrettoSk::MAGIC, *b"SSSK");
    assert_eq!(RistrettoSk::PLATE_TITLE, "SSID SECRET KEY");
    assert_eq!(IdCert::<RistrettoPk>::MAGIC, *b"SSID");
    assert_eq!(IdCert::<RistrettoPk>::PLATE_TITLE, "SSID IDENTITY CERTIFICATE");
}

#[test]
fn armored_secret_key_has_the_expected_text() {
    let bindle = SkBindle::new(RistrettoSk::new([0x61; 64]));
    let id = RistrettoPk::new([0x61; 32]).to_baid58_string();
    let expected = format!(
        "-----BEGIN SSID SECRET KEY-----\nId: {id}\n\n{}VPRo\nm{}\n\n-----END SSID SECRET KEY-----\n",
        "VPRom".repeat(12),
        "VPRom".repeat(3),
    );
    assert_eq!(bindle.to_string().unwrap(), expected);
    assert_eq!(bindle.to_armor().unwrap(), expected.into_bytes());
}

#[test]
fn armored_certificate_has_the_expected_shape() {
    let ssi = Ssi::<RistrettoPk>::with_key(RistrettoSk::from_seed(&seed()).unwrap(), a_seal());
    let id = ssi.cert.bindle_id().to_baid58_string();
    let lines = lines_of(&CertBindle::new(ssi.cert).to_string().unwrap());
    assert_eq!(lines[0], "-----BEGIN SSID IDENTITY CERTIFICATE-----");
    assert_eq!(lines[1], format!("Id: {id}"));
    assert_eq!(lines[2], "");
    assert_eq!(lines[3].len(), 64);
    assert_eq!(lines[4].len(), 64);
    assert_eq!(lines[5].len(), 169 - 128);
    assert_eq!(lines[6], "");
    assert_eq!(lines[7], "-----END SSID IDENTITY CERTIFICATE-----");
    assert_eq!(lines.len(), 8);
}

#[test]
fn armored_secret_key_is_read_back() {
    let sk = RistrettoSk::from_seed(&seed()).unwrap();
    let bytes = sk.to_bytes();
    let bindle = SkBindle::new(sk);
    let id = bindle.id();
    let back: SkBindle = read(&bindle.to_string().unwrap()).ok().unwrap();
    assert_eq!(back.id(), id);
    assert_eq!(back.signers(), 0);
    assert_eq!(back.unbindle().to_bytes(), bytes);
}

#[test]
fn armored_certificate_is_read_back() {
    let ssi = Ssi::<RistrettoPk>::new(a_seal()).unwrap();
    let fingerprint = ssi.fingerprint();
    assert_eq!(fingerprint.0.len(), 4);
    let id = ssi.cert.bindle_id();
    let mut encoding = Vec::new();
    ssi.cert.strict_encode(&mut encoding);
    let text = CertBindle::new(ssi.cert).to_string().unwrap();
    let back: CertBindle = read(&text).ok().unwrap();
    assert_eq!(back.id(), id);
    assert_eq!(back.data().bindle_id(), id);
    assert_eq!(back.data().fingerprint(), fingerprint);
    assert_eq!(back.data().genesis_id.seal, a_seal());
    assert_eq!(back.data().verify(&Vec::new()), Ok(()));
    let mut again = Vec::new();
    back.data().strict_encode(&mut again);
    assert_eq!(again, encoding);
    assert_eq!(back.to_string().unwrap(), text);
}

#[test]
fn armored_bindle_with_whitespace_around_its_markers_is_read() {
    let sk = RistrettoSk::from_seed(&seed()).unwrap();
    let bytes = sk.to_bytes();
    let bindle = SkBindle::new(sk);
    let id = bindle.id();
    let good = bindle.to_string().unwrap();
    let spaced = good
        .replace("-----BEGIN SSID SECRET KEY-----\n", "-----BEGIN SSID SECRET KEY----- \n")
        .replace("-----END SSID SECRET KEY-----\n", "-----END SSID SECRET KEY-----  \n");
    assert_ne!(spaced, good);
    let back: SkBindle = read(&spaced).ok().unwrap();
    assert_eq!(back.id(), id);
    assert_eq!(back.unbindle().to_bytes(), bytes);
    let indented = good
        .replace("-----BEGIN SSID SECRET KEY-----\n", "\t-----BEGIN SSID SECRET KEY-----\r\n")
        .replace("-----END SSID SECRET KEY-----\n", " -----END SSID SECRET KEY-----");
    let back: SkBindle = read(&indented).ok().unwrap();
    assert_eq!(back.id(), id);
}

#[test]
fn armored_bindle_without_an_id_header_is_read() {
    let bindle = SkBindle::new(RistrettoSk::new([0x61; 64]));
    let text: String = lines_of(&bindle.to_string().unwrap())
        .into_iter()
        .filter(|l| !l.starts_with("Id: "))
        .map(|l| format!("{l}\n"))
        .collect();
    let back: SkBindle = read(&text).ok().unwrap();
    assert_eq!(back.id(), RistrettoPk::new([0x61; 32]));
    assert_eq!(back.unbindle().to_bytes(), [0x61; 64]);
}

#[test]
fn another_id_in_the_header_is_a_mismatch() {
    let bindle = SkBindle::new(RistrettoSk::from_seed(&seed()).unwrap());
    let actual = bindle.id();
    let expected = RistrettoPk::new([5; 32]);
    let other = expected.to_baid58_string();
    let tampered = with_id(&bindle.to_string().unwrap(), &other);
    let result: Result<SkBindle, _> = read(&tampered);
    assert_eq!(result.err(), Some(BindleParseError::MismatchedId { actual, expected }));
}

#[test]
fn the_last_id_header_is_the_one_that_counts() {
    let bindle = SkBindle::new(RistrettoSk::from_seed(&seed()).unwrap());
    let own = bindle.id().to_baid58_string();
    let other = RistrettoPk::new([5; 32]).to_baid58_string();
    let text = bindle.to_string().unwrap();
    let own_last = text.replace(&format!("Id: {own}\n"), &format!("Id: {other}\nId: {own}\n"));
    assert!(read::<RistrettoSk>(&own_last).is_ok());
    let other_last = text.replace(&format!("Id: {own}\n"), &format!("Id: {own}\nId: {other}\n"));
    assert!(matches!(
        read::<RistrettoSk>(&other_last),
        Err(BindleParseError::MismatchedId { .. })
    ));
}

#[test]
fn a_header_value_that_is_no_id_is_an_error() {
    let bindle = SkBindle::new(RistrettoSk::from_seed(&seed()).unwrap());
    let tampered = with_id(&bindle.to_string().unwrap(), "ssi:nonsense");
    let result: Result<SkBindle, _> = read(&tampered);
    assert_eq!(result.err(), Some(BindleParseError::InvalidId(b"ssi:nonsense".to_vec())));
}

#[test]
fn the_first_bad_id_header_is_the_one_reported() {
    let armor = Armor {
        id_values: vec![b"one".to_vec(), b"two".to_vec(), b"three".to_vec()],
        payload: b"~~~~~".to_vec(),
    };
    let id = RistrettoPk::new([1; 32]);
    let result = SkBindle::from_armor(&armor, &vec![Some(id), None, None]);
    assert_eq!(result.err(), Some(BindleParseError::InvalidId(b"two".to_vec())));
}

#[test]
fn wrong_markers_are_a_structure_error() {
    let text = SkBindle::new(RistrettoSk::new([0x61; 64])).to_string().unwrap();
    let result: Result<CertBindle, _> = read(&text);
    assert_eq!(result.err(), Some(BindleParseError::WrongStructure));
    assert_eq!(read::<RistrettoSk>("").err(), Some(BindleParseError::WrongStructure));
    assert_eq!(
        read::<RistrettoSk>(&text[..text.len() - 10]).err(),
        Some(BindleParseError::WrongStructure)
    );
    let padded = format!("\n{text}");
    assert_eq!(read::<RistrettoSk>(&padded).err(), Some(BindleParseError::WrongStructure));
}

#[test]
fn payload_that_is_no_base85_is_an_error() {
    for payload in ["VPRo m", "V", "~~~~~", "VPRom\"", "VPRomV"] {
        let armor = Armor { id_values: Vec::new(), payload: payload.as_bytes().to_vec() };
        let result = SkBindle::from_armor(&armor, &Vec::new());
        assert_eq!(result.err(), Some(BindleParseError::Base85), "{payload}");
    }
}

#[test]
fn payload_that_is_too_short_does_not_deserialize() {
    let armor = Armor { id_values: Vec::new(), payload: "VPRom".repeat(15).into_bytes() };
    let result = SkBindle::from_armor(&armor, &Vec::new());
    assert_eq!(
        result.err(),
        Some(BindleParseError::Deserialize(DeserializeError::Decode(DecodeError::UnexpectedEof)))
    );
    let armor = Armor { id_values: Vec::new(), payload: Vec::new() };
    let result = SkBindle::from_armor(&armor, &Vec::new());
    assert_eq!(
        result.err(),
        Some(BindleParseError::Deserialize(DeserializeError::Decode(DecodeError::UnexpectedEof)))
    );
}

#[test]
fn payload_with_bytes_left_over_does_not_deserialize() {
    let mut payload = "VPRom".repeat(16).into_bytes();
    payload.extend_from_slice(b"VE");
    let armor = Armor { id_values: Vec::new(), payload };
    let result = SkBindle::from_armor(&armor, &Vec::new());
    assert_eq!(
        result.err(),
        Some(BindleParseError::Deserialize(DeserializeError::DataNotEntirelyConsumed))
    );
}

#[test]
fn payload_with_an_unknown_tag_does_not_deserialize() {
    let ssi = Ssi::<RistrettoPk>::with_key(RistrettoSk::from_seed(&seed()).unwrap(), a_seal());
    let mut bytes = Vec::new();
    ssi.cert.strict_encode(&mut bytes);
    bytes[34] = 3;
    let text = String::from_utf8(Armor::render(
        b"SSID IDENTITY CERTIFICATE",
        &Vec::new(),
        base85::encode(&bytes).as_bytes(),
    ))
    .unwrap();
    assert_eq!(
        read::<IdCert<RistrettoPk>>(&text).err(),
        Some(BindleParseError::Deserialize(DeserializeError::Decode(DecodeError::UnknownTag(3))))
    );
    let mut file = b"SSID".to_vec();
    file.extend_from_slice(&ssi.cert.bindle_id().to_bytes());
    file.extend_from_slice(&bytes);
    file.push(0);
    assert_eq!(CertBindle::load(&file).err(), Some(LoadError::Decode(DecodeError::UnknownTag(3))));
}

#[test]
fn payload_is_the_base85_of_the_encoding() {
    let ssi = Ssi::<RistrettoPk>::with_key(RistrettoSk::from_seed(&seed()).unwrap(), a_seal());
    let mut bytes = Vec::new();
    ssi.cert.strict_encode(&mut bytes);
    let armor = CertBindle::unarmor(&CertBindle::new(ssi.cert).to_string().unwrap()).ok().unwrap();
    assert_eq!(armor.payload, base85::encode(&bytes).into_bytes());
    assert_eq!(base85::decode(std::str::from_utf8(&armor.payload).unwrap()).unwrap(), bytes);
}

#[test]
fn payload_of_any_length_is_decoded() {
    for (data, text) in [
        (&[0xffu8, 0xff, 0xff, 0xff][..], "|NsC0"),
        (&[0xff][..], "{{"),
        (&b"a"[..], "VE"),
        (&b"aaaaaaa"[..], "VPRomVPRn"),
        (&[0, 1, 2, 3, 4, 5, 6, 7, 8, 9][..], "009C61O)~M2nh"),
    ] {
        assert_eq!(base85::encode(data), text);
        let armor = Armor { id_values: Vec::new(), payload: text.as_bytes().to_vec() };
        let result = SkBindle::from_armor(&armor, &Vec::new());
        assert_eq!(
            result.err(),
            Some(BindleParseError::Deserialize(DeserializeError::Decode(
                DecodeError::UnexpectedEof
            )))
        );
    }
}

#[test]
fn identity_text_is_the_prefix_and_the_key() {
    let identity =
        Identity { key: RistrettoPk::new([9; 32]), seal: Seal::Liquid(Outpoint { txid: [1; 32], vout: 2 }) };
    let key = identity.key.to_baid58_string();
    assert_eq!(identity.to_string(), format!("ssi:{key}"));
    assert_eq!(identity.to_text(), format!("ssi:{key}").into_bytes());
    assert_eq!(
        identity.to_string_with_seal(),
        format!("ssi:{key}@liquid:{}:2", "01".repeat(32))
    );
}

#[test]
fn content_beyond_16_mib_is_not_armored() {
    let mut cert =
        Ssi::<RistrettoPk>::with_key(RistrettoSk::from_seed(&seed()).unwrap(), a_seal()).cert;
    let proof = ssid::BpProof {
        seal_tx: ssid::SealTx { txid: [0xaa; 32], outputs: 1 },
        witness_tx: ssid::WitnessTx {
            txid: [1; 32],
            inputs: vec![Outpoint { txid: [0xaa; 32], vout: 0 }],
        },
        merkle_path: vec![[7; 32]; MAX_PAYLOAD / 32 + 1],
    };
    let next = Identity { key: RistrettoPk::new([9; 32]), seal: a_seal() };
    assert_eq!(cert.revoke(next, ssid::Proof::Bitcoin(proof)), Ok(()));
    assert!(cert.is_encodable());
    let bindle = CertBindle::new(cert);
    assert_eq!(bindle.to_string().err(), Some(ssid::bindle::SizeExceeded));
    assert_eq!(bindle.to_armor().err(), Some(ssid::bindle::SizeExceeded));
    let file = bindle.save();
    assert!(file.len() > MAX_PAYLOAD);
    assert_eq!(CertBindle::load(&file).ok().unwrap().save(), file);
}

#[test]
fn payload_beyond_16_mib_is_too_large() {
    let groups = (MAX_PAYLOAD + 1) / 4;
    let armor = Armor { id_values: Vec::new(), payload: "00000".repeat(groups).into_bytes() };
    let result = SkBindle::from_armor(&armor, &Vec::new());
    assert_eq!(result.err(), Some(BindleParseError::TooLarge));
}

#[test]
fn binary_file_starts_with_the_magic_bytes() {
    let sk = RistrettoSk::from_seed(&seed()).unwrap();
    let bytes = sk.to_bytes();
    let file = SkBindle::new(sk).save();
    let mut expected = b"SSSK".to_vec();
    expected.extend_from_slice(&bytes[32..]);
    expected.extend_from_slice(&bytes);
    expected.push(0);
    assert_eq!(file, expected);
}

#[test]
fn binary_file_is_loaded_back() {
    let ssi = Ssi::<RistrettoPk>::new(a_seal()).unwrap();
    let id = ssi.cert.bindle_id();
    let file = CertBindle::new(ssi.cert).save();
    assert_eq!(&file[..4], b"SSID");
    let back = CertBindle::load(&file).ok().unwrap();
    assert_eq!(back.id(), id);
    assert_eq!(back.signers(), 0);
    assert_eq!(back.save(), file);
    let mut longer = file.clone();
    longer.extend_from_slice(b"trailing");
    assert_eq!(CertBindle::load(&longer).ok().unwrap().save(), file);
}

#[test]
fn binary_file_with_signatures_is_loaded_back() {
    let signer = Ssi::<RistrettoPk>::with_key(RistrettoSk::from_seed(&seed()).unwrap(), a_seal());
    let digest = [7u8; 32];
    let sig = signer.sk.sign(&Digest(digest));
    let cert = SigCert { sig: Signature { digest, sig }, id: signer.cert };
    let mut file = SkBindle::new(RistrettoSk::new([0x61; 64])).save();
    assert_eq!(file.pop(), Some(0));
    file.push(1);
    cert.strict_encode(&mut file);
    let back = SkBindle::load(&file).ok().unwrap();
    assert_eq!(back.signers(), 1);
    assert_eq!(back.save(), file);
    let text = back.to_string().unwrap();
    let key = cert.identity().key.to_baid58_string();
    assert!(text.contains(&format!("\nSigned-By: ssi:{key}\n\n")));
    let again: SkBindle = read(&text).ok().unwrap();
    assert_eq!(again.signers(), 0);
    assert_eq!(again.id(), back.id());
    let (_, sigs) = back.into_split();
    assert!(sigs[0].verify());
}

#[test]
fn wrong_magic_bytes_are_refused_before_anything_else() {
    let file = SkBindle::new(RistrettoSk::from_seed(&seed()).unwrap()).save();
    for at in 0..4 {
        let mut broken = file.clone();
        broken[at] ^= 0x20;
        assert_eq!(SkBindle::load(&broken).err(), Some(LoadError::InvalidMagic));
        assert_eq!(SkBindle::load(&broken[..4]).err(), Some(LoadError::InvalidMagic));
        broken.truncate(20);
        assert_eq!(SkBindle::load(&broken).err(), Some(LoadError::InvalidMagic));
    }
    assert_eq!(CertBindle::load(&file).err(), Some(LoadError::InvalidMagic));
    assert_eq!(SkBindle::load(b"SSID").err(), Some(LoadError::InvalidMagic));
}

#[test]
fn truncated_binary_file_does_not_load() {
    let file = SkBindle::new(RistrettoSk::from_seed(&seed()).unwrap()).save();
    for len in 0..file.len() {
        assert_eq!(
            SkBindle::load(&file[..len]).err(),
            Some(LoadError::Decode(DecodeError::UnexpectedEof)),
            "{len}"
        );
    }
    assert!(SkBindle::load(&file).is_ok());
}

#[test]
fn binary_file_with_a_foreign_identifier_does_not_load() {
    let mut file = SkBindle::new(RistrettoSk::from_seed(&seed()).unwrap()).save();
    file[4] ^= 1;
    assert_eq!(SkBindle::load(&file).err(), Some(LoadError::MismatchedId));
}
