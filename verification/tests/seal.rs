use ssid::DecodeError;
use ssid::Outpoint;
use ssid::Seal;
use ssid::SealParseError;
use ssid::StrictCodec;

fn a_txid() -> String {
    "a".repeat(64)
}

#[test]
fn seal_is_read_with_its_ledger() {
    let seal = Seal::from_str(&format!("bitcoin:{}:0", a_txid())).unwrap();
    assert_eq!(seal, Seal::Bitcoin(Outpoint { txid: [0xaa; 32], vout: 0 }));
    let seal = Seal::from_str(&format!("liquid:{}:7", a_txid())).unwrap();
    assert_eq!(seal, Seal::Liquid(Outpoint { txid: [0xaa; 32], vout: 7 }));
}

#[test]
fn seal_without_a_ledger_is_on_the_primary_one() {
    let seal = Seal::from_str(&format!("{}:4294967295", a_txid())).unwrap();
    assert_eq!(seal, Seal::Bitcoin(Outpoint { txid: [0xaa; 32], vout: u32::MAX }));
}

#[test]
fn seal_holds_the_transaction_id_in_ledger_order() {
    let mut hex = "0".repeat(62);
    hex.push_str("01");
    let seal = Seal::from_str(&format!("bitcoin:{hex}:1")).unwrap();
    let mut txid = [0u8; 32];
    txid[0] = 1;
    assert_eq!(seal, Seal::Bitcoin(Outpoint { txid, vout: 1 }));
}

#[test]
fn malformed_seals_are_refused() {
    let txid = a_txid();
    let samples: Vec<String> = vec![
        String::new(),
        "bitcoin:".to_string(),
        "bitcoin".to_string(),
        txid.clone(),
        format!("{txid}:"),
        format!("{txid}:x"),
        format!("{txid}:-1"),
        format!("{txid}:4294967296"),
        format!("{}:0", &txid[1..]),
        format!("{txid}a:0"),
        format!("{}g:0", &txid[1..]),
        format!("ethereum:{txid}:0"),
        format!("Bitcoin:{txid}:0"),
        format!("bitcoin:liquid:{txid}:0"),
        format!(" bitcoin:{txid}:0"),
        format!("bitcoin:{txid}:0 "),
        "é:0".to_string(),
    ];
    for sample in samples {
        assert_eq!(Seal::from_str(&sample), Err(SealParseError::InvalidOutpoint), "{sample}");
    }
}

#[test]
fn seal_text_names_the_ledger() {
    let seal = Seal::Bitcoin(Outpoint { txid: [0xaa; 32], vout: 0 });
    assert_eq!(seal.to_string(), format!("bitcoin:{}:0", a_txid()));
    assert_eq!(seal.to_text(), format!("bitcoin:{}:0", a_txid()).into_bytes());
    let mut txid = [0u8; 32];
    txid[0] = 1;
    let seal = Seal::Liquid(Outpoint { txid, vout: 258 });
    let mut hex = "0".repeat(62);
    hex.push_str("01");
    assert_eq!(seal.to_string(), format!("liquid:{hex}:258"));
}

#[test]
fn seal_text_is_read_back() {
    let mut txid = [0u8; 32];
    for (i, b) in txid.iter_mut().enumerate() {
        *b = (i * 7) as u8;
    }
    for seal in [
        Seal::Bitcoin(Outpoint { txid, vout: 0 }),
        Seal::Liquid(Outpoint { txid, vout: 65536 }),
        Seal::Bitcoin(Outpoint { txid: [0; 32], vout: u32::MAX }),
    ] {
        assert_eq!(Seal::from_str(&seal.to_string()), Ok(seal));
    }
}

#[test]
fn seal_parts_are_handed_out() {
    let outpoint = Outpoint { txid: [3; 32], vout: 9 };
    assert_eq!(Seal::Bitcoin(outpoint).get_ledger(), ssid::Ledger::Bitcoin);
    assert_eq!(Seal::Liquid(outpoint).get_ledger(), ssid::Ledger::Liquid);
    assert_eq!(Seal::Liquid(outpoint).get_outpoint(), outpoint);
}

#[test]
fn seal_encodes_as_tag_transaction_id_and_output_number() {
    let mut txid = [0u8; 32];
    for (i, b) in txid.iter_mut().enumerate() {
        *b = i as u8;
    }
    let mut out = Vec::new();
    Seal::Liquid(Outpoint { txid, vout: 0x01020304 }).strict_encode(&mut out);
    let mut expected = vec![1u8];
    expected.extend_from_slice(&txid);
    expected.extend_from_slice(&[4, 3, 2, 1]);
    assert_eq!(out, expected);
    let mut out = Vec::new();
    Seal::Bitcoin(Outpoint { txid, vout: 258 }).strict_encode(&mut out);
    assert_eq!(out[0], 0);
    assert_eq!(&out[33..], &[2, 1, 0, 0]);
}

#[test]
fn outpoint_encodes_as_the_ledger_library_does() {
    let mut txid = [0u8; 32];
    for (i, b) in txid.iter_mut().enumerate() {
        *b = 255 - i as u8;
    }
    let theirs = bpstd::Outpoint::new(bpstd::Txid::from(txid), bpstd::Vout::from_u32(70000));
    let writer = strict_encoding::StrictWriter::in_memory::<1024>();
    let writer = strict_encoding::StrictEncode::strict_encode(&theirs, writer).unwrap();
    let expected: Vec<u8> = writer.unbox().unconfine();
    let mut out = Vec::new();
    Outpoint { txid, vout: 70000 }.strict_encode(&mut out);
    assert_eq!(out, expected);
}

#[test]
fn seal_decodes_what_it_encoded() {
    let seal = Seal::Liquid(Outpoint { txid: [0x5a; 32], vout: 77 });
    let mut bytes = vec![0xEE, 0xEE];
    seal.strict_encode(&mut bytes);
    bytes.push(0xDD);
    assert_eq!(Seal::strict_decode(&bytes, 2), Ok((seal, 39)));
}

#[test]
fn seal_with_an_unknown_tag_does_not_decode() {
    let mut bytes = vec![2u8];
    bytes.extend_from_slice(&[0u8; 36]);
    assert_eq!(Seal::strict_decode(&bytes, 0), Err(DecodeError::UnknownTag(2)));
    assert_eq!(Seal::strict_decode(&[0xff], 0), Err(DecodeError::UnknownTag(0xff)));
}

#[test]
fn truncated_seal_does_not_decode() {
    let mut bytes = Vec::new();
    Seal::Bitcoin(Outpoint { txid: [1; 32], vout: 1 }).strict_encode(&mut bytes);
    assert_eq!(bytes.len(), 37);
    for len in 0..37 {
        assert_eq!(Seal::strict_decode(&bytes[..len], 0), Err(DecodeError::UnexpectedEof));
    }
    assert_eq!(Seal::strict_decode(&bytes, 37), Err(DecodeError::UnexpectedEof));
}
