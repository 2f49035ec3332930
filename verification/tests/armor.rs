use ssid::armor::lines;
use ssid::text85::is_valid;
use ssid::Armor;

fn text(lines: &[&str]) -> Vec<u8> {
    let mut out = Vec::new();
    for line in lines {
        out.extend_from_slice(line.as_bytes());
        out.push(b'\n');
    }
    out
}

#[test]
fn lines_split_at_line_feeds() {
    assert_eq!(lines(b"a\nbc\n"), vec![b"a".to_vec(), b"bc".to_vec()]);
}

#[test]
fn lines_keep_an_unended_last_line() {
    assert_eq!(lines(b"a\nbc"), vec![b"a".to_vec(), b"bc".to_vec()]);
}

#[test]
fn lines_of_empty_text_are_none() {
    assert_eq!(lines(b""), Vec::<Vec<u8>>::new());
}

#[test]
fn lines_keep_empty_lines_in_the_middle() {
    assert_eq!(lines(b"a\n\nb\n"), vec![b"a".to_vec(), b"".to_vec(), b"b".to_vec()]);
}

#[test]
fn lines_drop_a_carriage_return_before_a_line_feed() {
    assert_eq!(lines(b"a\r\nb\r\n"), vec![b"a".to_vec(), b"b".to_vec()]);
}

#[test]
fn lines_keep_a_carriage_return_without_a_line_feed() {
    assert_eq!(lines(b"a\rb\nc\r"), vec![b"a\rb".to_vec(), b"c\r".to_vec()]);
}

#[test]
fn lines_agree_with_the_standard_library() {
    let samples: [&str; 6] =
        ["", "\n", "one", "one\ntwo\n\nthree", "a\r\n\r\nb\r", "\n\nx\n\n"];
    for sample in samples {
        let expected: Vec<Vec<u8>> = sample.lines().map(|l| l.as_bytes().to_vec()).collect();
        assert_eq!(lines(sample.as_bytes()), expected);
    }
}

#[test]
fn render_writes_markers_headers_and_payload() {
    let headers = vec![b"Id: abc".to_vec(), b"Note: hello".to_vec()];
    let rendered = Armor::render(b"TEST BLOCK", &headers, b"VPRom");
    let expected = text(&[
        "-----BEGIN TEST BLOCK-----",
        "Id: abc",
        "Note: hello",
        "",
        "VPRom",
        "",
        "-----END TEST BLOCK-----",
    ]);
    assert_eq!(rendered, expected);
}

#[test]
fn render_wraps_the_payload_at_64_characters() {
    let payload = "Xk~0{Zy<MXa%^NQAarPHb0BGRAYmYIVR>wCVPqh0W*}j5ZEtdAWFTZ=bYUQLXkm09cXDBHb0BPKZe?>J";
    let rendered = Armor::render(b"T", &Vec::new(), payload.as_bytes());
    let expected = text(&[
        "-----BEGIN T-----",
        "",
        "Xk~0{Zy<MXa%^NQAarPHb0BGRAYmYIVR>wCVPqh0W*}j5ZEtdAWFTZ=bYUQLXkm0",
        "9cXDBHb0BPKZe?>J",
        "",
        "-----END T-----",
    ]);
    assert_eq!(rendered, expected);
}

#[test]
fn render_ends_a_full_last_line_with_an_empty_one() {
    let payload = vec![b'0'; 64];
    let rendered = Armor::render(b"T", &Vec::new(), &payload);
    let full = "0".repeat(64);
    let expected = text(&["-----BEGIN T-----", "", &full, "", "", "-----END T-----"]);
    assert_eq!(rendered, expected);
}

#[test]
fn render_of_an_empty_payload() {
    let rendered = Armor::render(b"T", &Vec::new(), b"");
    let expected = text(&["-----BEGIN T-----", "", "", "", "-----END T-----"]);
    assert_eq!(rendered, expected);
}

#[test]
fn parse_reads_back_what_render_wrote() {
    let headers = vec![b"Id: one".to_vec(), b"Signed-By: two".to_vec()];
    for len in [0usize, 1, 63, 64, 65, 128, 200] {
        let payload = vec![b'A'; len];
        let rendered = Armor::render(b"SSID SECRET KEY", &headers, &payload);
        let armor = Armor::parse(&rendered, b"SSID SECRET KEY").unwrap();
        assert_eq!(armor.id_values, vec![b"one".to_vec()]);
        assert_eq!(armor.payload, payload);
    }
}

#[test]
fn parse_refuses_a_wrong_first_line() {
    let block = text(&["-----BEGIN OTHER-----", "", "VPRom", "", "-----END T-----"]);
    assert!(Armor::parse(&block, b"T").is_none());
}

#[test]
fn parse_refuses_a_wrong_last_line() {
    let block = text(&["-----BEGIN T-----", "", "VPRom", "", "-----END OTHER-----"]);
    assert!(Armor::parse(&block, b"T").is_none());
}

#[test]
fn parse_takes_the_whitespace_off_the_marker_lines() {
    let plain = text(&["-----BEGIN T-----", "Id: x", "", "VPRom", "", "-----END T-----"]);
    let expected = Armor::parse(&plain, b"T").unwrap();
    let samples: [&[&str]; 5] = [
        &["-----BEGIN T----- ", "Id: x", "", "VPRom", "", "-----END T----- "],
        &[" -----BEGIN T-----", "Id: x", "", "VPRom", "", "  -----END T-----"],
        &["\t-----BEGIN T-----\t", "Id: x", "", "VPRom", "", " \t -----END T----- \t "],
        &["-----BEGIN T-----\r", "Id: x", "", "VPRom", "", "-----END T-----\x0C"],
        &["-----BEGIN T-----", "Id: x", "", "VPRom", "", "-----END T-----   "],
    ];
    for lines in samples {
        let armor = Armor::parse(&text(lines), b"T").unwrap();
        assert_eq!(armor.id_values, expected.id_values);
        assert_eq!(armor.payload, expected.payload);
    }
    let unended = b"-----BEGIN T-----  \nId: x\n\nVPRom\n\n-----END T----- \r";
    let armor = Armor::parse(unended, b"T").unwrap();
    assert_eq!(armor.id_values, expected.id_values);
    assert_eq!(armor.payload, expected.payload);
}

#[test]
fn parse_takes_no_whitespace_out_of_the_marker_lines() {
    let samples: [&[&str]; 5] = [
        &["----- BEGIN T-----", "", "VPRom", "", "-----END T-----"],
        &["-----BEGIN T -----", "", "VPRom", "", "-----END T-----"],
        &["-----BEGIN T-----", "", "VPRom", "", "-----END  T-----"],
        &["x -----BEGIN T-----", "", "VPRom", "", "-----END T-----"],
        &["-----BEGIN T-----", "", "VPRom", "", "-----END T----- x"],
    ];
    for lines in samples {
        assert!(Armor::parse(&text(lines), b"T").is_none());
    }
}

#[test]
fn parse_does_not_skip_blank_lines_around_the_markers() {
    let before = text(&["", "-----BEGIN T-----", "", "VPRom", "", "-----END T-----"]);
    assert!(Armor::parse(&before, b"T").is_none());
    let after = text(&["-----BEGIN T-----", "", "VPRom", "", "-----END T-----", " "]);
    assert!(Armor::parse(&after, b"T").is_none());
}

#[test]
fn trim_takes_ascii_whitespace_off_both_ends() {
    assert_eq!(ssid::armor::trim(b"  a b \t\r\n"), b"a b");
    assert_eq!(ssid::armor::trim(b"a"), b"a");
    assert_eq!(ssid::armor::trim(b""), b"");
    assert_eq!(ssid::armor::trim(b" \t\x0C\r\n "), b"");
    assert_eq!(ssid::armor::trim(b"\x0Bx\x0B"), b"\x0Bx\x0B");
    assert_eq!(ssid::armor::trim(&[0xC2, 0xA0, b'x']), &[0xC2, 0xA0, b'x']);
    for sample in ["", " ", "x", " x", "x ", " x y ", "\t\tx\r", "\n x \n"] {
        assert_eq!(ssid::armor::trim(sample.as_bytes()), sample.as_bytes().trim_ascii());
    }
}

#[test]
fn parse_refuses_a_single_line() {
    assert!(Armor::parse(b"-----BEGIN T-----\n", b"T").is_none());
    assert!(Armor::parse(b"", b"T").is_none());
}

#[test]
fn parse_refuses_text_after_the_last_marker() {
    let block = text(&["-----BEGIN T-----", "", "VPRom", "-----END T-----", "more"]);
    assert!(Armor::parse(&block, b"T").is_none());
}

#[test]
fn parse_accepts_markers_without_anything_between() {
    let block = text(&["-----BEGIN T-----", "-----END T-----"]);
    let armor = Armor::parse(&block, b"T").unwrap();
    assert!(armor.id_values.is_empty());
    assert!(armor.payload.is_empty());
}

#[test]
fn parse_takes_headers_up_to_the_first_empty_line() {
    let block = text(&[
        "-----BEGIN T-----",
        "Id: first",
        "Other: x",
        "Id: second",
        "",
        "Id: payload",
        "",
        "tail",
        "-----END T-----",
    ]);
    let armor = Armor::parse(&block, b"T").unwrap();
    assert_eq!(armor.id_values, vec![b"first".to_vec(), b"second".to_vec()]);
    assert_eq!(armor.payload, b"Id: payloadtail".to_vec());
}

#[test]
fn parse_without_an_empty_line_has_no_payload() {
    let block = text(&["-----BEGIN T-----", "Id: x", "Key: y", "-----END T-----"]);
    let armor = Armor::parse(&block, b"T").unwrap();
    assert_eq!(armor.id_values, vec![b"x".to_vec()]);
    assert!(armor.payload.is_empty());
}

#[test]
fn parse_wants_the_space_after_the_colon_of_an_id_header() {
    let block = text(&["-----BEGIN T-----", "Id:x", "id: y", "Id: ", "", "-----END T-----"]);
    let armor = Armor::parse(&block, b"T").unwrap();
    assert_eq!(armor.id_values, vec![b"".to_vec()]);
}

#[test]
fn parse_accepts_carriage_returns_before_line_feeds() {
    let block = b"-----BEGIN T-----\r\nId: x\r\n\r\nVPRom\r\n\r\n-----END T-----\r\n";
    let armor = Armor::parse(block, b"T").unwrap();
    assert_eq!(armor.id_values, vec![b"x".to_vec()]);
    assert_eq!(armor.payload, b"VPRom".to_vec());
}

#[test]
fn base85_accepts_full_and_short_groups() {
    assert!(is_valid(b""));
    assert!(is_valid(b"VPRom"));
    assert!(is_valid(b"VE"));
    assert!(is_valid(b"VPO"));
    assert!(is_valid(b"VPRn"));
    assert!(is_valid(b"VPRomVE"));
    assert!(is_valid(b"|NsC0"));
    assert!(is_valid(b"{{"));
}

#[test]
fn base85_refuses_a_lone_character() {
    assert!(!is_valid(b"V"));
    assert!(!is_valid(b"VPRomV"));
}

#[test]
fn base85_refuses_characters_outside_the_alphabet() {
    assert!(!is_valid(b"VPR m"));
    assert!(!is_valid(b"VPRo\n"));
    assert!(!is_valid(b"VP\"om"));
    assert!(!is_valid(b"VP,om"));
    assert!(!is_valid(&[b'V', b'P', 0xC3, 0xA9, b'm']));
}

#[test]
fn base85_refuses_groups_beyond_32_bits() {
    assert!(is_valid(b"|NsC0"));
    assert!(!is_valid(b"|NsC1"));
    assert!(!is_valid(b"~~~~~"));
    assert!(!is_valid(b"~~"));
    assert!(!is_valid(b"VPRom~~~~~"));
}

#[test]
fn base85_of_any_data_is_well_formed_and_read_back() {
    let mut state: u32 = 0x9E37_79B9;
    for len in 0..70usize {
        for round in 0..4 {
            let data: Vec<u8> = (0..len)
                .map(|_| {
                    state = state.wrapping_mul(1_664_525).wrapping_add(1_013_904_223);
                    match round {
                        0 => (state >> 24) as u8,
                        1 => 0xff,
                        2 => 0,
                        _ => 0xf0 | (state >> 28) as u8,
                    }
                })
                .collect();
            let text = base85::encode(&data);
            assert!(is_valid(text.as_bytes()), "{text}");
            assert_eq!(base85::decode(&text).unwrap(), data);
            let expected = if len % 4 == 0 { len / 4 * 5 } else { len / 4 * 5 + len % 4 + 1 };
            assert_eq!(text.len(), expected);
        }
    }
}

#[test]
fn well_formed_base85_is_decoded_without_error() {
    let samples: [&str; 8] =
        ["", "00", "000", "0000", "00000", "|NsC0", "{{", "VPRomVPRom|NsC0zz"];
    for sample in samples {
        assert!(is_valid(sample.as_bytes()), "{sample}");
        assert!(base85::decode(sample).is_ok(), "{sample}");
    }
}
