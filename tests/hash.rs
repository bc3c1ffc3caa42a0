use rotsniff::hash::blake2s;

const HELLO_HEX: &str = "021CED8799296CECA557832AB941A50B4A11F83478CF141F51F933F653AB9FBCC05A037CDDBED06E309BF334942C4E58CDF1A46E237911CCD7FCF9787CBC7FD0";

#[test]
fn blake2s_of_hello_world() {
    let h = blake2s(b"hello world");
    assert_eq!(format!("blake2b:{}", HELLO_HEX), h.to_string());
    assert_eq!(0x02, h.digest()[0]);
    assert_eq!(0xD0, h.digest()[63]);
}

#[test]
fn text_form_is_upper_case_hex() {
    let mut bytes = [0u8; 64];
    for (i, b) in bytes.iter_mut().enumerate() {
        *b = (i * 4 + 1) as u8;
    }
    bytes[0] = 0xAB;
    bytes[63] = 0x0F;
    let text = rotsniff::hash::Hash::Blake2b512(bytes).to_string();
    assert_eq!(136, text.len());
    assert!(text.starts_with("blake2b:AB05"));
    assert!(text.ends_with("0F"));
}

#[test]
fn fingerprint_round_trip() {
    let h = blake2s(b"some content");
    assert_eq!(Some(h), rotsniff::hash::Hash::parse(&h.to_string()));
    let z = rotsniff::hash::Hash::Blake2b512([0xFF; 64]);
    assert_eq!(Some(z), rotsniff::hash::Hash::parse(&z.to_string()));
}

#[test]
fn parse_accepts_lower_case_hex() {
    let text = format!("blake2b:{}", HELLO_HEX.to_lowercase());
    assert_eq!(Some(blake2s(b"hello world")), rotsniff::hash::Hash::parse(&text));
}

#[test]
fn parse_refuses_other_shapes() {
    let good = format!("blake2b:{}", HELLO_HEX);
    assert!(rotsniff::hash::Hash::parse(&good).is_some());
    assert!(rotsniff::hash::Hash::parse(&format!("blake2s:{}", HELLO_HEX)).is_none());
    assert!(rotsniff::hash::Hash::parse(&format!("BLAKE2B:{}", HELLO_HEX)).is_none());
    assert!(rotsniff::hash::Hash::parse(&format!("blake2b:{}", &HELLO_HEX[..127])).is_none());
    assert!(rotsniff::hash::Hash::parse(&format!("blake2b:{}0", HELLO_HEX)).is_none());
    assert!(rotsniff::hash::Hash::parse(&format!("x{}", good)).is_none());
    assert!(rotsniff::hash::Hash::parse(&format!("{} ", good)).is_none());
    assert!(rotsniff::hash::Hash::parse(&format!("blake2b:G{}", &HELLO_HEX[1..])).is_none());
    assert!(rotsniff::hash::Hash::parse("").is_none());
}

#[test]
fn equality_is_bytewise() {
    let mut a = [7u8; 64];
    let b = rotsniff::hash::Hash::Blake2b512(a);
    a[31] = 8;
    assert!(rotsniff::hash::Hash::Blake2b512(a) != b);
    assert!(rotsniff::hash::Hash::Blake2b512([7u8; 64]) == b);
}

#[test]
fn parse_ignores_case_of_mixed_digits() {
    let mixed: String = HELLO_HEX
        .chars()
        .enumerate()
        .map(|(i, c)| if i % 2 == 0 { c.to_ascii_lowercase() } else { c })
        .collect();
    let upper = rotsniff::hash::Hash::parse(&format!("blake2b:{}", HELLO_HEX)).unwrap();
    let lower = rotsniff::hash::Hash::parse(&format!("blake2b:{}", HELLO_HEX.to_lowercase())).unwrap();
    let mixed = rotsniff::hash::Hash::parse(&format!("blake2b:{}", mixed)).unwrap();
    assert_eq!(upper, lower);
    assert_eq!(upper, mixed);
}
