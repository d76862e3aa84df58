use nyancache::error::Error;
use nyancache::nixutils::base32::{decode, encode};

fn hex(s: &str) -> Vec<u8> {
    let digits: Vec<u8> = s.bytes().map(|c| (c as char).to_digit(16).unwrap() as u8).collect();
    digits.chunks(2).map(|pair| pair[0] * 16 + pair[1]).collect()
}

#[test]
fn encode_empty_is_empty() {
    assert_eq!(encode(&[]), "");
}

#[test]
fn decode_empty_is_empty() {
    assert_eq!(decode("").unwrap(), Vec::<u8>::new());
}

#[test]
fn encode_sha1_reference_vectors() {
    assert_eq!(
        encode(&hex("e4fd8ba5f7bbeaea5ace89fe10255536cd60dab6")),
        "nvd61k9nalji1zl9rrdfmsmvyyjqpzg4"
    );
    assert_eq!(
        encode(&hex("800d59cfcd3c05e900cb4e214be48f6b886a08df")),
        "vw46m23bizj4n8afrc0fj19wrp7mj3c0"
    );
}

#[test]
fn encode_sha256_reference_vector() {
    assert_eq!(
        encode(&hex("ba7816bf8f01cfea414140de5dae2223b00361a396177a9cb410ff61f20015ad")),
        "1b8m03r63zqhnjf7l5wnldhh7c134ap5vpj0850ymkq1iyzicy5s"
    );
}

#[test]
fn encode_md5_and_sha512_lengths() {
    assert_eq!(encode(&hex("900150983cd24fb0d6963f7d28e17f72")), "3jgzhjhz9zjvbb0kyj7jc500ch");
    assert_eq!(encode(&[0u8; 64]).len(), 103);
    assert_eq!(encode(&[0u8; 20]).len(), 32);
}

#[test]
fn encode_short_inputs() {
    assert_eq!(encode(&[0xff]), "7z");
    assert_eq!(encode(&[0x1f]), "0z");
    assert_eq!(encode(&[0x00]), "00");
    assert_eq!(encode(&[1, 2, 3]), "060h1");
}

#[test]
fn decode_reference_vector() {
    assert_eq!(
        decode("nvd61k9nalji1zl9rrdfmsmvyyjqpzg4").unwrap(),
        hex("e4fd8ba5f7bbeaea5ace89fe10255536cd60dab6")
    );
}

#[test]
fn decode_inverts_encode() {
    let mut bytes: Vec<u8> = Vec::new();
    for n in 0..70u32 {
        assert_eq!(decode(&encode(&bytes)).unwrap(), bytes);
        bytes.push((n * 37 + 11) as u8);
    }
}

#[test]
fn decode_rejects_characters_outside_the_alphabet() {
    for bad in ["e", "o", "u", "t", "E", "0a-", " 0", "0\n", "é"] {
        assert_eq!(decode(bad), Err(Error::BadBase32));
    }
}

#[test]
fn decode_rejects_bits_that_do_not_fit() {
    assert_eq!(decode("0").unwrap(), Vec::<u8>::new());
    assert_eq!(decode("1"), Err(Error::BadBase32));
    assert_eq!(decode("7z").unwrap(), vec![0xff]);
    assert_eq!(decode("8z"), Err(Error::BadBase32));
    assert_eq!(decode("zz"), Err(Error::BadBase32));
}
