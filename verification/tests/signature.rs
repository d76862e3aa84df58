use nyancache::error::Error;
use nyancache::nixutils::signature::{name_end, named_outcome};
use nyancache::nixutils::{PubKey, Signature};

#[test]
fn signature_parses() {
    let sig = Signature::from_str("cache.example.org-1:aGVsbG8=").unwrap();
    assert_eq!(sig.key_name, "cache.example.org-1");
    assert_eq!(sig.signature, b"hello".to_vec());
}

#[test]
fn signature_prints() {
    let sig = Signature { key_name: "k".to_string(), signature: (0u8..64).collect() };
    assert_eq!(
        sig.to_string(),
        "k:AAECAwQFBgcICQoLDA0ODxAREhMUFRYXGBkaGxwdHh8gISIjJCUmJygpKissLS4vMDEyMzQ1Njc4OTo7PD0+Pw=="
    );
}

#[test]
fn signature_round_trips() {
    for size in [0usize, 1, 2, 3, 31, 32, 64, 65] {
        let sig = Signature {
            key_name: "cache-1".to_string(),
            signature: (0..size).map(|i| (i * 13 + 5) as u8).collect(),
        };
        let again = Signature::from_str(&sig.to_string()).unwrap();
        assert_eq!(again.key_name, sig.key_name);
        assert_eq!(again.signature, sig.signature);
    }
}

#[test]
fn signature_splits_at_the_first_colon() {
    let sig = Signature::from_str("a:").unwrap();
    assert_eq!(sig.key_name, "a");
    assert_eq!(sig.signature, Vec::<u8>::new());
    assert!(matches!(Signature::from_str("a:b:aGVsbG8="), Err(Error::Base64(_))));
}

#[test]
fn signature_without_colon_or_name_is_refused() {
    assert_eq!(Signature::from_str("").unwrap_err(), Error::UnexpectedEof);
    assert_eq!(Signature::from_str("name").unwrap_err(), Error::UnexpectedEof);
    assert_eq!(Signature::from_str(":aGVsbG8=").unwrap_err(), Error::UnexpectedEof);
}

#[test]
fn signature_with_bad_payload_is_refused() {
    assert!(matches!(Signature::from_str("k:a GVs"), Err(Error::Base64(_))));
    assert!(matches!(Signature::from_str("k:a"), Err(Error::Base64(_))));
    assert!(matches!(Signature::from_str("k:aGVsbG8=\n"), Err(Error::Base64(_))));
    assert!(matches!(Signature::from_str("k:äö"), Err(Error::Base64(_))));
}

#[test]
fn pub_key_parses_and_prints() {
    let text = "cache.example.org-1:AAECAwQFBgcICQoLDA0ODxAREhMUFRYXGBkaGxwdHh8=";
    let key = PubKey::from_str(text).unwrap();
    assert_eq!(key.key_name, "cache.example.org-1");
    assert_eq!(key.pub_key, (0u8..32).collect::<Vec<u8>>());
    assert_eq!(key.to_string(), text);
}

#[test]
fn pub_key_errors() {
    assert_eq!(PubKey::from_str("no-colon").unwrap_err(), Error::UnexpectedEof);
    assert_eq!(PubKey::from_str(":AAEC").unwrap_err(), Error::UnexpectedEof);
    assert!(matches!(PubKey::from_str("k:!!"), Err(Error::Base64(_))));
}

#[test]
fn name_end_is_the_first_colon() {
    let chars: Vec<char> = "key:a:b".chars().collect();
    assert_eq!(name_end(&chars), Ok(3));
    let chars: Vec<char> = ":a".chars().collect();
    assert_eq!(name_end(&chars), Err(Error::UnexpectedEof));
    let chars: Vec<char> = "abc".chars().collect();
    assert_eq!(name_end(&chars), Err(Error::UnexpectedEof));
}

#[test]
fn named_outcome_keeps_the_decoder_answer() {
    assert_eq!(
        named_outcome("k".to_string(), Ok(vec![1, 2])),
        Ok(("k".to_string(), vec![1, 2]))
    );
    assert_eq!(
        named_outcome("k".to_string(), Err(base64::DecodeError::InvalidLength)),
        Err(Error::Base64(base64::DecodeError::InvalidLength))
    );
}
