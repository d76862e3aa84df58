use nyancache::error::Error;
use nyancache::nixutils::{HashType, NixHash};

const SHA256_TEXT: &str = "sha256:1b8m03r63zqhnjf7l5wnldhh7c134ap5vpj0850ymkq1iyzicy5s";

#[test]
fn hash_type_names() {
    assert_eq!(HashType::Md5.as_ref(), "md5");
    assert_eq!(HashType::Sha1.as_ref(), "sha1");
    assert_eq!(HashType::Sha256.as_ref(), "sha256");
    assert_eq!(HashType::Sha512.as_ref(), "sha512");
    assert_eq!(HashType::from_str("sha512"), Ok(HashType::Sha512));
    assert_eq!(HashType::from_str("SHA256"), Err(Error::UnknownHashType));
    assert_eq!(HashType::from_str(""), Err(Error::UnknownHashType));
}

#[test]
fn hash_type_sizes() {
    assert_eq!(HashType::Md5.size(), 16);
    assert_eq!(HashType::Sha1.size(), 20);
    assert_eq!(HashType::Sha256.size(), 32);
    assert_eq!(HashType::Sha512.size(), 64);
}

#[test]
fn hash_parses_and_prints() {
    let hash = NixHash::from_str(SHA256_TEXT).unwrap();
    assert_eq!(hash.hash_type(), HashType::Sha256);
    assert_eq!(hash.digest().len(), 32);
    assert_eq!(hash.digest()[0], 0xba);
    assert_eq!(hash.digest()[31], 0xad);
    assert_eq!(hash.to_string(), SHA256_TEXT);
}

#[test]
fn hash_round_trips_for_every_algorithm() {
    for (hash_type, size) in [
        (HashType::Md5, 16usize),
        (HashType::Sha1, 20),
        (HashType::Sha256, 32),
        (HashType::Sha512, 64),
    ] {
        let digest: Vec<u8> = (0..size).map(|i| (i * 7 + 3) as u8).collect();
        let hash = NixHash::new(hash_type, digest.clone()).unwrap();
        let again = NixHash::from_str(&hash.to_string()).unwrap();
        assert_eq!(again.hash_type(), hash_type);
        assert_eq!(again.digest(), &digest[..]);
    }
}

#[test]
fn hash_new_wants_the_length_of_the_algorithm() {
    assert!(NixHash::new(HashType::Sha256, vec![0; 31]).is_none());
    assert!(NixHash::new(HashType::Sha256, vec![0; 32]).is_some());
    assert!(NixHash::new(HashType::Md5, vec![]).is_none());
}

#[test]
fn hash_errors() {
    assert_eq!(NixHash::from_str("sha256").unwrap_err(), Error::UnexpectedEof);
    assert_eq!(NixHash::from_str("blake3:00").unwrap_err(), Error::UnknownHashType);
    assert_eq!(NixHash::from_str("nothing").unwrap_err(), Error::UnknownHashType);
    assert_eq!(NixHash::from_str("").unwrap_err(), Error::UnknownHashType);
    assert_eq!(NixHash::from_str("sha256:").unwrap_err(), Error::BadBase32);
    assert_eq!(NixHash::from_str("sha256:00").unwrap_err(), Error::BadBase32);
    assert_eq!(
        NixHash::from_str("sha256:eb8m03r63zqhnjf7l5wnldhh7c134ap5vpj0850ymkq1iyzicy5s")
            .unwrap_err(),
        Error::BadBase32
    );
    assert_eq!(
        NixHash::from_str("sha256:zb8m03r63zqhnjf7l5wnldhh7c134ap5vpj0850ymkq1iyzicy5s")
            .unwrap_err(),
        Error::BadBase32
    );
    assert_eq!(
        NixHash::from_str("sha1:1b8m03r63zqhnjf7l5wnldhh7c134ap5vpj0850ymkq1iyzicy5s").unwrap_err(),
        Error::BadBase32
    );
}

#[test]
fn hash_clone_is_the_same_hash() {
    let hash = NixHash::from_str(SHA256_TEXT).unwrap();
    assert_eq!(hash.clone().to_string(), SHA256_TEXT);
}
