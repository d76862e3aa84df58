use nyancache::error::Error;
use nyancache::nixutils::{
    Compression, HashType, NarInfo, NixHash, ParseWarning, PubKey, ReferenceSet, SignatureMap,
};
use ring::signature::KeyPair;

const NAR_HASH: &str = "sha256:1b4sb93wp679q4zx9k1ignby1yna3z7c4c2ri3wphylbc2dwsys0";
const FILE_HASH: &str = "sha256:05ra3y72i3qjri7xskf9qj8kb29r6naqy1sqpbs3azi3xcigmj56";

const RECORD: &str = "StorePath: /nix/store/syd87l2rxw8cbsxmxl853h0r6pdwhwjr-curl-7.82.0-bin
NarHash: sha256:1b4sb93wp679q4zx9k1ignby1yna3z7c4c2ri3wphylbc2dwsys0
NarSize: 196040
FileHash: sha256:05ra3y72i3qjri7xskf9qj8kb29r6naqy1sqpbs3azi3xcigmj56
FileSize: 68852
URL: nar/05ra3y72i3qjri7xskf9qj8kb29r6naqy1sqpbs3azi3xcigmj56.nar.xz
Compression: xz
Deriver: 5rwxzi7pal3qhpsyfc16gzkh939q1np6-curl-7.82.0.drv
References: 0jqd0rlxzra1rs38rdxl43yh6rxchgc6-curl-7.82.0 6w8g7njm4mck5dmjxws0z1xnrxvl81xa-glibc-2.34-115
Sig: cache.nixos.org-1:TsTTb3WGTZKphvYdBHXwo6weVILmTytUjLB+vcX89fOjjRicCHmKA4RCPMVLkj6TMJ4GMX3HPVWRdD1hkeKZBQ==
CA: fixed:r:sha256:abc
";

fn minimal() -> NarInfo {
    NarInfo {
        path: "/nix/store/abc-hello".to_string(),
        nar_hash: NixHash::from_str(NAR_HASH).unwrap(),
        nar_size: 42,
        file_hash: None,
        file_size: None,
        url: None,
        compression: None,
        deriver: None,
        ca: None,
        references: ReferenceSet::new(),
        signatures: SignatureMap::new(),
    }
}

#[test]
fn narinfo_parses_every_field() {
    let info = NarInfo::from_str(RECORD).unwrap();
    assert_eq!(info.path, "/nix/store/syd87l2rxw8cbsxmxl853h0r6pdwhwjr-curl-7.82.0-bin");
    assert_eq!(info.nar_hash.to_string(), NAR_HASH);
    assert_eq!(info.nar_size, 196040);
    assert_eq!(info.file_hash.as_ref().unwrap().to_string(), FILE_HASH);
    assert_eq!(info.file_size, Some(68852));
    assert_eq!(
        info.url.as_deref(),
        Some("nar/05ra3y72i3qjri7xskf9qj8kb29r6naqy1sqpbs3azi3xcigmj56.nar.xz")
    );
    assert_eq!(info.compression, Some(Compression::Xz));
    assert_eq!(info.deriver.as_deref(), Some("5rwxzi7pal3qhpsyfc16gzkh939q1np6-curl-7.82.0.drv"));
    assert_eq!(info.ca.as_deref(), Some("fixed:r:sha256:abc"));
    assert_eq!(
        info.references.to_vec(),
        vec![
            "/nix/store/0jqd0rlxzra1rs38rdxl43yh6rxchgc6-curl-7.82.0".to_string(),
            "/nix/store/6w8g7njm4mck5dmjxws0z1xnrxvl81xa-glibc-2.34-115".to_string(),
        ]
    );
    assert_eq!(info.signatures.len(), 1);
    assert_eq!(info.signatures.get("cache.nixos.org-1").unwrap().len(), 64);
    assert_eq!(info.signatures.get("cache.nixos.org-1").unwrap()[0], 0x4e);
    assert!(info.signatures.get("other").is_none());
}

#[test]
fn narinfo_text_keeps_the_order_of_the_fields() {
    let info = NarInfo::from_str(RECORD).unwrap();
    assert_eq!(info.to_string(), RECORD);
}

#[test]
fn narinfo_fields_may_come_in_any_order() {
    let shuffled = "CA: fixed:r:sha256:abc
Sig: cache.nixos.org-1:TsTTb3WGTZKphvYdBHXwo6weVILmTytUjLB+vcX89fOjjRicCHmKA4RCPMVLkj6TMJ4GMX3HPVWRdD1hkeKZBQ==
References: 6w8g7njm4mck5dmjxws0z1xnrxvl81xa-glibc-2.34-115 0jqd0rlxzra1rs38rdxl43yh6rxchgc6-curl-7.82.0
Deriver: 5rwxzi7pal3qhpsyfc16gzkh939q1np6-curl-7.82.0.drv
Compression: xz
URL: nar/05ra3y72i3qjri7xskf9qj8kb29r6naqy1sqpbs3azi3xcigmj56.nar.xz
FileSize: 68852
FileHash: sha256:05ra3y72i3qjri7xskf9qj8kb29r6naqy1sqpbs3azi3xcigmj56
NarSize: 196040
NarHash: sha256:1b4sb93wp679q4zx9k1ignby1yna3z7c4c2ri3wphylbc2dwsys0
StorePath: /nix/store/syd87l2rxw8cbsxmxl853h0r6pdwhwjr-curl-7.82.0-bin";
    assert_eq!(NarInfo::from_str(shuffled).unwrap().to_string(), RECORD);
}

#[test]
fn narinfo_minimal_text() {
    assert_eq!(
        minimal().to_string(),
        "StorePath: /nix/store/abc-hello\nNarHash: sha256:1b4sb93wp679q4zx9k1ignby1yna3z7c4c2ri3wphylbc2dwsys0\nNarSize: 42\n"
    );
}

#[test]
fn narinfo_round_trips() {
    let mut info = minimal();
    info.nar_size = u64::MAX;
    info.file_size = Some(0);
    info.compression = Some(Compression::Plain);
    info.url = Some("nar/x.nar".to_string());
    info.references.insert("/nix/store/zz-last");
    info.references.insert("/nix/store/aa-first");
    info.signatures.insert("key-b", vec![1, 2, 3]);
    info.signatures.insert("key-a", vec![]);
    let text = info.to_string();
    assert_eq!(
        text,
        "StorePath: /nix/store/abc-hello\nNarHash: sha256:1b4sb93wp679q4zx9k1ignby1yna3z7c4c2ri3wphylbc2dwsys0\nNarSize: 18446744073709551615\nFileSize: 0\nURL: nar/x.nar\nCompression: none\nReferences: aa-first zz-last\nSig: key-b:AQID\nSig: key-a:\n"
    );
    let again = NarInfo::from_str(&text).unwrap();
    assert_eq!(again.path, info.path);
    assert_eq!(again.nar_hash.to_string(), info.nar_hash.to_string());
    assert_eq!(again.nar_size, u64::MAX);
    assert!(again.file_hash.is_none());
    assert_eq!(again.file_size, Some(0));
    assert_eq!(again.url, info.url);
    assert_eq!(again.compression, Some(Compression::Plain));
    assert_eq!(again.deriver, None);
    assert_eq!(again.ca, None);
    assert_eq!(again.references.to_vec(), info.references.to_vec());
    assert_eq!(again.signatures.len(), 2);
    assert_eq!(again.signatures.name(0), "key-b");
    assert_eq!(again.signatures.bytes(0), &[1u8, 2, 3][..]);
    assert_eq!(again.signatures.name(1), "key-a");
    assert_eq!(again.signatures.bytes(1), &[0u8; 0][..]);
    assert_eq!(again.to_string(), text);
}

#[test]
fn narinfo_compression_names() {
    for (name, compression) in [
        ("xz", Compression::Xz),
        ("bzip2", Compression::Bzip2),
        ("gzip", Compression::Gzip),
        ("zstd", Compression::Zstd),
        ("none", Compression::Plain),
    ] {
        assert_eq!(compression.as_ref(), name);
        assert_eq!(Compression::from_str(name), Ok(compression));
    }
    assert_eq!(Compression::from_str("plain"), Err(Error::BadNarInfo));
    assert_eq!(Compression::from_str("XZ"), Err(Error::BadNarInfo));
}

#[test]
fn narinfo_wants_its_three_fields() {
    let hash = format!("NarHash: {}\n", NAR_HASH);
    assert_eq!(NarInfo::from_str("").unwrap_err(), Error::BadNarInfo);
    assert_eq!(
        NarInfo::from_str(&format!("{}NarSize: 1\n", hash)).unwrap_err(),
        Error::BadNarInfo
    );
    assert_eq!(
        NarInfo::from_str("StorePath: /nix/store/a\nNarSize: 1\n").unwrap_err(),
        Error::BadNarInfo
    );
    assert_eq!(
        NarInfo::from_str(&format!("StorePath: /nix/store/a\n{}", hash)).unwrap_err(),
        Error::BadNarInfo
    );
    assert!(NarInfo::from_str(&format!("StorePath: /nix/store/a\n{}NarSize: 1", hash)).is_ok());
}

#[test]
fn narinfo_lines_want_colon_and_space() {
    let good = format!("StorePath: /nix/store/a\nNarHash: {}\nNarSize: 1\n", NAR_HASH);
    assert!(NarInfo::from_str(&good).is_ok());
    for bad in ["no colon here\n", "StorePath:/nix/store/a\n", "Key:\n", "\n", "StorePath\n"] {
        assert_eq!(
            NarInfo::from_str(&format!("{}{}", good, bad)).unwrap_err(),
            Error::BadNarInfo
        );
    }
}

#[test]
fn narinfo_value_may_hold_the_separator() {
    let text = format!("StorePath: a: b\nNarHash: {}\nNarSize: 1\nCA: \n", NAR_HASH);
    let info = NarInfo::from_str(&text).unwrap();
    assert_eq!(info.path, "a: b");
    assert_eq!(info.ca.as_deref(), Some(""));
}

#[test]
fn narinfo_unknown_keys_are_passed_over() {
    let text = format!(
        "StorePath: /nix/store/a\nSystem: x86_64-linux\nNarHash: {}\nNarSize: 1\nstorepath: no\n",
        NAR_HASH
    );
    let info = NarInfo::from_str(&text).unwrap();
    assert_eq!(info.path, "/nix/store/a");
    assert_eq!(info.to_string(), format!("StorePath: /nix/store/a\nNarHash: {}\nNarSize: 1\n", NAR_HASH));
}

#[test]
fn narinfo_numbers() {
    let record = |size: &str| {
        NarInfo::from_str(&format!(
            "StorePath: /nix/store/a\nNarHash: {}\nNarSize: {}\n",
            NAR_HASH, size
        ))
    };
    assert_eq!(record("0").unwrap().nar_size, 0);
    assert_eq!(record("007").unwrap().nar_size, 7);
    assert_eq!(record("+12").unwrap().nar_size, 12);
    assert_eq!(record("18446744073709551615").unwrap().nar_size, u64::MAX);
    for bad in ["", "+", "-1", "12a", " 12", "1 ", "18446744073709551616", "99999999999999999999999", "1.5", "++1"] {
        assert_eq!(record(bad).unwrap_err(), Error::BadNarInfo);
    }
    let with_file_size = format!(
        "StorePath: /nix/store/a\nNarHash: {}\nNarSize: 1\nFileSize: x\n",
        NAR_HASH
    );
    assert_eq!(NarInfo::from_str(&with_file_size).unwrap_err(), Error::BadNarInfo);
}

#[test]
fn narinfo_errors_of_its_parts_come_through() {
    let record = |line: &str| {
        NarInfo::from_str(&format!(
            "StorePath: /nix/store/a\nNarHash: {}\nNarSize: 1\n{}\n",
            NAR_HASH, line
        ))
    };
    assert_eq!(record("FileHash: sha256").unwrap_err(), Error::UnexpectedEof);
    assert_eq!(record("FileHash: sha3:00").unwrap_err(), Error::UnknownHashType);
    assert_eq!(record("FileHash: sha256:00").unwrap_err(), Error::BadBase32);
    assert_eq!(record("Compression: lzma").unwrap_err(), Error::BadNarInfo);
    assert_eq!(record("Sig: nocolon").unwrap_err(), Error::UnexpectedEof);
    assert!(matches!(record("Sig: key:***").unwrap_err(), Error::Base64(_)));
    assert_eq!(
        NarInfo::from_str("StorePath: /nix/store/a\nNarHash: md4:00\nNarSize: 1\n").unwrap_err(),
        Error::UnknownHashType
    );
}

#[test]
fn narinfo_first_error_wins() {
    let text = "NarSize: x\nbroken\n";
    assert_eq!(NarInfo::from_str(text).unwrap_err(), Error::BadNarInfo);
    let text = "NarHash: sha256\nNarSize: x\n";
    assert_eq!(NarInfo::from_str(text).unwrap_err(), Error::UnexpectedEof);
}

#[test]
fn narinfo_later_fields_replace_earlier_ones() {
    let text = format!(
        "StorePath: /nix/store/a\nStorePath: /nix/store/b\nNarHash: {}\nNarSize: 1\nNarSize: 2\nURL: x\nURL: y\n",
        NAR_HASH
    );
    let info = NarInfo::from_str(&text).unwrap();
    assert_eq!(info.path, "/nix/store/b");
    assert_eq!(info.nar_size, 2);
    assert_eq!(info.url.as_deref(), Some("y"));
}

#[test]
fn narinfo_repeated_signature_key_keeps_the_last() {
    let text = format!(
        "StorePath: /nix/store/a\nNarHash: {}\nNarSize: 1\nSig: k:AQID\nSig: other:BAUG\nSig: k:BwgJ\n",
        NAR_HASH
    );
    let info = NarInfo::from_str(&text).unwrap();
    assert_eq!(info.signatures.len(), 2);
    assert_eq!(info.signatures.get("k").unwrap(), &[7u8, 8, 9][..]);
    assert_eq!(info.signatures.get("other").unwrap(), &[4u8, 5, 6][..]);
    assert_eq!(info.signatures.name(0), "k");
}

#[test]
fn narinfo_references_add_up_and_are_unique() {
    let text = format!(
        "StorePath: /nix/store/a\nNarHash: {}\nNarSize: 1\nReferences: b a\nReferences: c a\n",
        NAR_HASH
    );
    let info = NarInfo::from_str(&text).unwrap();
    assert_eq!(
        info.references.to_vec(),
        vec!["/nix/store/a".to_string(), "/nix/store/b".to_string(), "/nix/store/c".to_string()]
    );
    assert!(info.references.contains("/nix/store/b"));
    assert!(!info.references.contains("b"));
}

#[test]
fn narinfo_empty_references_line_holds_no_reference() {
    let text = format!("StorePath: /nix/store/a\nNarHash: {}\nNarSize: 1\nReferences: \n", NAR_HASH);
    let info = NarInfo::from_str(&text).unwrap();
    assert_eq!(info.references.len(), 0);
    assert_eq!(
        info.to_string(),
        format!("StorePath: /nix/store/a\nNarHash: {}\nNarSize: 1\n", NAR_HASH)
    );
    assert_eq!(
        info.fingerprint(),
        format!("1;/nix/store/a;{};1;", NAR_HASH)
    );
    let info = NarInfo::from_str(
        "StorePath: /nix/store/x\nNarHash: sha1:nvd61k9nalji1zl9rrdfmsmvyyjqpzg4\nNarSize: 7\nReferences: \n",
    )
    .unwrap();
    assert_eq!(info.references.to_vec(), Vec::<String>::new());
}

#[test]
fn narinfo_spaces_in_a_row_hold_no_reference() {
    let text = format!(
        "StorePath: /nix/store/a\nNarHash: {}\nNarSize: 1\nReferences:  b   a \n",
        NAR_HASH
    );
    let info = NarInfo::from_str(&text).unwrap();
    assert_eq!(
        info.references.to_vec(),
        vec!["/nix/store/a".to_string(), "/nix/store/b".to_string()]
    );
    assert!(!info.references.contains("/nix/store/"));
}

#[test]
fn narinfo_references_outside_the_store_are_not_written() {
    let mut info = minimal();
    info.references.insert("/nix/store/in");
    info.references.insert("/elsewhere/out");
    assert_eq!(
        info.to_string(),
        "StorePath: /nix/store/abc-hello\nNarHash: sha256:1b4sb93wp679q4zx9k1ignby1yna3z7c4c2ri3wphylbc2dwsys0\nNarSize: 42\nReferences: in\n"
    );
}

#[test]
fn narinfo_accepts_carriage_returns_before_line_feeds() {
    let text = format!(
        "StorePath: /nix/store/a\r\nNarHash: {}\r\nNarSize: 12\r\nDeriver: d\r",
        NAR_HASH
    );
    let info = NarInfo::from_str(&text).unwrap();
    assert_eq!(info.path, "/nix/store/a");
    assert_eq!(info.nar_size, 12);
    assert_eq!(info.deriver.as_deref(), Some("d\r"));
}

#[test]
fn fingerprint_is_exact() {
    let info = NarInfo::from_str(RECORD).unwrap();
    assert_eq!(
        info.fingerprint(),
        "1;/nix/store/syd87l2rxw8cbsxmxl853h0r6pdwhwjr-curl-7.82.0-bin;sha256:1b4sb93wp679q4zx9k1ignby1yna3z7c4c2ri3wphylbc2dwsys0;196040;/nix/store/0jqd0rlxzra1rs38rdxl43yh6rxchgc6-curl-7.82.0,/nix/store/6w8g7njm4mck5dmjxws0z1xnrxvl81xa-glibc-2.34-115"
    );
    assert_eq!(
        minimal().fingerprint(),
        "1;/nix/store/abc-hello;sha256:1b4sb93wp679q4zx9k1ignby1yna3z7c4c2ri3wphylbc2dwsys0;42;"
    );
}

#[test]
fn fingerprint_does_not_depend_on_insertion_order() {
    let mut first = minimal();
    let mut second = minimal();
    for path in ["/nix/store/b", "/nix/store/a", "/nix/store/c", "/nix/store/a"] {
        first.references.insert(path);
    }
    for path in ["/nix/store/c", "/nix/store/b", "/nix/store/a"] {
        second.references.insert(path);
    }
    second.url = Some("nar/other".to_string());
    second.signatures.insert("k", vec![1]);
    assert_eq!(first.fingerprint(), second.fingerprint());
    assert_eq!(
        first.fingerprint(),
        "1;/nix/store/abc-hello;sha256:1b4sb93wp679q4zx9k1ignby1yna3z7c4c2ri3wphylbc2dwsys0;42;/nix/store/a,/nix/store/b,/nix/store/c"
    );
}

#[test]
fn reference_set_orders_as_texts_do() {
    let mut set = ReferenceSet::new();
    for path in ["b", "", "ab", "a", "B", "é", "a\u{10000}", "az"] {
        assert!(set.insert(path));
    }
    assert!(!set.insert("ab"));
    let mut expected: Vec<String> =
        ["b", "", "ab", "a", "B", "é", "a\u{10000}", "az"].iter().map(|s| s.to_string()).collect();
    expected.sort();
    assert_eq!(set.to_vec(), expected);
    assert_eq!(set.len(), 8);
    assert_eq!(set.get(0), "");
    assert_eq!(set.clone().to_vec(), expected);
}

fn key_pair(seed: u8) -> ring::signature::Ed25519KeyPair {
    ring::signature::Ed25519KeyPair::from_seed_unchecked(&[seed; 32]).unwrap()
}

fn trusted(name: &str, pair: &ring::signature::Ed25519KeyPair) -> PubKey {
    PubKey { key_name: name.to_string(), pub_key: pair.public_key().as_ref().to_vec() }
}

fn signed(name: &str, pair: &ring::signature::Ed25519KeyPair) -> NarInfo {
    let mut info = NarInfo::from_str(RECORD).unwrap();
    let signature = pair.sign(info.fingerprint().as_bytes()).as_ref().to_vec();
    info.signatures.insert(name, signature);
    info
}

#[test]
fn signature_of_a_trusted_key_verifies() {
    let k1 = key_pair(1);
    let info = signed("k1", &k1);
    assert!(info.check_signature(&vec![trusted("k1", &k1)]).is_ok());
}

#[test]
fn signature_verifies_among_several_trusted_keys() {
    let k1 = key_pair(1);
    let k2 = key_pair(2);
    let info = signed("k1", &k1);
    assert!(info.check_signature(&vec![trusted("k2", &k2), trusted("k1", &k1)]).is_ok());
    assert!(info
        .check_signature(&vec![trusted("cache.nixos.org-1", &k2), trusted("k1", &k1)])
        .is_ok());
}

#[test]
fn signature_of_another_key_does_not_verify() {
    let k1 = key_pair(1);
    let k2 = key_pair(2);
    let info = signed("k1", &k1);
    assert_eq!(
        info.check_signature(&vec![trusted("k2", &k2)]).unwrap_err(),
        Error::NoValidSignature
    );
    assert_eq!(
        info.check_signature(&vec![trusted("k1", &k2)]).unwrap_err(),
        Error::NoValidSignature
    );
    assert_eq!(
        info.check_signature(&vec![trusted("k2", &k1)]).unwrap_err(),
        Error::NoValidSignature
    );
    assert_eq!(info.check_signature(&vec![]).unwrap_err(), Error::NoValidSignature);
}

#[test]
fn signature_does_not_survive_a_changed_fingerprint() {
    let k1 = key_pair(1);
    let keys = vec![trusted("k1", &k1)];
    let mut info = signed("k1", &k1);
    info.nar_size += 1;
    assert_eq!(info.check_signature(&keys).unwrap_err(), Error::NoValidSignature);
    let mut info = signed("k1", &k1);
    info.path.push('x');
    assert_eq!(info.check_signature(&keys).unwrap_err(), Error::NoValidSignature);
    let mut info = signed("k1", &k1);
    info.references.insert("/nix/store/more");
    assert_eq!(info.check_signature(&keys).unwrap_err(), Error::NoValidSignature);
    let mut info = signed("k1", &k1);
    info.nar_hash = NixHash::new(HashType::Sha256, vec![7; 32]).unwrap();
    assert_eq!(info.check_signature(&keys).unwrap_err(), Error::NoValidSignature);
}

#[test]
fn signature_ignores_what_is_not_signed() {
    let k1 = key_pair(1);
    let keys = vec![trusted("k1", &k1)];
    let mut info = signed("k1", &k1);
    info.url = None;
    info.deriver = Some("other.drv".to_string());
    info.compression = None;
    assert!(info.check_signature(&keys).is_ok());
}

#[test]
fn signature_with_changed_bytes_does_not_verify() {
    let k1 = key_pair(1);
    let keys = vec![trusted("k1", &k1)];
    let mut info = NarInfo::from_str(RECORD).unwrap();
    let mut signature = k1.sign(info.fingerprint().as_bytes()).as_ref().to_vec();
    signature[10] ^= 1;
    info.signatures.insert("k1", signature);
    assert_eq!(info.check_signature(&keys).unwrap_err(), Error::NoValidSignature);
}

#[test]
fn signature_by_finds_the_signature_of_a_key() {
    let k1 = key_pair(1);
    let info = signed("k1", &k1);
    assert_eq!(info.signature_by(&trusted("k1", &k1)).unwrap().len(), 64);
    assert!(info.signature_by(&trusted("k3", &k1)).is_none());
}

#[test]
fn verdict_follows_the_check() {
    assert!(NarInfo::verdict(true).is_ok());
    assert_eq!(NarInfo::verdict(false).unwrap_err(), Error::NoValidSignature);
}

#[test]
fn signature_map_keeps_one_signature_per_key() {
    let mut map = SignatureMap::new();
    assert!(!map.insert("a", vec![1]));
    assert!(!map.insert("b", vec![2]));
    assert!(map.insert("a", vec![3]));
    assert_eq!(map.len(), 2);
    assert_eq!(map.name(0), "a");
    assert_eq!(map.bytes(0), &[3u8][..]);
    assert_eq!(map.get("b").unwrap(), &[2u8][..]);
    assert!(map.get("c").is_none());
    let copy = map.clone();
    assert_eq!(copy.len(), 2);
    assert_eq!(copy.get("a").unwrap(), &[3u8][..]);
}

#[test]
fn narinfo_reports_what_it_passes_over() {
    let text = format!(
        "StorePath: /nix/store/a\nSystem: x86_64-linux\nNarHash: {}\nNarSize: 1\nSig: k:AQID\nSig: other:BAUG\nSig: k:BwgJ\nstorepath: no\n",
        NAR_HASH
    );
    let (info, warnings) = NarInfo::parse(&text).unwrap();
    assert_eq!(info.path, "/nix/store/a");
    assert_eq!(
        warnings,
        vec![
            ParseWarning::UnknownKey("System".to_string()),
            ParseWarning::DuplicateSignature("k".to_string()),
            ParseWarning::UnknownKey("storepath".to_string()),
        ]
    );
}

#[test]
fn narinfo_written_by_the_cache_reads_without_warning() {
    let (info, warnings) = NarInfo::parse(RECORD).unwrap();
    assert!(warnings.is_empty());
    let (_, warnings) = NarInfo::parse(&info.to_string()).unwrap();
    assert!(warnings.is_empty());
    assert_eq!(NarInfo::parse("broken").unwrap_err(), Error::BadNarInfo);
}

#[test]
fn texts_parse_into_their_types() {
    let info: NarInfo = RECORD.parse().unwrap();
    assert_eq!(info.nar_size, 196040);
    let hash: NixHash = NAR_HASH.parse().unwrap();
    assert_eq!(hash.hash_type(), HashType::Sha256);
    let key: PubKey = "k:AQID".parse().unwrap();
    assert_eq!(key.pub_key, vec![1, 2, 3]);
    assert_eq!("zstd".parse::<Compression>(), Ok(Compression::Zstd));
    assert_eq!("md5".parse::<HashType>(), Ok(HashType::Md5));
    assert_eq!("x".parse::<NarInfo>().unwrap_err(), Error::BadNarInfo);
}
