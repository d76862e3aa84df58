use nyancache::error::Error;
use nyancache::models::DbPath;
use nyancache::nixutils::{Compression, NarInfo};

const NAR_HASH: &str = "sha256:1b4sb93wp679q4zx9k1ignby1yna3z7c4c2ri3wphylbc2dwsys0";
const FILE_HASH: &str = "sha256:05ra3y72i3qjri7xskf9qj8kb29r6naqy1sqpbs3azi3xcigmj56";

fn full() -> NarInfo {
    NarInfo::from_str(&format!(
        "StorePath: /nix/store/a-hello\nNarHash: {}\nNarSize: 196040\nFileHash: {}\nFileSize: 68852\nURL: nar/x.nar.xz\nCompression: zstd\nDeriver: d.drv\nReferences: r2 r1\nSig: k1:AQID\nSig: k2:BAUG\nCA: ca\n",
        NAR_HASH, FILE_HASH
    ))
    .unwrap()
}

#[test]
fn record_flattens_the_metadata() {
    let record = DbPath::from(full());
    assert_eq!(record.id, "");
    assert_eq!(record.path, "/nix/store/a-hello");
    assert_eq!(record.registration_time, None);
    assert_eq!(record.last_accessed, None);
    assert_eq!(record.nar_size, 196040);
    assert_eq!(record.nar_hash, NAR_HASH);
    assert_eq!(record.file_size, Some(68852));
    assert_eq!(record.file_hash.as_deref(), Some(FILE_HASH));
    assert_eq!(record.url.as_deref(), Some("nar/x.nar.xz"));
    assert_eq!(record.compression.as_deref(), Some("zstd"));
    assert_eq!(record.deriver.as_deref(), Some("d.drv"));
    assert_eq!(record.ca.as_deref(), Some("ca"));
    assert_eq!(record.sigs, "k1:AQID k2:BAUG");
    assert_eq!(record.refs, "/nix/store/r1 /nix/store/r2");
}

#[test]
fn record_of_bare_metadata() {
    let info = NarInfo::from_str(&format!(
        "StorePath: /nix/store/a\nNarHash: {}\nNarSize: 1\n",
        NAR_HASH
    ))
    .unwrap();
    let record = DbPath::from(info);
    assert_eq!(record.file_size, None);
    assert_eq!(record.file_hash, None);
    assert_eq!(record.url, None);
    assert_eq!(record.compression, None);
    assert_eq!(record.sigs, "");
    assert_eq!(record.refs, "");
}

#[test]
fn record_keeps_sizes_as_they_are() {
    let mut info = full();
    info.nar_size = 2147483648;
    info.file_size = Some((1u64 << 32) + 5);
    let record = DbPath::from(info);
    assert_eq!(record.nar_size, 2147483648);
    assert_eq!(record.file_size, Some(4294967301));
    let again = record.into_nar_info().unwrap();
    assert_eq!(again.nar_size, 2147483648);
    assert_eq!(again.file_size, Some(4294967301));
}

#[test]
fn record_of_a_large_artifact_keeps_its_size() {
    let info = NarInfo::from_str(
        "StorePath: /nix/store/x\nNarHash: sha1:nvd61k9nalji1zl9rrdfmsmvyyjqpzg4\nNarSize: 2147483648\n",
    )
    .unwrap();
    let record = DbPath::from(info);
    assert_eq!(record.nar_size, 2147483648);
    assert_eq!(record.id, "");
    assert_eq!(record.path, "/nix/store/x");
    let mut info = full();
    info.nar_size = u64::MAX;
    assert_eq!(DbPath::from(info).into_nar_info().unwrap().nar_size, u64::MAX);
}

#[test]
fn record_gives_the_metadata_back() {
    let info = full();
    let again = DbPath::from(info.clone()).into_nar_info().unwrap();
    assert_eq!(again.path, info.path);
    assert_eq!(again.nar_hash.to_string(), NAR_HASH);
    assert_eq!(again.nar_size, 196040);
    assert_eq!(again.file_hash.as_ref().unwrap().to_string(), FILE_HASH);
    assert_eq!(again.file_size, Some(68852));
    assert_eq!(again.url.as_deref(), Some("nar/x.nar.xz"));
    assert_eq!(again.compression, Some(Compression::Zstd));
    assert_eq!(again.deriver.as_deref(), Some("d.drv"));
    assert_eq!(again.ca.as_deref(), Some("ca"));
    assert_eq!(again.references.to_vec(), info.references.to_vec());
    assert_eq!(again.signatures.len(), 2);
    assert_eq!(again.signatures.get("k1").unwrap(), &[1u8, 2, 3][..]);
    assert_eq!(again.signatures.get("k2").unwrap(), &[4u8, 5, 6][..]);
    assert_eq!(again.to_string(), info.to_string());
}

#[test]
fn record_with_bad_texts_is_refused() {
    let mut record = DbPath::from(full());
    record.nar_hash = "sha256".to_string();
    assert_eq!(record.into_nar_info().unwrap_err(), Error::UnexpectedEof);
    let mut record = DbPath::from(full());
    record.file_hash = Some("md6:0".to_string());
    assert_eq!(record.into_nar_info().unwrap_err(), Error::UnknownHashType);
    let mut record = DbPath::from(full());
    record.compression = Some("rar".to_string());
    assert_eq!(record.into_nar_info().unwrap_err(), Error::BadNarInfo);
    let mut record = DbPath::from(full());
    record.sigs = "k1:AQID  k2:BAUG".to_string();
    assert_eq!(record.into_nar_info().unwrap_err(), Error::UnexpectedEof);
    let mut record = DbPath::from(full());
    record.sigs = "k1:AQID k2:B".to_string();
    assert!(matches!(record.into_nar_info().unwrap_err(), Error::Base64(_)));
}

#[test]
fn record_errors_come_in_the_order_of_the_fields() {
    let mut record = DbPath::from(full());
    record.nar_hash = "nothing".to_string();
    record.file_hash = Some("sha256".to_string());
    record.compression = Some("rar".to_string());
    assert_eq!(record.into_nar_info().unwrap_err(), Error::UnknownHashType);
    let mut record = DbPath::from(full());
    record.file_hash = Some("sha256".to_string());
    record.compression = Some("rar".to_string());
    assert_eq!(record.into_nar_info().unwrap_err(), Error::UnexpectedEof);
}

#[test]
fn record_of_bare_metadata_gives_it_back() {
    let info = NarInfo::from_str(
        "StorePath: /nix/store/x\nNarHash: sha1:nvd61k9nalji1zl9rrdfmsmvyyjqpzg4\nNarSize: 7\n",
    )
    .unwrap();
    let record = DbPath::from(info.clone());
    assert_eq!(record.sigs, "");
    assert_eq!(record.refs, "");
    let again = record.into_nar_info().unwrap();
    assert_eq!(again.signatures.len(), 0);
    assert_eq!(again.references.len(), 0);
    assert_eq!(again.nar_size, 7);
    assert_eq!(again.path, "/nix/store/x");
    assert_eq!(again.to_string(), info.to_string());
}

#[test]
fn record_without_signatures_has_none() {
    let mut record = DbPath::from(full());
    record.sigs = String::new();
    let info = record.into_nar_info().unwrap();
    assert_eq!(info.signatures.len(), 0);
    assert_eq!(info.references.len(), 2);
}

#[test]
fn record_without_references_has_none() {
    let mut record = DbPath::from(full());
    record.refs = String::new();
    let info = record.into_nar_info().unwrap();
    assert_eq!(info.references.to_vec(), Vec::<String>::new());
    assert_eq!(info.signatures.len(), 2);
}

#[test]
fn record_default_is_empty() {
    let record = DbPath::default();
    assert_eq!(record.id, "");
    assert_eq!(record.nar_size, 0);
    assert_eq!(record.url, None);
}
