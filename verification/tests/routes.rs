use nyancache::error::Error;
use nyancache::models::DbPath;
use nyancache::nixutils::NarInfo;
use nyancache::routes::{
    fetch_key, found, nar_key, nar_name, nar_url, narinfo_name, narinfo_text, nix_cache_info,
    stage, stage_narinfo, strip_prefix, strip_suffix,
};
use nyancache::upload::{IncompleteUpload, PendingUploads};

const NAR_HASH: &str = "sha256:1b4sb93wp679q4zx9k1ignby1yna3z7c4c2ri3wphylbc2dwsys0";

fn record_text(url: &str) -> String {
    format!("StorePath: /nix/store/a\nNarHash: {}\nNarSize: 7\n{}Sig: k:AQID\n", NAR_HASH, url)
}

#[test]
fn cache_info_is_fixed() {
    assert_eq!(nix_cache_info(), "StoreDir: /nix/store\nWantMassQuery: 1\nPriority: 40");
}

#[test]
fn names_lose_their_extension() {
    assert_eq!(narinfo_name("abc.narinfo").as_deref(), Some("abc"));
    assert_eq!(narinfo_name(".narinfo").as_deref(), Some(""));
    assert_eq!(narinfo_name("abc.nar.xz"), None);
    assert_eq!(narinfo_name("narinfo"), None);
    assert_eq!(nar_name("abc.nar.xz").as_deref(), Some("abc"));
    assert_eq!(nar_name("abc.nar.xz.nar.xz").as_deref(), Some("abc.nar.xz"));
    assert_eq!(nar_name("abc.nar"), None);
    assert_eq!(strip_suffix("é.x", ".x").as_deref(), Some("é"));
    assert_eq!(strip_prefix("nar/x", "nar/").as_deref(), Some("x"));
    assert_eq!(strip_prefix("nar", "nar/"), None);
    assert_eq!(strip_prefix("xnar/x", "nar/"), None);
}

#[test]
fn keys_and_addresses_of_artifacts() {
    assert_eq!(nar_key("abc"), "abc.nar.xz");
    assert_eq!(nar_url("abc"), "nar/abc.nar.xz");
}

#[test]
fn metadata_waits_under_its_address_without_prefix() {
    let staged = stage_narinfo("abc", &record_text("URL: nar/xyz.nar.xz\n")).unwrap().unwrap();
    assert_eq!(staged.0, "xyz.nar.xz");
    match staged.1 {
        IncompleteUpload::NarInfo(record) => {
            assert_eq!(record.id, "abc");
            assert_eq!(record.path, "/nix/store/a");
            assert_eq!(record.url.as_deref(), Some("nar/xyz.nar.xz"));
            assert_eq!(record.nar_size, 7);
            assert_eq!(record.sigs, "k:AQID");
        }
        IncompleteUpload::Nar => panic!("metadata was staged"),
    }
}

#[test]
fn metadata_without_address_is_dropped() {
    assert!(stage_narinfo("abc", &record_text("")).unwrap().is_none());
    assert!(stage_narinfo("abc", &record_text("URL: other/xyz.nar.xz\n")).unwrap().is_none());
}

#[test]
fn bad_metadata_is_refused() {
    assert_eq!(stage_narinfo("abc", "StorePath: x\n").unwrap_err(), Error::BadNarInfo);
    assert_eq!(stage_narinfo("abc", "nonsense").unwrap_err(), Error::BadNarInfo);
}

#[test]
fn what_the_index_lacks_is_not_found() {
    assert_eq!(found(None).unwrap_err(), Error::NotFound);
    assert_eq!(found(Some(DbPath::default())).unwrap().id, "");
    assert_eq!(narinfo_text(None).unwrap_err(), Error::NotFound);
    assert_eq!(fetch_key("abc", None).unwrap_err(), Error::NotFound);
    assert_eq!(fetch_key("abc", Some(DbPath::default())).unwrap(), "abc.nar.xz");
}

#[test]
fn metadata_is_served_from_its_record() {
    let text = record_text("URL: nar/xyz.nar.xz\n");
    let record = DbPath::from(NarInfo::from_str(&text).unwrap());
    assert_eq!(
        narinfo_text(Some(record)).unwrap(),
        format!("StorePath: /nix/store/a\nNarHash: {}\nNarSize: 7\nURL: nar/xyz.nar.xz\nSig: k:AQID\n", NAR_HASH)
    );
    let mut broken = DbPath::default();
    broken.nar_hash = "x".to_string();
    assert_eq!(narinfo_text(Some(broken)).unwrap_err(), Error::UnknownHashType);
}

#[test]
fn an_upload_that_still_waits_is_not_served() {
    let mut pending = PendingUploads::new();
    let staged = stage_narinfo("abc", &record_text("URL: nar/xyz.nar.xz\n")).unwrap().unwrap();
    assert!(pending.add_incomplete(&staged.0, staged.1).is_none());
    let in_index: Option<DbPath> = None;
    assert_eq!(fetch_key("xyz", in_index).unwrap_err(), Error::NotFound);
    let record = pending.add_incomplete(&nar_key("xyz"), IncompleteUpload::Nar).unwrap();
    assert_eq!(record.id, "abc");
    assert_eq!(fetch_key("xyz", Some(record)).unwrap(), "xyz.nar.xz");
}

#[test]
fn parsed_metadata_is_staged_like_its_text() {
    let info = NarInfo::from_str(&record_text("URL: nar/xyz.nar.xz\n")).unwrap();
    let staged = stage("abc", info).unwrap();
    assert_eq!(staged.0, "xyz.nar.xz");
    assert!(matches!(staged.1, IncompleteUpload::NarInfo(record) if record.id == "abc"));
    let info = NarInfo::from_str(&record_text("")).unwrap();
    assert!(stage("abc", info).is_none());
}
