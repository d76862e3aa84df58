use nyancache::error::Error;
use nyancache::nixutils::Signature;

#[test]
fn only_not_found_is_a_404() {
    assert_eq!(Error::NotFound.status_code(), 404);
    for error in [
        Error::MissingNarInfo,
        Error::Io("disk full".to_string()),
        Error::Database("locked".to_string()),
        Error::Upload,
        Error::Download,
        Error::UnexpectedEof,
        Error::Base64(base64::DecodeError::InvalidLength),
        Error::BadBase32,
        Error::UnknownHashType,
        Error::NoValidSignature,
        Error::BadNarInfo,
    ] {
        assert_eq!(error.status_code(), 500);
    }
}

#[test]
fn errors_have_names() {
    assert_eq!(Error::MissingNarInfo.as_ref(), "MissingNarInfo");
    assert_eq!(Error::Io(String::new()).as_ref(), "Io");
    assert_eq!(Error::Database(String::new()).as_ref(), "Database");
    assert_eq!(Error::Upload.as_ref(), "Upload");
    assert_eq!(Error::Download.as_ref(), "Download");
    assert_eq!(Error::UnexpectedEof.as_ref(), "UnexpectedEof");
    assert_eq!(Error::Base64(base64::DecodeError::InvalidLength).as_ref(), "Base64");
    assert_eq!(Error::BadBase32.as_ref(), "BadBase32");
    assert_eq!(Error::UnknownHashType.as_ref(), "UnknownHashType");
    assert_eq!(Error::NoValidSignature.as_ref(), "NoValidSignature");
    assert_eq!(Error::BadNarInfo.as_ref(), "BadNarInfo");
    assert_eq!(Error::NotFound.as_ref(), "NotFound");
}

#[test]
fn errors_have_messages() {
    assert_eq!(Error::MissingNarInfo.to_string(), "Missing narinfo");
    assert_eq!(Error::Upload.to_string(), "Upload error");
    assert_eq!(Error::Download.to_string(), "Download error");
    assert_eq!(Error::UnexpectedEof.to_string(), "Unexpected end of input");
    assert_eq!(Error::BadBase32.to_string(), "Bad base32");
    assert_eq!(Error::UnknownHashType.to_string(), "Unknown hash type");
    assert_eq!(Error::NoValidSignature.to_string(), "No valid signature");
    assert_eq!(Error::BadNarInfo.to_string(), "Bad narinfo");
    assert_eq!(Error::NotFound.to_string(), "Not found");
    assert_eq!(Error::Io("No such file or directory".to_string()).to_string(), "No such file or directory");
    assert_eq!(Error::Database("database is locked".to_string()).to_string(), "database is locked");
}

#[test]
fn a_refused_payload_speaks_in_the_words_of_the_decoder() {
    let error = Signature::from_str("k:a").unwrap_err();
    assert_eq!(error, Error::Base64(base64::DecodeError::InvalidLength));
    assert_eq!(error.to_string(), "Encoded text cannot have a 6-bit remainder.");
    let error = Signature::from_str("k:a*==").unwrap_err();
    assert_eq!(error.to_string(), "Invalid byte 42, offset 1.");
}
