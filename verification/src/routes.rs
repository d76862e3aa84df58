//! What the cache decides for each request, apart from the work on the
//! store and on the index: which names it serves, under which keys, and what
//! becomes of what it is sent.

use crate::error::Error;
use crate::models::{metadata_of, record_of, DbPath, DbPathView};
use crate::nixutils::narinfo::{parse, NarInfo, NarInfoView};
use crate::text::{chars_of, has_prefix, same, string_of};
use crate::upload::{IncompleteUpload, UploadView};
use vstd::prelude::*;
use vstd::slice::slice_subrange;
use vstd::string::StringExecFns;

verus! {

/// What the cache says of itself.
pub fn nix_cache_info() -> (info: &'static str)
    ensures
        info@ == "StoreDir: /nix/store\nWantMassQuery: 1\nPriority: 40"@,
{
    "StoreDir: /nix/store\nWantMassQuery: 1\nPriority: 40"
}

/// Whether `s` ends with `suffix`.
pub open spec fn has_suffix(s: Seq<char>, suffix: Seq<char>) -> bool {
    suffix.len() <= s.len() && s.skip(s.len() - suffix.len()) == suffix
}

/// What stands before `suffix` in a text that ends with it.
pub open spec fn stem(s: Seq<char>, suffix: Seq<char>) -> Option<Seq<char>> {
    if has_suffix(s, suffix) {
        Some(s.take(s.len() - suffix.len()))
    } else {
        None
    }
}

/// What follows `prefix` in a text that begins with it.
pub open spec fn rest_after(s: Seq<char>, prefix: Seq<char>) -> Option<Seq<char>> {
    if has_prefix(s, prefix) {
        Some(s.skip(prefix.len() as int))
    } else {
        None
    }
}

/// What stands before `suffix` in `param`, if it ends with it.
pub fn strip_suffix(param: &str, suffix: &str) -> (r: Option<String>)
    ensures
        match r {
            Some(name) => stem(param@, suffix@) == Some(name@),
            None => stem(param@, suffix@) is None,
        },
{
    let chars = chars_of(param);
    let tail = chars_of(suffix);
    if tail.len() > chars.len() {
        return None;
    }
    let at = chars.len() - tail.len();
    if same(slice_subrange(chars.as_slice(), at, chars.len()), tail.as_slice()) {
        Some(string_of(slice_subrange(chars.as_slice(), 0, at)))
    } else {
        None
    }
}

/// What follows `prefix` in `text`, if it begins with it.
pub fn strip_prefix(text: &str, prefix: &str) -> (r: Option<String>)
    ensures
        match r {
            Some(rest) => rest_after(text@, prefix@) == Some(rest@),
            None => rest_after(text@, prefix@) is None,
        },
{
    let chars = chars_of(text);
    let head = chars_of(prefix);
    if head.len() > chars.len() {
        return None;
    }
    if same(slice_subrange(chars.as_slice(), 0, head.len()), head.as_slice()) {
        Some(string_of(slice_subrange(chars.as_slice(), head.len(), chars.len())))
    } else {
        None
    }
}

/// The id of the metadata that a request names: the name without
/// `.narinfo`.
pub fn narinfo_name(param: &str) -> (r: Option<String>)
    ensures
        match r {
            Some(name) => stem(param@, ".narinfo"@) == Some(name@),
            None => stem(param@, ".narinfo"@) is None,
        },
{
    strip_suffix(param, ".narinfo")
}

/// The artifact that a request names: the name without `.nar.xz`.
pub fn nar_name(param: &str) -> (r: Option<String>)
    ensures
        match r {
            Some(name) => stem(param@, ".nar.xz"@) == Some(name@),
            None => stem(param@, ".nar.xz"@) is None,
        },
{
    strip_suffix(param, ".nar.xz")
}

/// The storage key of the artifact `name`.
pub fn nar_key(name: &str) -> (key: String)
    ensures
        key@ == name@ + ".nar.xz"@,
{
    let mut key = String::from_str(name);
    key.append(".nar.xz");
    key
}

/// The address under which the index knows the artifact `name`.
pub fn nar_url(name: &str) -> (url: String)
    ensures
        url@ == "nar/"@ + name@ + ".nar.xz"@,
{
    let mut url = String::from_str("nar/");
    url.append(name);
    url.append(".nar.xz");
    url
}

/// The index record of metadata that was sent under the id `id`.
pub open spec fn named_record(id: Seq<char>, m: NarInfoView) -> DbPathView {
    DbPathView { id, ..record_of(m) }
}

/// What becomes of metadata that was sent under an id: the storage key under
/// which it waits for its bytes, and the half that waits. The key is the
/// address of the record without `nar/`; a record without such an address
/// is dropped.
pub open spec fn staged_record(id: Seq<char>, m: NarInfoView) -> Option<(Seq<char>, UploadView)> {
    match m.url {
        Some(url) => match rest_after(url, "nar/"@) {
            Some(key) => Some((key, UploadView::NarInfo(named_record(id, m)))),
            None => None,
        },
        None => None,
    }
}

/// What becomes of the text of metadata that was sent under an id: it is
/// read, and then staged as `staged_record` says.
pub open spec fn staged_metadata(id: Seq<char>, text: Seq<char>) -> Result<
    Option<(Seq<char>, UploadView)>,
    Error,
> {
    match parse(text) {
        Err(e) => Err(e),
        Ok(m) => Ok(staged_record(id, m)),
    }
}

/// Says under which key metadata that was sent under the id `id` is to
/// wait, if under any.
pub fn stage(id: &str, nar_info: NarInfo) -> (r: Option<(String, IncompleteUpload)>)
    ensures
        match r {
            Some(staged) => staged_record(id@, nar_info@) == Some((staged.0@, staged.1@)),
            None => staged_record(id@, nar_info@) is None,
        },
{
    let mut record = DbPath::from(nar_info);
    record.id = String::from_str(id);
    let key = match &record.url {
        Some(url) => strip_prefix(url.as_str(), "nar/"),
        None => None,
    };
    match key {
        Some(key) => Some((key, IncompleteUpload::NarInfo(record))),
        None => None,
    }
}

/// Reads metadata that was sent under the id `id`, and says under which key
/// it is to wait, if under any.
pub fn stage_narinfo(id: &str, input: &str) -> (r: Result<Option<(String, IncompleteUpload)>, Error>)
    ensures
        match r {
            Ok(Some(staged)) => staged_metadata(id@, input@) == Ok::<
                Option<(Seq<char>, UploadView)>,
                Error,
            >(Some((staged.0@, staged.1@))),
            Ok(None) => staged_metadata(id@, input@) == Ok::<
                Option<(Seq<char>, UploadView)>,
                Error,
            >(None),
            Err(e) => staged_metadata(id@, input@) == Err::<
                Option<(Seq<char>, UploadView)>,
                Error,
            >(e),
        },
{
    match NarInfo::from_str(input) {
        Ok(info) => Ok(stage(id, info)),
        Err(e) => Err(e),
    }
}

/// The record that the index found, or `NotFound`: what is not in the index
/// is not served, whatever the store holds.
pub fn found(looked_up: Option<DbPath>) -> (r: Result<DbPath, Error>)
    ensures
        match looked_up {
            Some(record) => r == Ok::<DbPath, Error>(record),
            None => r == Err::<DbPath, Error>(Error::NotFound),
        },
{
    match looked_up {
        Some(record) => Ok(record),
        None => Err(Error::NotFound),
    }
}

/// The text of the metadata that the index found, `NotFound` where it found
/// none, or the error met in reading the record.
pub fn narinfo_text(looked_up: Option<DbPath>) -> (r: Result<String, Error>)
    ensures
        match looked_up {
            None => r == Err::<String, Error>(Error::NotFound),
            Some(record) => match metadata_of(record@) {
                Ok(m) => r matches Ok(text) && text@ == m.text(),
                Err(e) => r == Err::<String, Error>(e),
            },
        },
{
    let record = match looked_up {
        Some(record) => record,
        None => {
            return Err(Error::NotFound);
        },
    };
    match record.into_nar_info() {
        Ok(info) => Ok(info.to_string()),
        Err(e) => Err(e),
    }
}

/// The storage key from which the artifact `name` is read, once the index
/// has been asked for it: `NotFound` where the index holds no record, so
/// that an artifact that still waits for its other half is not served.
pub fn fetch_key(name: &str, looked_up: Option<DbPath>) -> (r: Result<String, Error>)
    ensures
        match looked_up {
            Some(_) => r matches Ok(key) && key@ == name@ + ".nar.xz"@,
            None => r == Err::<String, Error>(Error::NotFound),
        },
{
    match found(looked_up) {
        Ok(_) => Ok(nar_key(name)),
        Err(e) => Err(e),
    }
}

} // verus!
