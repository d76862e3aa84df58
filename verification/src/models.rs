//! The record of a finished artifact as the index keeps it: the metadata
//! flattened into texts and numbers, with the id under which it is served.

use crate::error::Error;
use crate::keyed::{distinct_keys, key_index, lemma_key_index_is};
use crate::nixutils::hash::{lemma_parse_hash_text, parse_hash, NixHash, NixHashView};
use crate::nixutils::laws::{
    lemma_compression_name, lemma_has_char_concat, lemma_inserted_all_ascending, lemma_split_join,
    trusted_payloads, well_formed,
};
use crate::nixutils::narinfo::{
    optional_compression_text, optional_hash_text, Compression, NarInfo, NarInfoView,
};
use crate::nixutils::refs::{ascending, inserted_all, ReferenceSet};
use crate::nixutils::signature::{
    lemma_parse_payload_text, parse_signature, payload_text, plain_name, write_named, Signature,
    MAX_PAYLOAD,
};
use crate::nixutils::sigmap::{put, SignatureMap};
use crate::outside::{base64_char, base64_encoded, base64_pair};
use crate::text::{
    chars_of, has_char, join, lemma_join_push, pieces, push_chars, split_chars, texts,
};
use vstd::prelude::*;
use vstd::string::StringExecFns;

verus! {

/// An index record as a value.
pub struct DbPathView {
    pub id: Seq<char>,
    pub path: Seq<char>,
    pub registration_time: Option<i64>,
    pub last_accessed: Option<i64>,
    pub nar_size: u64,
    pub nar_hash: Seq<char>,
    pub file_size: Option<u64>,
    pub file_hash: Option<Seq<char>>,
    pub url: Option<Seq<char>>,
    pub compression: Option<Seq<char>>,
    pub deriver: Option<Seq<char>>,
    pub ca: Option<Seq<char>>,
    pub sigs: Seq<char>,
    pub refs: Seq<char>,
}

/// The record of a finished artifact in the index.
#[derive(Debug, Clone, Default)]
pub struct DbPath {
    pub id: String,
    pub path: String,
    pub registration_time: Option<i64>,
    pub last_accessed: Option<i64>,
    pub nar_size: u64,
    pub nar_hash: String,
    pub file_size: Option<u64>,
    pub file_hash: Option<String>,
    pub url: Option<String>,
    pub compression: Option<String>,
    pub deriver: Option<String>,
    pub ca: Option<String>,
    pub sigs: String,
    pub refs: String,
}

/// A text that may be absent, as a value.
pub open spec fn text_view(s: Option<String>) -> Option<Seq<char>> {
    match s {
        Some(s) => Some(s@),
        None => None,
    }
}

impl View for DbPath {
    type V = DbPathView;

    open spec fn view(&self) -> DbPathView {
        DbPathView {
            id: self.id@,
            path: self.path@,
            registration_time: self.registration_time,
            last_accessed: self.last_accessed,
            nar_size: self.nar_size,
            nar_hash: self.nar_hash@,
            file_size: self.file_size,
            file_hash: text_view(self.file_hash),
            url: text_view(self.url),
            compression: text_view(self.compression),
            deriver: text_view(self.deriver),
            ca: text_view(self.ca),
            sigs: self.sigs@,
            refs: self.refs@,
        }
    }
}

/// The texts of the signatures, in their order.
pub open spec fn signature_texts(signatures: Seq<(Seq<char>, Seq<u8>)>) -> Seq<Seq<char>> {
    Seq::new(signatures.len(), |i: int| payload_text(signatures[i].0, signatures[i].1))
}

/// The index record of metadata, without an id: the hashes and the
/// compression as their texts, the sizes as they are, the signatures as
/// their texts with spaces between them, and the references with spaces
/// between them.
pub open spec fn record_of(m: NarInfoView) -> DbPathView {
    DbPathView {
        id: Seq::empty(),
        path: m.path,
        registration_time: None,
        last_accessed: None,
        nar_size: m.nar_size,
        nar_hash: m.nar_hash.text(),
        file_size: m.file_size,
        file_hash: optional_hash_text(m.file_hash),
        url: m.url,
        compression: optional_compression_text(m.compression),
        deriver: m.deriver,
        ca: m.ca,
        sigs: join(signature_texts(m.signatures), ' '),
        refs: join(m.references, ' '),
    }
}

/// The signatures that texts stand for, each put under its key name after
/// those before it, up to the first text that fails.
pub open spec fn read_signatures(
    signatures: Seq<(Seq<char>, Seq<u8>)>,
    texts: Seq<Seq<char>>,
) -> Result<Seq<(Seq<char>, Seq<u8>)>, Error>
    decreases texts.len(),
{
    if texts.len() == 0 {
        Ok(signatures)
    } else {
        match parse_signature(texts[0]) {
            Ok(sig) => read_signatures(
                put(signatures, sig.key_name, sig.signature),
                texts.drop_first(),
            ),
            Err(e) => Err(e),
        }
    }
}

/// The hash that a text that may be absent stands for.
pub open spec fn parse_optional_hash(text: Option<Seq<char>>) -> Result<
    Option<NixHashView>,
    Error,
> {
    match text {
        None => Ok(None),
        Some(t) => match parse_hash(t) {
            Ok(h) => Ok(Some(h)),
            Err(e) => Err(e),
        },
    }
}

/// The compression that a name that may be absent stands for, `BadNarInfo`
/// where the name is not known.
pub open spec fn parse_optional_compression(name: Option<Seq<char>>) -> Result<
    Option<Compression>,
    Error,
> {
    match name {
        None => Ok(None),
        Some(n) => match Compression::named(n) {
            Some(c) => Ok(Some(c)),
            None => Err(Error::BadNarInfo),
        },
    }
}

/// The metadata that an index record stands for. The texts are read in the
/// order hash of the artifact, hash of the stored object, compression,
/// signatures, and the first that fails gives the error. The signatures and
/// the references are the pieces of their texts, so an empty text holds
/// none.
pub open spec fn metadata_of(r: DbPathView) -> Result<NarInfoView, Error> {
    match parse_hash(r.nar_hash) {
        Err(e) => Err(e),
        Ok(nar_hash) => match parse_optional_hash(r.file_hash) {
            Err(e) => Err(e),
            Ok(file_hash) => match parse_optional_compression(r.compression) {
                Err(e) => Err(e),
                Ok(compression) => match read_signatures(Seq::empty(), pieces(r.sigs)) {
                    Err(e) => Err(e),
                    Ok(signatures) => Ok(
                        NarInfoView {
                            path: r.path,
                            nar_hash,
                            nar_size: r.nar_size,
                            file_hash,
                            file_size: r.file_size,
                            url: r.url,
                            compression,
                            deriver: r.deriver,
                            ca: r.ca,
                            references: inserted_all(Seq::empty(), pieces(r.refs)),
                            signatures,
                        },
                    ),
                },
            },
        },
    }
}

/// The texts of the signatures, with spaces between them.
fn signatures_text(signatures: &SignatureMap) -> (s: String)
    ensures
        s@ == join(signature_texts(signatures@), ' '),
        distinct_keys(signatures@),
        trusted_payloads(signatures@),
{
    let ghost all = signature_texts(signatures@);
    let mut s = String::new();
    let n = signatures.len();
    let mut i: usize = 0;
    while i < n
        invariant
            i <= n,
            n == signatures@.len(),
            all == signature_texts(signatures@),
            s@ == join(all.take(i as int), ' '),
            forall|j: int|
                0 <= j < i ==> base64_pair(
                    (#[trigger] signatures@[j]).1,
                    base64_encoded(signatures@[j].1),
                ),
        decreases n - i,
    {
        if i > 0 {
            s.push(' ');
        }
        let name = signatures.name(i);
        write_named(&mut s, name.as_str(), signatures.bytes(i));
        proof {
            let done = all.take(i as int);
            lemma_join_push(done, all[i as int], ' ');
            assert(all.take(i + 1) =~= done.push(all[i as int]));
            assert(s@ =~= join(all.take(i + 1), ' '));
        }
        i += 1;
    }
    assert(all.take(n as int) =~= all);
    s
}

/// The references, with spaces between them.
fn references_text(references: &ReferenceSet) -> (s: String)
    ensures
        s@ == join(references@, ' '),
        ascending(references@),
{
    let mut s = String::new();
    let n = references.len();
    let mut i: usize = 0;
    while i < n
        invariant
            i <= n,
            n == references@.len(),
            s@ == join(references@.take(i as int), ' '),
        decreases n - i,
    {
        if i > 0 {
            s.push(' ');
        }
        push_chars(&mut s, references.chars(i));
        proof {
            let done = references@.take(i as int);
            lemma_join_push(done, references@[i as int], ' ');
            assert(references@.take(i + 1) =~= done.push(references@[i as int]));
            assert(s@ =~= join(references@.take(i + 1), ' '));
        }
        i += 1;
    }
    assert(references@.take(n as int) =~= references@);
    s
}

/// The pieces of `text`.
fn pieces_of(text: &[char]) -> (parts: Vec<Vec<char>>)
    ensures
        texts(parts@) == pieces(text@),
{
    if text.len() == 0 {
        let parts: Vec<Vec<char>> = Vec::new();
        assert(texts(parts@) =~= pieces(text@));
        parts
    } else {
        split_chars(text, ' ')
    }
}

/// The signatures that the pieces of `text` stand for.
fn signatures_of(text: &[char]) -> (r: Result<SignatureMap, Error>)
    ensures
        match r {
            Ok(signatures) => read_signatures(Seq::empty(), pieces(text@)) == Ok::<
                Seq<(Seq<char>, Seq<u8>)>,
                Error,
            >(signatures@),
            Err(e) => read_signatures(Seq::empty(), pieces(text@)) == Err::<
                Seq<(Seq<char>, Seq<u8>)>,
                Error,
            >(e),
        },
{
    let parts = pieces_of(text);
    let ghost all = texts(parts@);
    let mut signatures = SignatureMap::new();
    let mut i: usize = 0;
    assert(all.skip(0) =~= all);
    while i < parts.len()
        invariant
            i <= parts@.len(),
            all == texts(parts@),
            all == pieces(text@),
            read_signatures(Seq::empty(), all) == read_signatures(signatures@, all.skip(i as int)),
        decreases parts@.len() - i,
    {
        proof {
            let rest = all.skip(i as int);
            assert(rest[0] == parts@[i as int]@);
            assert(rest.drop_first() =~= all.skip(i + 1));
        }
        match Signature::from_chars(parts[i].as_slice()) {
            Ok(sig) => {
                signatures.insert(sig.key_name.as_str(), sig.signature);
            },
            Err(e) => {
                return Err(e);
            },
        }
        i += 1;
    }
    assert(all.skip(parts@.len() as int) =~= Seq::<Seq<char>>::empty());
    Ok(signatures)
}

/// The references that are the pieces of `text`.
fn references_of(text: &[char]) -> (references: ReferenceSet)
    ensures
        references@ == inserted_all(Seq::empty(), pieces(text@)),
{
    let parts = pieces_of(text);
    let ghost all = texts(parts@);
    let mut references = ReferenceSet::new();
    let mut i: usize = 0;
    assert(all.skip(0) =~= all);
    while i < parts.len()
        invariant
            i <= parts@.len(),
            all == texts(parts@),
            inserted_all(Seq::empty(), all) == inserted_all(references@, all.skip(i as int)),
        decreases parts@.len() - i,
    {
        proof {
            let rest = all.skip(i as int);
            assert(rest[0] == parts@[i as int]@);
            assert(rest.drop_first() =~= all.skip(i + 1));
        }
        references.insert_chars(vstd::slice::slice_to_vec(parts[i].as_slice()));
        i += 1;
    }
    assert(all.skip(parts@.len() as int) =~= Seq::<Seq<char>>::empty());
    references
}

/// The hash that a text that may be absent stands for.
fn optional_hash_of(text: &Option<String>) -> (r: Result<Option<NixHash>, Error>)
    ensures
        match r {
            Ok(Some(h)) => parse_optional_hash(text_view(*text)) == Ok::<
                Option<NixHashView>,
                Error,
            >(Some(h@)),
            Ok(None) => parse_optional_hash(text_view(*text)) == Ok::<Option<NixHashView>, Error>(
                None,
            ),
            Err(e) => parse_optional_hash(text_view(*text)) == Err::<Option<NixHashView>, Error>(
                e,
            ),
        },
{
    match text {
        None => Ok(None),
        Some(t) => match NixHash::from_str(t.as_str()) {
            Ok(h) => Ok(Some(h)),
            Err(e) => Err(e),
        },
    }
}

/// The compression that a name that may be absent stands for.
fn optional_compression_of(name: &Option<String>) -> (r: Result<Option<Compression>, Error>)
    ensures
        r == parse_optional_compression(text_view(*name)),
{
    match name {
        None => Ok(None),
        Some(n) => match Compression::from_str(n.as_str()) {
            Ok(c) => Ok(Some(c)),
            Err(e) => Err(Error::BadNarInfo),
        },
    }
}

/// Whether a reference can be read back from an index record: it is not
/// empty and holds no space.
pub open spec fn flat_reference(reference: Seq<char>) -> bool {
    reference.len() > 0 && !has_char(reference, ' ')
}

/// Whether a signature can be read back from an index record: its key name
/// is not empty and holds no colon and no space, and its text is short
/// enough for the decoder.
pub open spec fn flat_signature(signature: (Seq<char>, Seq<u8>)) -> bool {
    &&& plain_name(signature.0)
    &&& !has_char(signature.0, ' ')
    &&& (signature.1.len() + 2) / 3 * 4 <= MAX_PAYLOAD
}

/// Whether metadata can be read back from its index record: its references
/// and its signatures can.
pub open spec fn flat(m: NarInfoView) -> bool {
    &&& forall|i: int| 0 <= i < m.references.len() ==> flat_reference(#[trigger] m.references[i])
    &&& forall|i: int| 0 <= i < m.signatures.len() ==> flat_signature(#[trigger] m.signatures[i])
}

/// Texts without a space, none of them empty, are the pieces of their join.
proof fn lemma_pieces_join(parts: Seq<Seq<char>>)
    requires
        forall|i: int|
            0 <= i < parts.len() ==> (#[trigger] parts[i]).len() > 0 && !has_char(parts[i], ' '),
    ensures
        pieces(join(parts, ' ')) == parts,
{
    if parts.len() == 0 {
        assert(pieces(join(parts, ' ')) =~= parts);
    } else {
        assert(parts[0].len() > 0);
        assert(join(parts, ' ').len() > 0);
        lemma_split_join(parts, ' ');
    }
}

/// The text of a flat signature is not empty and holds no space.
proof fn lemma_signature_text(signature: (Seq<char>, Seq<u8>))
    requires
        flat_signature(signature),
        base64_pair(signature.1, base64_encoded(signature.1)),
    ensures
        payload_text(signature.0, signature.1).len() > 0,
        !has_char(payload_text(signature.0, signature.1), ' '),
{
    let name = signature.0;
    let text = base64_encoded(signature.1);
    if has_char(text, ' ') {
        let i = choose|i: int| 0 <= i < text.len() && text[i] == ' ';
        assert(base64_char(text[i]));
    }
    if has_char(seq![':'], ' ') {
        let i = choose|i: int| 0 <= i < seq![':'].len() && seq![':'][i] == ' ';
    }
    lemma_has_char_concat(name, seq![':'], ' ');
    lemma_has_char_concat(name + seq![':'], text, ' ');
}

/// Reading the texts of flat signatures under distinct key names, after
/// the first `k` of them were read, gives all of them in their order.
proof fn lemma_read_signature_texts(signatures: Seq<(Seq<char>, Seq<u8>)>, k: int)
    requires
        0 <= k <= signatures.len(),
        distinct_keys(signatures),
        forall|i: int| 0 <= i < signatures.len() ==> flat_signature(#[trigger] signatures[i]),
        trusted_payloads(signatures),
    ensures
        read_signatures(signatures.take(k), signature_texts(signatures).skip(k)) == Ok::<
            Seq<(Seq<char>, Seq<u8>)>,
            Error,
        >(signatures),
    decreases signatures.len() - k,
{
    let all = signature_texts(signatures);
    let rest = all.skip(k);
    let done = signatures.take(k);
    if k == signatures.len() {
        assert(rest =~= Seq::<Seq<char>>::empty());
        assert(done =~= signatures);
    } else {
        let entry = signatures[k];
        assert(rest[0] == payload_text(entry.0, entry.1));
        assert(rest.drop_first() =~= all.skip(k + 1));
        assert(flat_signature(entry));
        assert(base64_pair(entry.1, base64_encoded(entry.1)));
        lemma_parse_payload_text(entry.0, entry.1);
        assert(key_index(done, entry.0) == k) by {
            assert forall|j: int| 0 <= j < k implies (#[trigger] done[j]).0 != entry.0 by {
                assert(done[j] == signatures[j]);
            }
            lemma_key_index_is(done, entry.0, k);
        }
        assert(put(done, entry.0, entry.1) =~= signatures.take(k + 1));
        lemma_read_signature_texts(signatures, k + 1);
    }
}

/// The index record of metadata loses nothing: a record that was made of
/// flat metadata stands for that metadata.
pub proof fn lemma_metadata_of_record(m: NarInfoView)
    requires
        well_formed(m),
        flat(m),
        trusted_payloads(m.signatures),
    ensures
        metadata_of(record_of(m)) == Ok::<NarInfoView, Error>(m),
{
    let r = record_of(m);
    lemma_parse_hash_text(m.nar_hash);
    if let Some(h) = m.file_hash {
        lemma_parse_hash_text(h);
    }
    if let Some(c) = m.compression {
        lemma_compression_name(c);
    }
    let sigs = signature_texts(m.signatures);
    assert forall|i: int| 0 <= i < sigs.len() implies (#[trigger] sigs[i]).len() > 0 && !has_char(
        sigs[i],
        ' ',
    ) by {
        assert(flat_signature(m.signatures[i]));
        assert(base64_pair(m.signatures[i].1, base64_encoded(m.signatures[i].1)));
        lemma_signature_text(m.signatures[i]);
    }
    lemma_pieces_join(sigs);
    assert(sigs.skip(0) =~= sigs);
    assert(m.signatures.take(0) =~= Seq::<(Seq<char>, Seq<u8>)>::empty());
    lemma_read_signature_texts(m.signatures, 0);
    assert forall|i: int| 0 <= i < m.references.len() implies (#[trigger] m.references[i]).len()
        > 0 && !has_char(m.references[i], ' ') by {
        assert(flat_reference(m.references[i]));
    }
    lemma_pieces_join(m.references);
    assert(Seq::<Seq<char>>::empty() + m.references =~= m.references);
    lemma_inserted_all_ascending(Seq::empty(), m.references);
}

impl DbPath {
    /// The index record of metadata, with an empty id. Where the metadata
    /// is flat, the record stands for it: nothing is lost.
    pub fn from(nar_info: NarInfo) -> (r: DbPath)
        ensures
            r@ == record_of(nar_info@),
            flat(nar_info@) ==> metadata_of(r@) == Ok::<NarInfoView, Error>(nar_info@),
    {
        let nar_hash = nar_info.nar_hash.to_string();
        let file_hash = match &nar_info.file_hash {
            Some(h) => Some(h.to_string()),
            None => None,
        };
        let compression = match &nar_info.compression {
            Some(c) => Some(String::from_str(c.as_ref())),
            None => None,
        };
        let sigs = signatures_text(&nar_info.signatures);
        let refs = references_text(&nar_info.references);
        proof {
            if flat(nar_info@) {
                lemma_metadata_of_record(nar_info@);
            }
        }
        DbPath {
            id: String::new(),
            path: nar_info.path,
            registration_time: None,
            last_accessed: None,
            nar_size: nar_info.nar_size,
            nar_hash,
            file_size: nar_info.file_size,
            file_hash,
            url: nar_info.url,
            compression,
            deriver: nar_info.deriver,
            ca: nar_info.ca,
            sigs,
            refs,
        }
    }

    /// The metadata that the record stands for, or the first error met in
    /// reading its texts.
    pub fn into_nar_info(self) -> (r: Result<NarInfo, Error>)
        ensures
            match r {
                Ok(info) => metadata_of(self@) == Ok::<NarInfoView, Error>(info@),
                Err(e) => metadata_of(self@) == Err::<NarInfoView, Error>(e),
            },
    {
        let nar_hash = match NixHash::from_str(self.nar_hash.as_str()) {
            Ok(h) => h,
            Err(e) => {
                return Err(e);
            },
        };
        let file_hash = match optional_hash_of(&self.file_hash) {
            Ok(h) => h,
            Err(e) => {
                return Err(e);
            },
        };
        let compression = match optional_compression_of(&self.compression) {
            Ok(c) => c,
            Err(e) => {
                return Err(e);
            },
        };
        let sigs = chars_of(self.sigs.as_str());
        let signatures = match signatures_of(sigs.as_slice()) {
            Ok(s) => s,
            Err(e) => {
                return Err(e);
            },
        };
        let refs = chars_of(self.refs.as_str());
        let references = references_of(refs.as_slice());
        Ok(
            NarInfo {
                path: self.path,
                nar_hash,
                nar_size: self.nar_size,
                file_hash,
                file_size: self.file_size,
                url: self.url,
                compression,
                deriver: self.deriver,
                ca: self.ca,
                references,
                signatures,
            },
        )
    }
}

} // verus!
