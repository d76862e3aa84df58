//! Artifact metadata and its text: lines of `Key: value`.

use crate::error::Error;
use crate::nixutils::hash::{parse_hash, NixHash, NixHashView};
use crate::nixutils::laws::{legible, lemma_parse_text, trusted_payloads, well_formed};
use crate::nixutils::refs::{ascending, inserted_all, ReferenceSet};
use crate::nixutils::signature::{
    parse_signature, payload_text, write_named, PubKey, PubKeyView, Signature,
};
use crate::keyed::distinct_keys;
use crate::nixutils::sigmap::{lookup, put, SignatureMap};
use crate::outside::{base64_encoded, base64_pair, ed25519_valid, ed25519_verify};
use crate::text::{
    chars_of, decimal, find, first_index, has_prefix, is_word, join, lines, non_empty, parse_u64,
    parse_u64_spec, push_chars, push_u64, segments, split_chars, starts_with, string_of, texts,
};
use vstd::prelude::*;
use vstd::slice::slice_subrange;
use vstd::string::{StringExecFns, StringSliceAdditionalSpecFns};
use vstd::utf8::encode_utf8;

verus! {

/// How the stored object is compressed.
#[derive(Debug, Clone, Copy, PartialEq, Eq)]
pub enum Compression {
    Xz,
    Bzip2,
    Gzip,
    Zstd,
    Plain,
}

impl Compression {
    /// The name of the compression in a record.
    pub open spec fn name(self) -> Seq<char> {
        match self {
            Compression::Xz => "xz"@,
            Compression::Bzip2 => "bzip2"@,
            Compression::Gzip => "gzip"@,
            Compression::Zstd => "zstd"@,
            Compression::Plain => "none"@,
        }
    }

    /// The compression of a name, if it names one.
    pub open spec fn named(name: Seq<char>) -> Option<Compression> {
        if name == "xz"@ {
            Some(Compression::Xz)
        } else if name == "bzip2"@ {
            Some(Compression::Bzip2)
        } else if name == "gzip"@ {
            Some(Compression::Gzip)
        } else if name == "zstd"@ {
            Some(Compression::Zstd)
        } else if name == "none"@ {
            Some(Compression::Plain)
        } else {
            None
        }
    }

    /// The name of the compression.
    pub fn as_ref(&self) -> (name: &'static str)
        ensures
            name@ == self.name(),
    {
        match self {
            Compression::Xz => "xz",
            Compression::Bzip2 => "bzip2",
            Compression::Gzip => "gzip",
            Compression::Zstd => "zstd",
            Compression::Plain => "none",
        }
    }

    /// The compression that `name` names.
    pub fn from_chars(name: &[char]) -> (r: Option<Compression>)
        ensures
            r == Compression::named(name@),
    {
        if is_word(name, "xz") {
            Some(Compression::Xz)
        } else if is_word(name, "bzip2") {
            Some(Compression::Bzip2)
        } else if is_word(name, "gzip") {
            Some(Compression::Gzip)
        } else if is_word(name, "zstd") {
            Some(Compression::Zstd)
        } else if is_word(name, "none") {
            Some(Compression::Plain)
        } else {
            None
        }
    }

    /// The compression that `name` names, or `BadNarInfo`.
    pub fn from_str(name: &str) -> (r: Result<Compression, Error>)
        ensures
            r == match Compression::named(name@) {
                Some(c) => Ok::<Compression, Error>(c),
                None => Err(Error::BadNarInfo),
            },
    {
        let chars = chars_of(name);
        match Compression::from_chars(chars.as_slice()) {
            Some(c) => Ok(c),
            None => Err(Error::BadNarInfo),
        }
    }
}

/// The root of the store, which a record leaves out of its references.
pub open spec fn store_prefix() -> Seq<char> {
    "/nix/store/"@
}

/// A line of a record: a key, a colon, a space, and the value.
pub open spec fn entry(key: Seq<char>, value: Seq<char>) -> Seq<char> {
    key + seq![':', ' '] + value
}

/// The lines as one text, a line feed after each.
pub open spec fn unlines(ls: Seq<Seq<char>>) -> Seq<char>
    decreases ls.len(),
{
    if ls.len() == 0 {
        Seq::empty()
    } else {
        unlines(ls.drop_last()) + ls.last() + seq!['\n']
    }
}

/// The line of a field that may be absent.
pub open spec fn optional_entry(key: Seq<char>, value: Option<Seq<char>>) -> Seq<Seq<char>> {
    match value {
        Some(v) => seq![entry(key, v)],
        None => Seq::empty(),
    }
}

/// What a record shows of its references: those under the root of the store,
/// without it.
pub open spec fn short_names(references: Seq<Seq<char>>) -> Seq<Seq<char>>
    decreases references.len(),
{
    if references.len() == 0 {
        Seq::empty()
    } else if has_prefix(references.last(), store_prefix()) {
        short_names(references.drop_last()).push(
            references.last().skip(store_prefix().len() as int),
        )
    } else {
        short_names(references.drop_last())
    }
}

/// The names, a space before each.
pub open spec fn spaced(names: Seq<Seq<char>>) -> Seq<char>
    decreases names.len(),
{
    if names.len() == 0 {
        Seq::empty()
    } else {
        spaced(names.drop_last()) + seq![' '] + names.last()
    }
}

/// The line of the references: none where there are no references.
pub open spec fn reference_lines(references: Seq<Seq<char>>) -> Seq<Seq<char>> {
    if references.len() == 0 {
        Seq::empty()
    } else {
        seq!["References:"@ + spaced(short_names(references))]
    }
}

/// The lines of the signatures, one for each, in their order.
pub open spec fn signature_lines(signatures: Seq<(Seq<char>, Seq<u8>)>) -> Seq<Seq<char>> {
    Seq::new(
        signatures.len(),
        |i: int| entry("Sig"@, payload_text(signatures[i].0, signatures[i].1)),
    )
}

/// The text of a hash that may be absent.
pub open spec fn optional_hash_text(hash: Option<NixHashView>) -> Option<Seq<char>> {
    match hash {
        Some(h) => Some(h.text()),
        None => None,
    }
}

/// The text of a size that may be absent.
pub open spec fn optional_size_text(size: Option<u64>) -> Option<Seq<char>> {
    match size {
        Some(n) => Some(decimal(n as nat)),
        None => None,
    }
}

/// The name of a compression that may be absent.
pub open spec fn optional_compression_text(compression: Option<Compression>) -> Option<
    Seq<char>,
> {
    match compression {
        Some(c) => Some(c.name()),
        None => None,
    }
}

/// A text that may be absent, as a value.
pub open spec fn optional_text(s: Option<String>) -> Option<Seq<char>> {
    match s {
        Some(s) => Some(s@),
        None => None,
    }
}

/// A hash that may be absent, as a value.
pub open spec fn optional_hash(h: Option<NixHash>) -> Option<NixHashView> {
    match h {
        Some(h) => Some(h@),
        None => None,
    }
}

/// Artifact metadata as a value.
pub struct NarInfoView {
    pub path: Seq<char>,
    pub nar_hash: NixHashView,
    pub nar_size: u64,
    pub file_hash: Option<NixHashView>,
    pub file_size: Option<u64>,
    pub url: Option<Seq<char>>,
    pub compression: Option<Compression>,
    pub deriver: Option<Seq<char>>,
    pub ca: Option<Seq<char>>,
    pub references: Seq<Seq<char>>,
    pub signatures: Seq<(Seq<char>, Seq<u8>)>,
}

impl NarInfoView {
    /// The lines of the record, in their fixed order. Absent fields have no
    /// line.
    pub open spec fn record_lines(self) -> Seq<Seq<char>> {
        self.head_lines() + reference_lines(self.references) + signature_lines(self.signatures)
            + optional_entry("CA"@, self.ca)
    }

    /// The text of the record.
    pub open spec fn text(self) -> Seq<char> {
        unlines(self.record_lines())
    }

    /// Whether `key` vouches for the record: the record holds a signature
    /// under the name of the key, and that signature is a valid Ed25519
    /// signature of the fingerprint, in UTF-8, under the key.
    pub open spec fn vouched_by(self, key: PubKeyView) -> bool {
        match lookup(self.signatures, key.key_name) {
            Some(signature) => ed25519_valid(
                key.pub_key,
                encode_utf8(self.fingerprint()),
                signature,
            ),
            None => false,
        }
    }

    /// What is signed: `1;`, the store path, the hash of the artifact, its
    /// size, and the references with commas between them, with semicolons
    /// between the five.
    pub open spec fn fingerprint(self) -> Seq<char> {
        seq!['1', ';'] + self.path + seq![';'] + self.nar_hash.text() + seq![';'] + decimal(
            self.nar_size as nat,
        ) + seq![';'] + join(self.references, ',')
    }
}

/// What a reader passes over without failing, as a value.
pub enum WarningView {
    DuplicateSignature(Seq<char>),
    UnknownKey(Seq<char>),
}

/// What a reader passes over without failing.
#[derive(Debug, Clone, PartialEq, Eq)]
pub enum ParseWarning {
    /// A second signature under a key name took the place of the first.
    DuplicateSignature(String),
    /// A line had a key that is not known, and was left out.
    UnknownKey(String),
}

impl View for ParseWarning {
    type V = WarningView;

    open spec fn view(&self) -> WarningView {
        match self {
            ParseWarning::DuplicateSignature(name) => WarningView::DuplicateSignature(name@),
            ParseWarning::UnknownKey(key) => WarningView::UnknownKey(key@),
        }
    }
}

/// The warnings as values.
pub open spec fn warnings_view(warnings: Seq<ParseWarning>) -> Seq<WarningView> {
    Seq::new(warnings.len(), |i: int| warnings[i]@)
}

/// What has been read of a record so far.
pub struct Draft {
    pub warnings: Seq<WarningView>,
    pub path: Option<Seq<char>>,
    pub nar_hash: Option<NixHashView>,
    pub nar_size: Option<u64>,
    pub file_hash: Option<NixHashView>,
    pub file_size: Option<u64>,
    pub url: Option<Seq<char>>,
    pub compression: Option<Compression>,
    pub deriver: Option<Seq<char>>,
    pub ca: Option<Seq<char>>,
    pub references: Seq<Seq<char>>,
    pub signatures: Seq<(Seq<char>, Seq<u8>)>,
}

/// Nothing read yet.
pub open spec fn empty_draft() -> Draft {
    Draft {
        warnings: Seq::empty(),
        path: None,
        nar_hash: None,
        nar_size: None,
        file_hash: None,
        file_size: None,
        url: None,
        compression: None,
        deriver: None,
        ca: None,
        references: Seq::empty(),
        signatures: Seq::empty(),
    }
}

/// The names with the root of the store before each.
pub open spec fn store_paths(names: Seq<Seq<char>>) -> Seq<Seq<char>> {
    Seq::new(names.len(), |i: int| store_prefix() + names[i])
}

/// What a field does to a draft. A field that is read again takes the place
/// of what was read before, but for the references, which add up, and the
/// signatures, which do so by key name; a signature that takes the place of
/// another under its key name leaves a warning. The references of a line are
/// the store paths of its segments, so a line without a segment adds none.
/// A key that is not known leaves a warning and changes nothing else.
pub open spec fn read_field(d: Draft, key: Seq<char>, value: Seq<char>) -> Result<Draft, Error> {
    if key == "StorePath"@ {
        Ok(Draft { path: Some(value), ..d })
    } else if key == "NarHash"@ {
        match parse_hash(value) {
            Ok(h) => Ok(Draft { nar_hash: Some(h), ..d }),
            Err(e) => Err(e),
        }
    } else if key == "NarSize"@ {
        match parse_u64_spec(value) {
            Some(n) => Ok(Draft { nar_size: Some(n), ..d }),
            None => Err(Error::BadNarInfo),
        }
    } else if key == "FileHash"@ {
        match parse_hash(value) {
            Ok(h) => Ok(Draft { file_hash: Some(h), ..d }),
            Err(e) => Err(e),
        }
    } else if key == "FileSize"@ {
        match parse_u64_spec(value) {
            Some(n) => Ok(Draft { file_size: Some(n), ..d }),
            None => Err(Error::BadNarInfo),
        }
    } else if key == "URL"@ {
        Ok(Draft { url: Some(value), ..d })
    } else if key == "Compression"@ {
        match Compression::named(value) {
            Some(c) => Ok(Draft { compression: Some(c), ..d }),
            None => Err(Error::BadNarInfo),
        }
    } else if key == "Deriver"@ {
        Ok(Draft { deriver: Some(value), ..d })
    } else if key == "References"@ {
        Ok(
            Draft {
                references: inserted_all(d.references, store_paths(segments(value))),
                ..d
            },
        )
    } else if key == "Sig"@ {
        match parse_signature(value) {
            Ok(sig) => Ok(
                Draft {
                    signatures: put(d.signatures, sig.key_name, sig.signature),
                    warnings: if lookup(d.signatures, sig.key_name) is Some {
                        d.warnings.push(WarningView::DuplicateSignature(sig.key_name))
                    } else {
                        d.warnings
                    },
                    ..d
                },
            ),
            Err(e) => Err(e),
        }
    } else if key == "CA"@ {
        Ok(Draft { ca: Some(value), ..d })
    } else {
        Ok(Draft { warnings: d.warnings.push(WarningView::UnknownKey(key)), ..d })
    }
}

/// What a line does to a draft. The key is what stands before the first
/// colon, and a space follows that colon; a line without them is
/// `BadNarInfo`.
pub open spec fn read_line(d: Draft, line: Seq<char>) -> Result<Draft, Error> {
    let colon = first_index(line, ':') as int;
    if colon >= line.len() {
        Err(Error::BadNarInfo)
    } else if !has_prefix(line.skip(colon), seq![':', ' ']) {
        Err(Error::BadNarInfo)
    } else {
        read_field(d, line.take(colon), line.skip(colon + 2))
    }
}

/// What the lines do to a draft, one after the other, up to the first that
/// fails.
pub open spec fn read_lines(d: Draft, ls: Seq<Seq<char>>) -> Result<Draft, Error>
    decreases ls.len(),
{
    if ls.len() == 0 {
        Ok(d)
    } else {
        match read_line(d, ls[0]) {
            Ok(next) => read_lines(next, ls.drop_first()),
            Err(e) => Err(e),
        }
    }
}

/// The record of a draft: `BadNarInfo` where the store path, the hash of the
/// artifact or its size was never read.
pub open spec fn finish(d: Draft) -> Result<NarInfoView, Error> {
    if d.path is None || d.nar_hash is None || d.nar_size is None {
        Err(Error::BadNarInfo)
    } else {
        Ok(
            NarInfoView {
                path: d.path.unwrap(),
                nar_hash: d.nar_hash.unwrap(),
                nar_size: d.nar_size.unwrap(),
                file_hash: d.file_hash,
                file_size: d.file_size,
                url: d.url,
                compression: d.compression,
                deriver: d.deriver,
                ca: d.ca,
                references: d.references,
                signatures: d.signatures,
            },
        )
    }
}

/// The warnings that reading a text leaves, in the order of its lines; none
/// where the reading fails.
pub open spec fn parse_warnings(text: Seq<char>) -> Seq<WarningView> {
    match read_lines(empty_draft(), lines(text)) {
        Ok(d) => d.warnings,
        Err(_) => Seq::empty(),
    }
}

/// The record that a text stands for, or the first error met in reading it.
pub open spec fn parse(text: Seq<char>) -> Result<NarInfoView, Error> {
    match read_lines(empty_draft(), lines(text)) {
        Ok(d) => finish(d),
        Err(e) => Err(e),
    }
}

/// The metadata of one artifact.
#[derive(Debug, Clone)]
pub struct NarInfo {
    pub path: String,
    pub nar_hash: NixHash,
    pub nar_size: u64,
    pub file_hash: Option<NixHash>,
    pub file_size: Option<u64>,
    pub url: Option<String>,
    pub compression: Option<Compression>,
    pub deriver: Option<String>,
    pub ca: Option<String>,
    pub references: ReferenceSet,
    pub signatures: SignatureMap,
}

impl View for NarInfo {
    type V = NarInfoView;

    open spec fn view(&self) -> NarInfoView {
        NarInfoView {
            path: self.path@,
            nar_hash: self.nar_hash@,
            nar_size: self.nar_size,
            file_hash: optional_hash(self.file_hash),
            file_size: self.file_size,
            url: optional_text(self.url),
            compression: self.compression,
            deriver: optional_text(self.deriver),
            ca: optional_text(self.ca),
            references: self.references@,
            signatures: self.signatures@,
        }
    }
}

/// Marks that a trusted key has signed a record.
#[derive(Debug)]
pub struct SignatureVerified;

/// One more line after the lines.
pub proof fn lemma_unlines_push(ls: Seq<Seq<char>>, line: Seq<char>)
    ensures
        unlines(ls.push(line)) == unlines(ls) + line + seq!['\n'],
{
    assert(ls.push(line).drop_last() =~= ls);
}

/// The text of one line.
proof fn lemma_unlines_one(line: Seq<char>)
    ensures
        unlines(seq![line]) == line + seq!['\n'],
{
    lemma_unlines_push(Seq::empty(), line);
    assert(seq![line] =~= Seq::<Seq<char>>::empty().push(line));
    assert(unlines(Seq::<Seq<char>>::empty()) + line + seq!['\n'] =~= line + seq!['\n']);
}

/// The text of lines after lines is the text of the first and then that of
/// the others.
pub proof fn lemma_unlines_concat(a: Seq<Seq<char>>, b: Seq<Seq<char>>)
    ensures
        unlines(a + b) == unlines(a) + unlines(b),
    decreases b.len(),
{
    if b.len() == 0 {
        assert(a + b =~= a);
        assert(unlines(a) + unlines(b) =~= unlines(a));
    } else {
        lemma_unlines_concat(a, b.drop_last());
        assert((a + b).drop_last() =~= a + b.drop_last());
        assert((a + b).last() == b.last());
        assert(unlines(a + b) =~= unlines(a) + unlines(b));
    }
}

/// Lines appended after lines are their concatenation appended.
proof fn lemma_append_lines(base: Seq<char>, a: Seq<Seq<char>>, b: Seq<Seq<char>>)
    ensures
        base + unlines(a) + unlines(b) == base + unlines(a + b),
{
    lemma_unlines_concat(a, b);
    assert(base + unlines(a) + unlines(b) =~= base + (unlines(a) + unlines(b)));
}

/// Appends the line of `key` and `value`.
fn write_entry(out: &mut String, key: &str, value: &str)
    ensures
        final(out)@ == old(out)@ + unlines(seq![entry(key@, value@)]),
{
    out.append(key);
    out.push(':');
    out.push(' ');
    out.append(value);
    out.push('\n');
    proof {
        lemma_unlines_one(entry(key@, value@));
        assert(out@ =~= old(out)@ + (entry(key@, value@) + seq!['\n']));
    }
}

impl NarInfoView {
    /// The lines before the references.
    pub open spec fn head_lines(self) -> Seq<Seq<char>> {
        seq![
            entry("StorePath"@, self.path),
            entry("NarHash"@, self.nar_hash.text()),
            entry("NarSize"@, decimal(self.nar_size as nat)),
        ] + optional_entry("FileHash"@, optional_hash_text(self.file_hash)) + optional_entry(
            "FileSize"@,
            optional_size_text(self.file_size),
        ) + optional_entry("URL"@, self.url) + optional_entry(
            "Compression"@,
            optional_compression_text(self.compression),
        ) + optional_entry("Deriver"@, self.deriver)
    }
}

impl NarInfo {
    /// The signature that `key` is held against: the one under its name.
    pub fn signature_by(&self, key: &PubKey) -> (r: Option<&[u8]>)
        ensures
            match r {
                Some(signature) => lookup(self@.signatures, key@.key_name) == Some(signature@),
                None => lookup(self@.signatures, key@.key_name) is None,
            },
    {
        self.signatures.get(key.key_name.as_str())
    }

    /// What the checks of the trusted keys mean for a record: it is verified
    /// where one of them came out valid, else `NoValidSignature`.
    pub fn verdict(valid: bool) -> (r: Result<SignatureVerified, Error>)
        ensures
            r is Ok <==> valid,
            r matches Err(e) ==> e == Error::NoValidSignature,
    {
        if valid {
            Ok(SignatureVerified)
        } else {
            Err(Error::NoValidSignature)
        }
    }

    /// Checks the record against the trusted keys: it is verified where one
    /// of them vouches for it, else `NoValidSignature`.
    pub fn check_signature(&self, trusted_keys: &Vec<PubKey>) -> (r: Result<
        SignatureVerified,
        Error,
    >)
        ensures
            r is Ok <==> exists|i: int|
                0 <= i < trusted_keys@.len() && self@.vouched_by(#[trigger] trusted_keys@[i]@),
            r matches Err(e) ==> e == Error::NoValidSignature,
    {
        let fingerprint = self.fingerprint();
        let message = fingerprint.as_str().as_bytes();
        let mut i: usize = 0;
        while i < trusted_keys.len()
            invariant
                i <= trusted_keys@.len(),
                message@ == encode_utf8(self@.fingerprint()),
                forall|j: int| 0 <= j < i ==> !self@.vouched_by(#[trigger] trusted_keys@[j]@),
            decreases trusted_keys.len() - i,
        {
            let key = &trusted_keys[i];
            if let Some(signature) = self.signature_by(key) {
                if ed25519_verify(key.pub_key.as_slice(), message, signature) {
                    assert(self@.vouched_by(trusted_keys@[i as int]@));
                    return NarInfo::verdict(true);
                }
            }
            i += 1;
        }
        NarInfo::verdict(false)
    }

    /// The text that is signed.
    pub fn fingerprint(&self) -> (s: String)
        ensures
            s@ == self@.fingerprint(),
    {
        let mut s = String::new();
        s.push('1');
        s.push(';');
        s.append(self.path.as_str());
        s.push(';');
        self.nar_hash.write_to(&mut s);
        s.push(';');
        push_u64(&mut s, self.nar_size);
        s.push(';');
        let ghost head = s@;
        let n = self.references.len();
        let mut i: usize = 0;
        while i < n
            invariant
                i <= n,
                n == self.references@.len(),
                s@ == head + join(self.references@.take(i as int), ','),
            decreases n - i,
        {
            if i > 0 {
                s.push(',');
            }
            push_chars(&mut s, self.references.chars(i));
            proof {
                let done = self.references@.take(i as int);
                crate::text::lemma_join_push(done, self.references@[i as int], ',');
                assert(self.references@.take(i + 1) =~= done.push(self.references@[i as int]));
                assert(s@ =~= head + join(self.references@.take(i + 1), ','));
            }
            i += 1;
        }
        assert(self.references@.take(n as int) =~= self.references@);
        assert(s@ =~= self@.fingerprint());
        s
    }

    /// Appends the three lines that every record has.
    fn write_required(&self, out: &mut String)
        ensures
            final(out)@ == old(out)@ + unlines(
                seq![
                    entry("StorePath"@, self@.path),
                    entry("NarHash"@, self@.nar_hash.text()),
                    entry("NarSize"@, decimal(self@.nar_size as nat)),
                ],
            ),
            self@.nar_hash.well_formed(),
    {
        let ghost e1 = entry("StorePath"@, self.path@);
        let ghost e2 = entry("NarHash"@, self.nar_hash@.text());
        let ghost e3 = entry("NarSize"@, decimal(self.nar_size as nat));
        write_entry(out, "StorePath", self.path.as_str());
        let ghost s1 = out@;
        let mut hash = String::new();
        self.nar_hash.write_to(&mut hash);
        assert(hash@ =~= self.nar_hash@.text());
        write_entry(out, "NarHash", hash.as_str());
        let ghost s2 = out@;
        let mut size = String::new();
        push_u64(&mut size, self.nar_size);
        assert(size@ =~= decimal(self.nar_size as nat));
        write_entry(out, "NarSize", size.as_str());
        proof {
            lemma_append_lines(old(out)@, seq![e1], seq![e2]);
            assert(s2 == old(out)@ + unlines(seq![e1] + seq![e2]));
            lemma_append_lines(old(out)@, seq![e1] + seq![e2], seq![e3]);
            assert(seq![e1] + seq![e2] + seq![e3] =~= seq![e1, e2, e3]);
        }
    }

    /// Appends the lines of the hash and the size of the stored object, where
    /// they are known.
    fn write_file_fields(&self, out: &mut String)
        ensures
            final(out)@ == old(out)@ + unlines(
                optional_entry("FileHash"@, optional_hash_text(self@.file_hash)) + optional_entry(
                    "FileSize"@,
                    optional_size_text(self@.file_size),
                ),
            ),
            self@.file_hash matches Some(h) ==> h.well_formed(),
    {
        let ghost l1 = optional_entry("FileHash"@, optional_hash_text(optional_hash(self.file_hash)));
        let ghost l2 = optional_entry("FileSize"@, optional_size_text(self.file_size));
        match &self.file_hash {
            Some(file_hash) => {
                let mut hash = String::new();
                file_hash.write_to(&mut hash);
                assert(hash@ =~= file_hash@.text());
                write_entry(out, "FileHash", hash.as_str());
            },
            None => {
                assert(out@ =~= old(out)@ + unlines(Seq::<Seq<char>>::empty()));
            },
        }
        assert(out@ == old(out)@ + unlines(l1));
        let ghost s1 = out@;
        match self.file_size {
            Some(file_size) => {
                let mut size = String::new();
                push_u64(&mut size, file_size);
                assert(size@ =~= decimal(file_size as nat));
                write_entry(out, "FileSize", size.as_str());
            },
            None => {
                assert(out@ =~= s1 + unlines(Seq::<Seq<char>>::empty()));
            },
        }
        assert(out@ == s1 + unlines(l2));
        proof {
            lemma_append_lines(old(out)@, l1, l2);
        }
    }

    /// Appends the line of a text that may be absent.
    fn write_optional(out: &mut String, key: &str, value: &Option<String>)
        ensures
            final(out)@ == old(out)@ + unlines(optional_entry(key@, optional_text(*value))),
    {
        match value {
            Some(v) => {
                write_entry(out, key, v.as_str());
            },
            None => {
                assert(out@ =~= old(out)@ + unlines(Seq::<Seq<char>>::empty()));
            },
        }
    }

    /// Appends the line of the compression, where it is known.
    fn write_compression(&self, out: &mut String)
        ensures
            final(out)@ == old(out)@ + unlines(
                optional_entry("Compression"@, optional_compression_text(self@.compression)),
            ),
    {
        match &self.compression {
            Some(c) => {
                write_entry(out, "Compression", c.as_ref());
            },
            None => {
                assert(out@ =~= old(out)@ + unlines(Seq::<Seq<char>>::empty()));
            },
        }
    }

    /// Appends the lines before the references.
    fn write_head(&self, out: &mut String)
        ensures
            final(out)@ == old(out)@ + unlines(self@.head_lines()),
            self@.nar_hash.well_formed(),
            self@.file_hash matches Some(h) ==> h.well_formed(),
    {
        let ghost view = self@;
        let ghost l1 = seq![
            entry("StorePath"@, view.path),
            entry("NarHash"@, view.nar_hash.text()),
            entry("NarSize"@, decimal(view.nar_size as nat)),
        ];
        let ghost l2 = optional_entry("FileHash"@, optional_hash_text(view.file_hash))
            + optional_entry("FileSize"@, optional_size_text(view.file_size));
        let ghost l3 = optional_entry("URL"@, view.url);
        let ghost l4 = optional_entry("Compression"@, optional_compression_text(view.compression));
        let ghost l5 = optional_entry("Deriver"@, view.deriver);
        self.write_required(out);
        self.write_file_fields(out);
        proof {
            lemma_append_lines(old(out)@, l1, l2);
        }
        NarInfo::write_optional(out, "URL", &self.url);
        proof {
            lemma_append_lines(old(out)@, l1 + l2, l3);
        }
        self.write_compression(out);
        proof {
            lemma_append_lines(old(out)@, l1 + l2 + l3, l4);
        }
        NarInfo::write_optional(out, "Deriver", &self.deriver);
        proof {
            lemma_append_lines(old(out)@, l1 + l2 + l3 + l4, l5);
            assert(view.head_lines() =~= l1 + l2 + l3 + l4 + l5);
        }
    }

    /// Appends the lines of the signatures.
    fn write_signatures(&self, out: &mut String)
        ensures
            final(out)@ == old(out)@ + unlines(signature_lines(self@.signatures)),
            distinct_keys(self@.signatures),
            trusted_payloads(self@.signatures),
    {
        let ghost all = signature_lines(self.signatures@);
        let n = self.signatures.len();
        let mut i: usize = 0;
        assert(out@ =~= old(out)@ + unlines(all.take(0)));
        while i < n
            invariant
                i <= n,
                n == self.signatures@.len(),
                all == signature_lines(self.signatures@),
                out@ == old(out)@ + unlines(all.take(i as int)),
                forall|j: int|
                    0 <= j < i ==> base64_pair(
                        (#[trigger] self.signatures@[j]).1,
                        base64_encoded(self.signatures@[j].1),
                    ),
            decreases n - i,
        {
            out.append("Sig");
            out.push(':');
            out.push(' ');
            let name = self.signatures.name(i);
            write_named(out, name.as_str(), self.signatures.bytes(i));
            out.push('\n');
            proof {
                let line = all[i as int];
                lemma_unlines_push(all.take(i as int), line);
                assert(all.take(i + 1) =~= all.take(i as int).push(line));
                assert(out@ =~= old(out)@ + (unlines(all.take(i as int)) + line + seq!['\n']));
            }
            i += 1;
        }
        assert(all.take(n as int) =~= all);
    }

    /// The text of the record. Where the record is legible, the text stands
    /// for it: reading it gives the record again.
    pub fn to_string(&self) -> (s: String)
        ensures
            s@ == self@.text(),
            well_formed(self@),
            legible(self@) ==> parse(s@) == Ok::<NarInfoView, Error>(self@),
    {
        let ghost view = self@;
        let ghost l1 = view.head_lines();
        let ghost l2 = reference_lines(view.references);
        let ghost l3 = signature_lines(view.signatures);
        let ghost l4 = optional_entry("CA"@, view.ca);
        let mut s = String::new();
        self.write_head(&mut s);
        assert(s@ =~= Seq::<char>::empty() + unlines(l1));
        self.write_references(&mut s);
        proof {
            lemma_append_lines(Seq::empty(), l1, l2);
        }
        self.write_signatures(&mut s);
        proof {
            lemma_append_lines(Seq::empty(), l1 + l2, l3);
        }
        NarInfo::write_optional(&mut s, "CA", &self.ca);
        proof {
            lemma_append_lines(Seq::empty(), l1 + l2 + l3, l4);
            assert(view.record_lines() == l1 + l2 + l3 + l4);
            assert(Seq::<char>::empty() + unlines(l1 + l2 + l3 + l4) =~= unlines(l1 + l2 + l3 + l4));
            if legible(view) {
                lemma_parse_text(view);
            }
        }
        s
    }

    /// Appends the line of the references, if there are any.
    fn write_references(&self, out: &mut String)
        ensures
            final(out)@ == old(out)@ + unlines(reference_lines(self.references@)),
            ascending(self.references@),
    {
        let n = self.references.len();
        if n == 0 {
            assert(unlines(reference_lines(self.references@)) =~= Seq::<char>::empty());
            assert(out@ =~= old(out)@ + unlines(reference_lines(self.references@)));
            return ;
        }
        let prefix = chars_of("/nix/store/");
        out.append("References:");
        let mut i: usize = 0;
        while i < n
            invariant
                i <= n,
                n == self.references@.len(),
                prefix@ == store_prefix(),
                out@ == old(out)@ + "References:"@ + spaced(
                    short_names(self.references@.take(i as int)),
                ),
            decreases n - i,
        {
            let reference = self.references.chars(i);
            proof {
                assert(self.references@.take(i + 1).drop_last() =~= self.references@.take(i as int));
                assert(self.references@.take(i + 1).last() == reference@);
            }
            if starts_with(reference, prefix.as_slice()) {
                out.push(' ');
                let tail = slice_subrange(reference, prefix.len(), reference.len());
                push_chars(out, tail);
                proof {
                    let names = short_names(self.references@.take(i as int));
                    assert(short_names(self.references@.take(i + 1)) == names.push(tail@));
                    assert(names.push(tail@).drop_last() =~= names);
                    assert(out@ =~= old(out)@ + "References:"@ + spaced(names.push(tail@)));
                }
            }
            i += 1;
        }
        out.push('\n');
        proof {
            assert(self.references@.take(n as int) =~= self.references@);
            let line = reference_lines(self.references@)[0];
            lemma_unlines_one(line);
            assert(reference_lines(self.references@) =~= seq![line]);
            assert(out@ =~= old(out)@ + unlines(reference_lines(self.references@)));
        }
    }
}

/// What has been read of a record so far.
struct Reading {
    warnings: Vec<ParseWarning>,
    path: Option<String>,
    nar_hash: Option<NixHash>,
    nar_size: Option<u64>,
    file_hash: Option<NixHash>,
    file_size: Option<u64>,
    url: Option<String>,
    compression: Option<Compression>,
    deriver: Option<String>,
    ca: Option<String>,
    references: ReferenceSet,
    signatures: SignatureMap,
}

impl View for Reading {
    type V = Draft;

    closed spec fn view(&self) -> Draft {
        Draft {
            warnings: warnings_view(self.warnings@),
            path: optional_text(self.path),
            nar_hash: optional_hash(self.nar_hash),
            nar_size: self.nar_size,
            file_hash: optional_hash(self.file_hash),
            file_size: self.file_size,
            url: optional_text(self.url),
            compression: self.compression,
            deriver: optional_text(self.deriver),
            ca: optional_text(self.ca),
            references: self.references@,
            signatures: self.signatures@,
        }
    }
}

/// `a` and then `b`.
fn concat(a: &[char], b: &[char]) -> (v: Vec<char>)
    ensures
        v@ == a@ + b@,
{
    let mut v: Vec<char> = Vec::new();
    let mut i: usize = 0;
    while i < a.len()
        invariant
            i <= a@.len(),
            v@ == a@.take(i as int),
        decreases a.len() - i,
    {
        v.push(a[i]);
        i += 1;
    }
    let mut j: usize = 0;
    while j < b.len()
        invariant
            j <= b@.len(),
            v@ == a@ + b@.take(j as int),
        decreases b.len() - j,
    {
        v.push(b[j]);
        j += 1;
    }
    assert(b@.take(b@.len() as int) =~= b@);
    v
}

/// Puts the store path of every segment of `value` into the set.
fn add_references(references: &mut ReferenceSet, value: &[char])
    ensures
        final(references)@ == inserted_all(old(references)@, store_paths(segments(value@))),
{
    let prefix = chars_of("/nix/store/");
    let parts = split_chars(value, ' ');
    let ghost all = texts(parts@);
    let ghost goal = inserted_all(old(references)@, store_paths(segments(value@)));
    let mut i: usize = 0;
    assert(all.skip(0) =~= all);
    while i < parts.len()
        invariant
            i <= parts@.len(),
            all == texts(parts@),
            prefix@ == store_prefix(),
            goal == inserted_all(references@, store_paths(non_empty(all.skip(i as int)))),
        decreases parts@.len() - i,
    {
        let name = parts[i].as_slice();
        proof {
            let rest = all.skip(i as int);
            assert(rest[0] == name@);
            assert(rest.drop_first() =~= all.skip(i + 1));
            if name@.len() > 0 {
                let kept = non_empty(all.skip(i + 1));
                assert(store_paths(seq![name@] + kept)[0] == store_prefix() + name@);
                assert(store_paths(seq![name@] + kept).drop_first() =~= store_paths(kept));
            }
        }
        if name.len() > 0 {
            references.insert_chars(concat(prefix.as_slice(), name));
        }
        i += 1;
    }
    assert(all.skip(parts@.len() as int) =~= Seq::<Seq<char>>::empty());
    assert(store_paths(Seq::<Seq<char>>::empty()) =~= Seq::<Seq<char>>::empty());
}

impl Reading {
    /// Nothing read yet.
    fn new() -> (r: Reading)
        ensures
            r@ == empty_draft(),
    {
        let r = Reading {
            warnings: Vec::new(),
            path: None,
            nar_hash: None,
            nar_size: None,
            file_hash: None,
            file_size: None,
            url: None,
            compression: None,
            deriver: None,
            ca: None,
            references: ReferenceSet::new(),
            signatures: SignatureMap::new(),
        };
        assert(warnings_view(r.warnings@) =~= Seq::<WarningView>::empty());
        r
    }

    /// Notes a warning.
    fn warn(&mut self, warning: ParseWarning)
        ensures
            final(self)@ == (Draft { warnings: old(self)@.warnings.push(warning@), ..old(self)@ }),
    {
        self.warnings.push(warning);
        assert(warnings_view(self.warnings@) =~= warnings_view(old(self).warnings@).push(
            warning@,
        ));
    }

    /// Takes one field in.
    fn read_field(self, key: &[char], value: &[char]) -> (r: Result<Reading, Error>)
        ensures
            match r {
                Ok(next) => read_field(self@, key@, value@) == Ok::<Draft, Error>(next@),
                Err(e) => read_field(self@, key@, value@) == Err::<Draft, Error>(e),
            },
    {
        let mut next = self;
        if is_word(key, "StorePath") {
            next.path = Some(string_of(value));
        } else if is_word(key, "NarHash") {
            match NixHash::from_chars(value) {
                Ok(h) => {
                    next.nar_hash = Some(h);
                },
                Err(e) => {
                    return Err(e);
                },
            }
        } else if is_word(key, "NarSize") {
            match parse_u64(value) {
                Some(n) => {
                    next.nar_size = Some(n);
                },
                None => {
                    return Err(Error::BadNarInfo);
                },
            }
        } else if is_word(key, "FileHash") {
            match NixHash::from_chars(value) {
                Ok(h) => {
                    next.file_hash = Some(h);
                },
                Err(e) => {
                    return Err(e);
                },
            }
        } else if is_word(key, "FileSize") {
            match parse_u64(value) {
                Some(n) => {
                    next.file_size = Some(n);
                },
                None => {
                    return Err(Error::BadNarInfo);
                },
            }
        } else if is_word(key, "URL") {
            next.url = Some(string_of(value));
        } else if is_word(key, "Compression") {
            match Compression::from_chars(value) {
                Some(c) => {
                    next.compression = Some(c);
                },
                None => {
                    return Err(Error::BadNarInfo);
                },
            }
        } else if is_word(key, "Deriver") {
            next.deriver = Some(string_of(value));
        } else if is_word(key, "References") {
            add_references(&mut next.references, value);
        } else if is_word(key, "Sig") {
            match Signature::from_chars(value) {
                Ok(sig) => {
                    if next.signatures.insert(sig.key_name.as_str(), sig.signature) {
                        next.warn(ParseWarning::DuplicateSignature(sig.key_name));
                    }
                },
                Err(e) => {
                    return Err(e);
                },
            }
        } else if is_word(key, "CA") {
            next.ca = Some(string_of(value));
        } else {
            next.warn(ParseWarning::UnknownKey(string_of(key)));
        }
        Ok(next)
    }

    /// Takes one line in.
    fn read_line(self, line: &[char]) -> (r: Result<Reading, Error>)
        ensures
            match r {
                Ok(next) => read_line(self@, line@) == Ok::<Draft, Error>(next@),
                Err(e) => read_line(self@, line@) == Err::<Draft, Error>(e),
            },
    {
        let colon = find(line, ':');
        if colon >= line.len() {
            return Err(Error::BadNarInfo);
        }
        if colon + 1 >= line.len() || line[colon + 1] != ' ' {
            proof {
                let tail = line@.skip(colon as int);
                if has_prefix(tail, seq![':', ' ']) {
                    assert(tail.take(2)[1] == ' ');
                }
            }
            return Err(Error::BadNarInfo);
        }
        proof {
            crate::text::lemma_first_index(line@, ':');
            let tail = line@.skip(colon as int);
            assert(tail.take(2) =~= seq![':', ' ']);
        }
        let key = slice_subrange(line, 0, colon);
        let value = slice_subrange(line, colon + 2, line.len());
        assert(key@ =~= line@.take(colon as int));
        assert(value@ =~= line@.skip(colon + 2));
        self.read_field(key, value)
    }

    /// The record, if all that it needs was read, and the warnings.
    fn finish(self) -> (r: Result<(NarInfo, Vec<ParseWarning>), Error>)
        ensures
            match r {
                Ok(read) => finish(self@) == Ok::<NarInfoView, Error>(read.0@) && warnings_view(
                    read.1@,
                ) == self@.warnings,
                Err(e) => finish(self@) == Err::<NarInfoView, Error>(e),
            },
    {
        let path = match self.path {
            Some(path) => path,
            None => {
                return Err(Error::BadNarInfo);
            },
        };
        let nar_hash = match self.nar_hash {
            Some(h) => h,
            None => {
                return Err(Error::BadNarInfo);
            },
        };
        let nar_size = match self.nar_size {
            Some(n) => n,
            None => {
                return Err(Error::BadNarInfo);
            },
        };
        Ok(
            (
                NarInfo {
                    path,
                    nar_hash,
                    nar_size,
                    file_hash: self.file_hash,
                    file_size: self.file_size,
                    url: self.url,
                    compression: self.compression,
                    deriver: self.deriver,
                    ca: self.ca,
                    references: self.references,
                    signatures: self.signatures,
                },
                self.warnings,
            ),
        )
    }
}

impl NarInfo {
    /// Reads the record that `s` stands for.
    pub fn from_str(s: &str) -> (r: Result<NarInfo, Error>)
        ensures
            match r {
                Ok(info) => parse(s@) == Ok::<NarInfoView, Error>(info@),
                Err(e) => parse(s@) == Err::<NarInfoView, Error>(e),
            },
    {
        match NarInfo::parse(s) {
            Ok(read) => Ok(read.0),
            Err(e) => Err(e),
        }
    }

    /// Reads the record that `s` stands for, and says what it passed over:
    /// signatures that were replaced, and keys that it does not know.
    pub fn parse(s: &str) -> (r: Result<(NarInfo, Vec<ParseWarning>), Error>)
        ensures
            match r {
                Ok(read) => parse(s@) == Ok::<NarInfoView, Error>(read.0@) && warnings_view(
                    read.1@,
                ) == parse_warnings(s@),
                Err(e) => parse(s@) == Err::<NarInfoView, Error>(e),
            },
    {
        let text = chars_of(s);
        let len = text.len();
        let mut reading = Reading::new();
        let mut pos: usize = 0;
        assert(text@.skip(0) =~= text@);
        while pos < len
            invariant
                pos <= len,
                len == text@.len(),
                text@ == s@,
                read_lines(empty_draft(), lines(text@)) == read_lines(
                    reading@,
                    lines(text@.skip(pos as int)),
                ),
            decreases len - pos,
        {
            let rest = slice_subrange(text.as_slice(), pos, len);
            let end = find(rest, '\n');
            let ghost all = lines(rest@);
            assert(rest@ =~= text@.skip(pos as int));
            let line = if end < rest.len() && end > 0 && rest[end - 1] == '\r' {
                slice_subrange(rest, 0, end - 1)
            } else {
                slice_subrange(rest, 0, end)
            };
            proof {
                if end < rest@.len() {
                    let whole = rest@.take(end as int);
                    if end > 0 && rest@[end - 1] == '\r' {
                        assert(whole.last() == '\r');
                        assert(line@ =~= whole.drop_last());
                    } else {
                        assert(line@ =~= whole);
                    }
                    assert(all[0] == line@);
                    assert(all.drop_first() =~= lines(rest@.skip(end + 1)));
                    assert(rest@.skip(end + 1) =~= text@.skip(pos + end + 1));
                } else {
                    assert(line@ =~= rest@);
                    assert(all =~= seq![rest@]);
                    assert(all.drop_first() =~= lines(text@.skip(len as int)));
                }
            }
            reading = match reading.read_line(line) {
                Ok(next) => next,
                Err(e) => {
                    return Err(e);
                },
            };
            pos = if end < rest.len() {
                pos + end + 1
            } else {
                len
            };
        }
        reading.finish()
    }
}

impl std::str::FromStr for Compression {
    type Err = Error;

    /// The compression that `s` names, or `BadNarInfo`.
    fn from_str(s: &str) -> (r: Result<Compression, Error>)
        ensures
            r == match Compression::named(s@) {
                Some(c) => Ok::<Compression, Error>(c),
                None => Err(Error::BadNarInfo),
            },
    {
        Compression::from_str(s)
    }
}

impl std::str::FromStr for NarInfo {
    type Err = Error;

    /// Reads the record that `s` stands for.
    fn from_str(s: &str) -> (r: Result<NarInfo, Error>)
        ensures
            match r {
                Ok(info) => parse(s@) == Ok::<NarInfoView, Error>(info@),
                Err(e) => parse(s@) == Err::<NarInfoView, Error>(e),
            },
    {
        NarInfo::from_str(s)
    }
}

} // verus!
