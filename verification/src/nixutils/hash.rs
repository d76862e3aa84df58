//! Content hashes and their text, `<algorithm>:<base-32 digest>`.

use crate::error::Error;
use crate::nixutils::base32;
use crate::text::{chars_of, find, first_index, is_word, lemma_first_index, lemma_first_index_is};
use vstd::prelude::*;
use vstd::slice::slice_subrange;
use vstd::string::StringExecFns;

verus! {

/// The algorithm of a hash.
#[derive(Debug, Clone, Copy, PartialEq, Eq)]
pub enum HashType {
    Md5,
    Sha1,
    Sha256,
    Sha512,
}

impl HashType {
    /// The name of the algorithm in a hash's text.
    pub open spec fn name(self) -> Seq<char> {
        match self {
            HashType::Md5 => "md5"@,
            HashType::Sha1 => "sha1"@,
            HashType::Sha256 => "sha256"@,
            HashType::Sha512 => "sha512"@,
        }
    }

    /// The algorithm of a name, if it names one.
    pub open spec fn named(name: Seq<char>) -> Option<HashType> {
        if name == "md5"@ {
            Some(HashType::Md5)
        } else if name == "sha1"@ {
            Some(HashType::Sha1)
        } else if name == "sha256"@ {
            Some(HashType::Sha256)
        } else if name == "sha512"@ {
            Some(HashType::Sha512)
        } else {
            None
        }
    }

    /// The number of bytes in a digest of the algorithm.
    pub open spec fn digest_len(self) -> nat {
        match self {
            HashType::Md5 => 16,
            HashType::Sha1 => 20,
            HashType::Sha256 => 32,
            HashType::Sha512 => 64,
        }
    }

    /// The name of the algorithm.
    pub fn as_ref(&self) -> (name: &'static str)
        ensures
            name@ == self.name(),
    {
        match self {
            HashType::Md5 => "md5",
            HashType::Sha1 => "sha1",
            HashType::Sha256 => "sha256",
            HashType::Sha512 => "sha512",
        }
    }

    /// The number of bytes in a digest of the algorithm.
    pub fn size(&self) -> (n: usize)
        ensures
            n == self.digest_len(),
    {
        match self {
            HashType::Md5 => 16,
            HashType::Sha1 => 20,
            HashType::Sha256 => 32,
            HashType::Sha512 => 64,
        }
    }

    /// The algorithm that `name` names.
    pub fn from_chars(name: &[char]) -> (r: Option<HashType>)
        ensures
            r == HashType::named(name@),
    {
        if is_word(name, "md5") {
            Some(HashType::Md5)
        } else if is_word(name, "sha1") {
            Some(HashType::Sha1)
        } else if is_word(name, "sha256") {
            Some(HashType::Sha256)
        } else if is_word(name, "sha512") {
            Some(HashType::Sha512)
        } else {
            None
        }
    }

    /// The algorithm that `name` names, or `UnknownHashType`.
    pub fn from_str(name: &str) -> (r: Result<HashType, Error>)
        ensures
            r == match HashType::named(name@) {
                Some(t) => Ok::<HashType, Error>(t),
                None => Err(Error::UnknownHashType),
            },
    {
        let chars = chars_of(name);
        match HashType::from_chars(chars.as_slice()) {
            Some(t) => Ok(t),
            None => Err(Error::UnknownHashType),
        }
    }
}

/// Every algorithm is named by its own name, which holds no colon.
pub proof fn lemma_hash_type_name(t: HashType)
    ensures
        HashType::named(t.name()) == Some(t),
        first_index(t.name(), ':') == t.name().len(),
{
    reveal_strlit("md5");
    reveal_strlit("sha1");
    reveal_strlit("sha256");
    reveal_strlit("sha512");
    let name = t.name();
    if t == HashType::Sha256 {
        assert("sha256"@[5] != "sha512"@[5]);
    }
    if t == HashType::Sha512 {
        assert("sha512"@[5] != "sha256"@[5]);
    }
    lemma_first_index_is(name, ':', name.len() as int);
}

/// A hash as a value: its algorithm and its digest.
pub struct NixHashView {
    pub hash_type: HashType,
    pub digest: Seq<u8>,
}

impl NixHashView {
    /// Whether the digest has the length of its algorithm.
    pub open spec fn well_formed(self) -> bool {
        self.digest.len() == self.hash_type.digest_len()
    }

    /// The text of the hash.
    pub open spec fn text(self) -> Seq<char> {
        self.hash_type.name() + seq![':'] + base32::encode_spec(self.digest)
    }
}

/// The hash that a text stands for. The name before the first colon is looked
/// up first, so a text without a colon is `UnknownHashType` unless all of it
/// is a name, and then `UnexpectedEof`. The digest after the colon has the
/// length that the algorithm's digest takes in base 32 and decodes in it,
/// else `BadBase32`.
pub open spec fn parse_hash(s: Seq<char>) -> Result<NixHashView, Error> {
    let colon = first_index(s, ':') as int;
    match HashType::named(s.take(colon)) {
        None => Err(Error::UnknownHashType),
        Some(hash_type) => {
            if colon >= s.len() {
                Err(Error::UnexpectedEof)
            } else if s.len() - colon - 1 != base32::encoded_len(hash_type.digest_len()) {
                Err(Error::BadBase32)
            } else {
                match base32::decode_spec(s.skip(colon + 1)) {
                    None => Err(Error::BadBase32),
                    Some(digest) => Ok(NixHashView { hash_type, digest }),
                }
            }
        },
    }
}

/// The text of a well-formed hash stands for that hash.
pub proof fn lemma_parse_hash_text(h: NixHashView)
    requires
        h.well_formed(),
    ensures
        parse_hash(h.text()) == Ok::<NixHashView, Error>(h),
{
    let name = h.hash_type.name();
    let s = h.text();
    lemma_hash_type_name(h.hash_type);
    lemma_first_index(name, ':');
    assert(first_index(s, ':') == name.len()) by {
        assert forall|j: int| 0 <= j < name.len() implies s[j] != ':' by {
            assert(s[j] == name[j]);
            if name[j] == ':' {
                assert(crate::text::has_char(name, ':'));
            }
        }
        lemma_first_index_is(s, ':', name.len() as int);
    }
    assert(s.take(name.len() as int) =~= name);
    assert(s.skip(name.len() as int + 1) =~= base32::encode_spec(h.digest));
    base32::lemma_decode_encode(h.digest);
}

/// A content hash: an algorithm and a digest of that algorithm's length.
#[derive(Debug)]
pub struct NixHash {
    hash_type: HashType,
    hash: Vec<u8>,
}

impl View for NixHash {
    type V = NixHashView;

    closed spec fn view(&self) -> NixHashView {
        NixHashView { hash_type: self.hash_type, digest: self.hash@ }
    }
}

impl Clone for NixHash {
    fn clone(&self) -> (r: Self)
        ensures
            r@ == self@,
    {
        proof {
            use_type_invariant(self);
        }
        let hash = self.hash.clone();
        assert(hash@ =~= self.hash@);
        NixHash { hash_type: self.hash_type, hash }
    }
}

impl NixHash {
    #[verifier::type_invariant]
    spec fn digest_fits(self) -> bool {
        self.hash@.len() == self.hash_type.digest_len()
    }

    /// A hash of the given algorithm, if the digest has its length.
    pub fn new(hash_type: HashType, digest: Vec<u8>) -> (r: Option<NixHash>)
        ensures
            r matches Some(h) ==> h@ == (NixHashView { hash_type, digest: digest@ }),
            r is Some <==> digest@.len() == hash_type.digest_len(),
    {
        if digest.len() == hash_type.size() {
            Some(NixHash { hash_type, hash: digest })
        } else {
            None
        }
    }

    /// The algorithm.
    pub fn hash_type(&self) -> (t: HashType)
        ensures
            t == self@.hash_type,
    {
        self.hash_type
    }

    /// The digest.
    pub fn digest(&self) -> (d: &[u8])
        ensures
            d@ == self@.digest,
            self@.well_formed(),
    {
        proof {
            use_type_invariant(self);
        }
        self.hash.as_slice()
    }

    /// Reads the hash that `chars` stands for.
    pub fn from_chars(chars: &[char]) -> (r: Result<NixHash, Error>)
        ensures
            match r {
                Ok(h) => parse_hash(chars@) == Ok::<NixHashView, Error>(h@) && h@.well_formed(),
                Err(e) => parse_hash(chars@) == Err::<NixHashView, Error>(e),
            },
    {
        let colon = find(chars, ':');
        let hash_type = match HashType::from_chars(slice_subrange(chars, 0, colon)) {
            Some(t) => t,
            None => {
                return Err(Error::UnknownHashType);
            },
        };
        if colon >= chars.len() {
            return Err(Error::UnexpectedEof);
        }
        let digits = slice_subrange(chars, colon + 1, chars.len());
        let size = hash_type.size();
        if digits.len() != (8 * size + 4) / 5 {
            return Err(Error::BadBase32);
        }
        match base32::decode_chars(digits) {
            Ok(hash) => Ok(NixHash { hash_type, hash }),
            Err(e) => Err(e),
        }
    }

    /// Reads the hash that `s` stands for.
    pub fn from_str(s: &str) -> (r: Result<NixHash, Error>)
        ensures
            match r {
                Ok(h) => parse_hash(s@) == Ok::<NixHashView, Error>(h@) && h@.well_formed(),
                Err(e) => parse_hash(s@) == Err::<NixHashView, Error>(e),
            },
    {
        let chars = chars_of(s);
        NixHash::from_chars(chars.as_slice())
    }

    /// Appends the text of the hash.
    pub fn write_to(&self, out: &mut String)
        ensures
            final(out)@ == old(out)@ + self@.text(),
            self@.well_formed(),
    {
        proof {
            use_type_invariant(self);
        }
        let digest = base32::encode(self.hash.as_slice());
        out.append(self.hash_type.as_ref());
        out.push(':');
        out.append(digest.as_str());
        assert(out@ =~= old(out)@ + self@.text());
    }

    /// The text of the hash.
    pub fn to_string(&self) -> (s: String)
        ensures
            s@ == self@.text(),
            self@.well_formed(),
            parse_hash(s@) == Ok::<NixHashView, Error>(self@),
    {
        let mut s = String::new();
        self.write_to(&mut s);
        proof {
            lemma_parse_hash_text(self@);
        }
        s
    }
}

impl std::str::FromStr for HashType {
    type Err = Error;

    /// The algorithm that `s` names, or `UnknownHashType`.
    fn from_str(s: &str) -> (r: Result<HashType, Error>)
        ensures
            r == match HashType::named(s@) {
                Some(t) => Ok::<HashType, Error>(t),
                None => Err(Error::UnknownHashType),
            },
    {
        HashType::from_str(s)
    }
}

impl std::str::FromStr for NixHash {
    type Err = Error;

    /// Reads the hash that `s` stands for.
    fn from_str(s: &str) -> (r: Result<NixHash, Error>)
        ensures
            match r {
                Ok(h) => parse_hash(s@) == Ok::<NixHashView, Error>(h@) && h@.well_formed(),
                Err(e) => parse_hash(s@) == Err::<NixHashView, Error>(e),
            },
    {
        NixHash::from_str(s)
    }
}

} // verus!
