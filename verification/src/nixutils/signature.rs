//! Detached signatures and public keys, and their text,
//! `<key name>:<base-64 bytes>`.

use crate::error::Error;
use crate::outside::{
    base64_char, base64_decode, base64_decoded, base64_encode, base64_encoded, base64_pair,
    encodable,
};
use crate::text::{chars_of, find, first_index, has_char, lemma_first_index_is, string_of};
use vstd::prelude::*;
use vstd::slice::slice_subrange;
use vstd::string::{StringExecFns, StringSliceAdditionalSpecFns};
use vstd::utf8::{encode_utf8, is_ascii_chars, is_ascii_chars_encode_utf8};

verus! {

/// The longest payload, in bytes of text, that is handed to the decoder. Up
/// to it, the sizes that the decoder computes, and those that encoding the
/// decoded bytes again takes, fit the machine's word.
pub const MAX_PAYLOAD: usize = usize::MAX - 16;

/// The text of a name and its bytes.
pub open spec fn payload_text(name: Seq<char>, bytes: Seq<u8>) -> Seq<char> {
    name + seq![':'] + base64_encoded(bytes)
}

/// The name and the bytes that a text stands for. The name is what stands
/// before the first colon and is not empty; a text without a colon or with an
/// empty name is `UnexpectedEof`, and so is one whose payload is longer than
/// `MAX_PAYLOAD`. What follows the colon is decoded, and the decoder's
/// refusal is `Base64`.
pub open spec fn parse_payload(s: Seq<char>) -> Result<(Seq<char>, Seq<u8>), Error> {
    let colon = first_index(s, ':') as int;
    if colon >= s.len() || colon == 0 {
        Err(Error::UnexpectedEof)
    } else if encode_utf8(s.skip(colon + 1)).len() > MAX_PAYLOAD {
        Err(Error::UnexpectedEof)
    } else {
        match base64_decoded(s.skip(colon + 1)) {
            Ok(bytes) => Ok((s.take(colon), bytes)),
            Err(e) => Err(Error::Base64(e)),
        }
    }
}

/// Whether a name can be read back from a text: it is not empty and holds no
/// colon.
pub open spec fn plain_name(name: Seq<char>) -> bool {
    name.len() > 0 && !has_char(name, ':')
}

/// Whether the encoding of `bytes` is what the encoder is trusted to make,
/// and short enough to be decoded again.
pub open spec fn plain_payload(bytes: Seq<u8>) -> bool {
    base64_pair(bytes, base64_encoded(bytes)) && (bytes.len() + 2) / 3 * 4 <= MAX_PAYLOAD
}

/// The text of a plain name and a plain payload stands for them.
pub proof fn lemma_parse_payload_text(name: Seq<char>, bytes: Seq<u8>)
    requires
        plain_name(name),
        plain_payload(bytes),
    ensures
        parse_payload(payload_text(name, bytes)) == Ok::<(Seq<char>, Seq<u8>), Error>(
            (name, bytes),
        ),
{
    let s = payload_text(name, bytes);
    let text = base64_encoded(bytes);
    assert(first_index(s, ':') == name.len()) by {
        assert forall|j: int| 0 <= j < name.len() implies s[j] != ':' by {
            assert(s[j] == name[j]);
        }
        lemma_first_index_is(s, ':', name.len() as int);
    }
    assert(s.take(name.len() as int) =~= name);
    assert(s.skip(name.len() as int + 1) =~= text);
    assert(is_ascii_chars(text)) by {
        assert forall|i: int| 0 <= i < text.len() implies '\0' <= #[trigger] text[i]
            <= '\u{7f}' by {
            assert(base64_char(text[i]));
        }
    }
    is_ascii_chars_encode_utf8(text);
}

/// Where the key name of a text ends: at its first colon, which is there
/// and is not the first character, else `UnexpectedEof`.
pub fn name_end(chars: &[char]) -> (r: Result<usize, Error>)
    ensures
        match r {
            Ok(colon) => {
                &&& colon == first_index(chars@, ':')
                &&& 0 < colon
                &&& colon < chars@.len()
            },
            Err(e) => {
                &&& e == Error::UnexpectedEof
                &&& (first_index(chars@, ':') >= chars@.len() || first_index(chars@, ':') == 0)
            },
        },
{
    let colon = find(chars, ':');
    if colon >= chars.len() || colon == 0 {
        Err(Error::UnexpectedEof)
    } else {
        Ok(colon)
    }
}

/// What the decoder's answer makes of a key name: the name and the bytes, or
/// the decoder's refusal as `Base64`.
pub fn named_outcome(key_name: String, decoded: Result<Vec<u8>, base64::DecodeError>) -> (r:
    Result<(String, Vec<u8>), Error>)
    ensures
        match decoded {
            Ok(bytes) => r == Ok::<(String, Vec<u8>), Error>((key_name, bytes)),
            Err(e) => r == Err::<(String, Vec<u8>), Error>(Error::Base64(e)),
        },
{
    match decoded {
        Ok(bytes) => Ok((key_name, bytes)),
        Err(e) => Err(Error::Base64(e)),
    }
}

/// Reads a name and its bytes.
pub(crate) fn parse_named(chars: &[char]) -> (r: Result<(String, Vec<u8>), Error>)
    ensures
        match r {
            Ok(named) => parse_payload(chars@) == Ok::<(Seq<char>, Seq<u8>), Error>(
                (named.0@, named.1@),
            ) && encodable(named.1@.len()),
            Err(e) => parse_payload(chars@) == Err::<(Seq<char>, Seq<u8>), Error>(e),
        },
{
    let colon = match name_end(chars) {
        Ok(colon) => colon,
        Err(e) => {
            return Err(e);
        },
    };
    assert(colon < chars.len());
    let key_name = string_of(slice_subrange(chars, 0, colon));
    let payload = string_of(slice_subrange(chars, colon + 1, chars.len()));
    if payload.as_str().as_bytes().len() > MAX_PAYLOAD {
        return Err(Error::UnexpectedEof);
    }
    named_outcome(key_name, base64_decode(payload.as_str()))
}

/// Appends the text of a name and its bytes.
pub(crate) fn write_named(out: &mut String, name: &str, bytes: &[u8])
    requires
        encodable(bytes@.len()),
    ensures
        final(out)@ == old(out)@ + payload_text(name@, bytes@),
        base64_pair(bytes@, base64_encoded(bytes@)),
{
    let payload = base64_encode(bytes);
    out.append(name);
    out.push(':');
    out.append(payload.as_str());
    assert(out@ =~= old(out)@ + payload_text(name@, bytes@));
}

/// A signature as a value.
pub struct SignatureView {
    pub key_name: Seq<char>,
    pub signature: Seq<u8>,
}

/// A detached signature: the name of the key that made it, and its bytes.
#[derive(Debug, Clone)]
pub struct Signature {
    pub key_name: String,
    pub signature: Vec<u8>,
}

impl View for Signature {
    type V = SignatureView;

    open spec fn view(&self) -> SignatureView {
        SignatureView { key_name: self.key_name@, signature: self.signature@ }
    }
}

impl SignatureView {
    /// The text of the signature.
    pub open spec fn text(self) -> Seq<char> {
        payload_text(self.key_name, self.signature)
    }

    /// Whether the signature can be read back from its text.
    pub open spec fn plain(self) -> bool {
        plain_name(self.key_name) && (self.signature.len() + 2) / 3 * 4 <= MAX_PAYLOAD
    }
}

/// The signature that a text stands for: see `parse_payload`.
pub open spec fn parse_signature(s: Seq<char>) -> Result<SignatureView, Error> {
    match parse_payload(s) {
        Ok(named) => Ok(SignatureView { key_name: named.0, signature: named.1 }),
        Err(e) => Err(e),
    }
}

impl Signature {
    /// Reads the signature that `chars` stands for.
    pub fn from_chars(chars: &[char]) -> (r: Result<Signature, Error>)
        ensures
            match r {
                Ok(sig) => parse_signature(chars@) == Ok::<SignatureView, Error>(sig@)
                    && encodable(sig@.signature.len()),
                Err(e) => parse_signature(chars@) == Err::<SignatureView, Error>(e),
            },
    {
        match parse_named(chars) {
            Ok(named) => Ok(Signature { key_name: named.0, signature: named.1 }),
            Err(e) => Err(e),
        }
    }

    /// Reads the signature that `s` stands for.
    pub fn from_str(s: &str) -> (r: Result<Signature, Error>)
        ensures
            match r {
                Ok(sig) => parse_signature(s@) == Ok::<SignatureView, Error>(sig@) && encodable(
                    sig@.signature.len(),
                ),
                Err(e) => parse_signature(s@) == Err::<SignatureView, Error>(e),
            },
    {
        let chars = chars_of(s);
        Signature::from_chars(chars.as_slice())
    }

    /// The text of the signature, which stands for it where it is plain.
    pub fn to_string(&self) -> (s: String)
        requires
            encodable(self@.signature.len()),
        ensures
            s@ == self@.text(),
            self@.plain() ==> parse_signature(s@) == Ok::<SignatureView, Error>(self@),
    {
        let mut s = String::new();
        write_named(&mut s, self.key_name.as_str(), self.signature.as_slice());
        proof {
            if self@.plain() {
                lemma_parse_payload_text(self@.key_name, self@.signature);
            }
        }
        s
    }
}

/// A public key as a value.
pub struct PubKeyView {
    pub key_name: Seq<char>,
    pub pub_key: Seq<u8>,
}

/// A public key: its name, and its bytes.
#[derive(Debug, Clone)]
pub struct PubKey {
    pub key_name: String,
    pub pub_key: Vec<u8>,
}

impl View for PubKey {
    type V = PubKeyView;

    open spec fn view(&self) -> PubKeyView {
        PubKeyView { key_name: self.key_name@, pub_key: self.pub_key@ }
    }
}

impl PubKeyView {
    /// The text of the key.
    pub open spec fn text(self) -> Seq<char> {
        payload_text(self.key_name, self.pub_key)
    }

    /// Whether the key can be read back from its text.
    pub open spec fn plain(self) -> bool {
        plain_name(self.key_name) && (self.pub_key.len() + 2) / 3 * 4 <= MAX_PAYLOAD
    }
}

/// The public key that a text stands for: see `parse_payload`.
pub open spec fn parse_pub_key(s: Seq<char>) -> Result<PubKeyView, Error> {
    match parse_payload(s) {
        Ok(named) => Ok(PubKeyView { key_name: named.0, pub_key: named.1 }),
        Err(e) => Err(e),
    }
}

impl PubKey {
    /// Reads the public key that `s` stands for.
    pub fn from_str(s: &str) -> (r: Result<PubKey, Error>)
        ensures
            match r {
                Ok(key) => parse_pub_key(s@) == Ok::<PubKeyView, Error>(key@) && encodable(
                    key@.pub_key.len(),
                ),
                Err(e) => parse_pub_key(s@) == Err::<PubKeyView, Error>(e),
            },
    {
        let chars = chars_of(s);
        match parse_named(chars.as_slice()) {
            Ok(named) => Ok(PubKey { key_name: named.0, pub_key: named.1 }),
            Err(e) => Err(e),
        }
    }

    /// The text of the key, which stands for it where it is plain.
    pub fn to_string(&self) -> (s: String)
        requires
            encodable(self@.pub_key.len()),
        ensures
            s@ == self@.text(),
            self@.plain() ==> parse_pub_key(s@) == Ok::<PubKeyView, Error>(self@),
    {
        let mut s = String::new();
        write_named(&mut s, self.key_name.as_str(), self.pub_key.as_slice());
        proof {
            if self@.plain() {
                lemma_parse_payload_text(self@.key_name, self@.pub_key);
            }
        }
        s
    }
}

impl std::str::FromStr for Signature {
    type Err = Error;

    /// Reads the signature that `s` stands for.
    fn from_str(s: &str) -> (r: Result<Signature, Error>)
        ensures
            match r {
                Ok(sig) => parse_signature(s@) == Ok::<SignatureView, Error>(sig@) && encodable(
                    sig@.signature.len(),
                ),
                Err(e) => parse_signature(s@) == Err::<SignatureView, Error>(e),
            },
    {
        Signature::from_str(s)
    }
}

impl std::str::FromStr for PubKey {
    type Err = Error;

    /// Reads the public key that `s` stands for.
    fn from_str(s: &str) -> (r: Result<PubKey, Error>)
        ensures
            match r {
                Ok(key) => parse_pub_key(s@) == Ok::<PubKeyView, Error>(key@) && encodable(
                    key@.pub_key.len(),
                ),
                Err(e) => parse_pub_key(s@) == Err::<PubKeyView, Error>(e),
            },
    {
        PubKey::from_str(s)
    }
}

} // verus!
