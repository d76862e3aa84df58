//! What the library takes on trust: the functions of `std`, `base64` and
//! `ring` that it calls, each with the contract that the proofs rest on.

use vstd::prelude::*;
use vstd::string::StringSliceAdditionalSpecFns;

verus! {

/// `String::push` appends one character.
pub assume_specification[ String::push ](s: &mut String, ch: char)
    ensures
        final(s)@ == old(s)@.push(ch),
;

/// The failure of a `base64::decode` call, carried through unread.
#[verifier::external_type_specification]
#[verifier::external_body]
pub struct ExDecodeError(base64::DecodeError);

/// The text that `base64::encode` makes of `bytes`: the standard alphabet,
/// padded.
pub uninterp spec fn base64_encoded(bytes: Seq<u8>) -> Seq<char>;

/// What `base64::decode` makes of `text`: the bytes, or why it has none.
pub uninterp spec fn base64_decoded(text: Seq<char>) -> Result<Seq<u8>, base64::DecodeError>;

/// Whether a signature of `message` under the Ed25519 public key `key` is
/// accepted by `ring`.
pub uninterp spec fn ed25519_valid(key: Seq<u8>, message: Seq<u8>, signature: Seq<u8>) -> bool;

/// What a refusal of `base64::decode` says of itself.
pub uninterp spec fn decode_error_text(e: base64::DecodeError) -> Seq<char>;

/// A character of padded standard base 64.
pub open spec fn base64_char(c: char) -> bool {
    ||| 'A' <= c <= 'Z'
    ||| 'a' <= c <= 'z'
    ||| '0' <= c <= '9'
    ||| c == '+'
    ||| c == '/'
    ||| c == '='
}

/// Whether `base64::encode` can size the text for `n` bytes: four characters
/// for every three bytes, and four more.
pub open spec fn encodable(n: nat) -> bool {
    n / 3 * 4 + 4 <= usize::MAX
}

/// What is taken on trust of `text` as the encoding of `bytes`: it is the
/// encoding, it decodes to `bytes` again, it has four characters for every
/// three bytes begun, and all of them are base-64 characters.
pub open spec fn base64_pair(bytes: Seq<u8>, text: Seq<char>) -> bool {
    &&& text == base64_encoded(bytes)
    &&& decode_outcome(Ok(bytes)) == base64_decoded(text)
    &&& text.len() == (bytes.len() + 2) / 3 * 4
    &&& forall|i: int| 0 <= i < text.len() ==> base64_char(#[trigger] text[i])
}

/// A decoder's answer as it stands in contracts.
pub open spec fn decode_outcome(r: Result<Seq<u8>, base64::DecodeError>) -> Result<
    Seq<u8>,
    base64::DecodeError,
> {
    r
}

/// The answer of a call with its bytes taken by their view.
pub open spec fn outcome_view(r: Result<Vec<u8>, base64::DecodeError>) -> Result<
    Seq<u8>,
    base64::DecodeError,
> {
    match r {
        Ok(v) => Ok(v@),
        Err(e) => Err(e),
    }
}

/// `base64::encode`: the padded standard encoding of `bytes`. It panics only
/// where the size of the text overflows, which `requires` leaves out.
#[verifier::external_body]
pub(crate) fn base64_encode(bytes: &[u8]) -> (text: String)
    requires
        encodable(bytes@.len()),
    ensures
        text@ == base64_encoded(bytes@),
        base64_decoded(text@) == decode_outcome(Ok(bytes@)),
        text@.len() == (bytes@.len() + 2) / 3 * 4,
        forall|i: int| 0 <= i < text@.len() ==> base64_char(#[trigger] text@[i]),
{
    base64::encode(bytes)
}

/// `base64::decode`: the bytes that a padded or unpadded standard text stands
/// for, or the decoder's error. The result is no longer than the buffer that
/// the decoder sizes for it, six bytes for every eight of text begun. It
/// panics only where that size overflows, which `requires` leaves out.
#[verifier::external_body]
pub(crate) fn base64_decode(text: &str) -> (r: Result<Vec<u8>, base64::DecodeError>)
    requires
        text.spec_bytes().len() + 7 <= usize::MAX,
    ensures
        outcome_view(r) == base64_decoded(text@),
        r matches Ok(v) ==> v@.len() <= (text.spec_bytes().len() + 7) / 8 * 6,
{
    base64::decode(text)
}

/// The `Display` of `base64::DecodeError`: the message of the refusal.
#[verifier::external_body]
pub(crate) fn decode_error_message(e: &base64::DecodeError) -> (message: String)
    ensures
        message@ == decode_error_text(*e),
{
    e.to_string()
}

/// `ring::signature::UnparsedPublicKey::verify` with `ED25519`: whether
/// `signature` is a valid Ed25519 signature of `message` under `key`.
#[verifier::external_body]
pub(crate) fn ed25519_verify(key: &[u8], message: &[u8], signature: &[u8]) -> (ok: bool)
    ensures
        ok == ed25519_valid(key@, message@, signature@),
{
    ring::signature::UnparsedPublicKey::new(&ring::signature::ED25519, key).verify(
        message,
        signature,
    ).is_ok()
}

} // verus!
