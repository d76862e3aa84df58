//! The base-32 form of a digest.
//!
//! The bytes are read as one string of bits, bit 0 of byte 0 first. Digit `n`
//! is the number made of bits `5n .. 5n + 4`, and the text shows the digits
//! from the highest down to digit 0, each as one character of a fixed
//! alphabet of 32.

use crate::error::Error;
use crate::text::{chars_of};
use vstd::prelude::*;

verus! {

/// Bit `t` of `x`, as 0 or 1.
pub open spec fn bit_of(x: u8, t: u8) -> u8 {
    (x >> t) & 1
}

/// Bit `k` of a byte string: bit `k % 8` of byte `k / 8`, and 0 past the end.
pub open spec fn nth_bit(bytes: Seq<u8>, k: int) -> int {
    if 0 <= k < 8 * bytes.len() {
        bit_of(bytes[k / 8], (k % 8) as u8) as int
    } else {
        0
    }
}

/// Digit `n` of a byte string: the number whose bits are bits `5n .. 5n + 4`.
pub open spec fn group(bytes: Seq<u8>, n: int) -> int {
    nth_bit(bytes, 5 * n) + 2 * nth_bit(bytes, 5 * n + 1) + 4 * nth_bit(bytes, 5 * n + 2) + 8
        * nth_bit(bytes, 5 * n + 3) + 16 * nth_bit(bytes, 5 * n + 4)
}

/// The character that shows the digit `d`: the alphabet is
/// `0123456789abcdfghijklmnpqrsvwxyz`.
pub open spec fn symbol(d: int) -> char {
    if d < 10 {
        (48 + d) as u8 as char
    } else if d < 14 {
        (97 + d - 10) as u8 as char
    } else if d < 23 {
        (102 + d - 14) as u8 as char
    } else if d < 27 {
        (112 + d - 23) as u8 as char
    } else {
        (118 + d - 27) as u8 as char
    }
}

/// The digit that `c` shows, if it is in the alphabet.
pub open spec fn digit(c: char) -> Option<u8> {
    let v = c as u32;
    if 48 <= v <= 57 {
        Some((v - 48) as u8)
    } else if 97 <= v <= 100 {
        Some((v - 97 + 10) as u8)
    } else if 102 <= v <= 110 {
        Some((v - 102 + 14) as u8)
    } else if 112 <= v <= 115 {
        Some((v - 112 + 23) as u8)
    } else if 118 <= v <= 122 {
        Some((v - 118 + 27) as u8)
    } else {
        None
    }
}

/// How many characters show `n` bytes: `8n / 5`, rounded up.
pub open spec fn encoded_len(n: nat) -> nat {
    ((8 * n + 4) / 5) as nat
}

/// How many bytes `n` characters hold: `5n / 8`, rounded down.
pub open spec fn decoded_len(n: nat) -> nat {
    ((5 * n) / 8) as nat
}

/// The text of a byte string.
pub open spec fn encode_spec(bytes: Seq<u8>) -> Seq<char> {
    Seq::new(
        encoded_len(bytes.len()),
        |p: int| symbol(group(bytes, encoded_len(bytes.len()) - 1 - p)),
    )
}

/// Whether every character of `text` is in the alphabet.
pub open spec fn in_alphabet(text: Seq<char>) -> bool {
    forall|p: int| 0 <= p < text.len() ==> (#[trigger] digit(text[p])) is Some
}

/// The digits that `text` shows, digit 0 first: the text read from its end.
pub open spec fn digits_of(text: Seq<char>) -> Seq<u8> {
    Seq::new(text.len(), |n: int| digit(text[text.len() - 1 - n]).unwrap())
}

/// Bit `k` of a string of digits: bit `k % 5` of digit `k / 5`, and 0 past
/// the end.
pub open spec fn digit_bit(digits: Seq<u8>, k: int) -> int {
    if 0 <= k < 5 * digits.len() {
        bit_of(digits[k / 5], (k % 5) as u8) as int
    } else {
        0
    }
}

/// Byte `i` of a string of digits: the number whose bits are bits
/// `8i .. 8i + 7`.
pub open spec fn octet(digits: Seq<u8>, i: int) -> int {
    digit_bit(digits, 8 * i) + 2 * digit_bit(digits, 8 * i + 1) + 4 * digit_bit(digits, 8 * i + 2)
        + 8 * digit_bit(digits, 8 * i + 3) + 16 * digit_bit(digits, 8 * i + 4) + 32 * digit_bit(
        digits,
        8 * i + 5,
    ) + 64 * digit_bit(digits, 8 * i + 6) + 128 * digit_bit(digits, 8 * i + 7)
}

/// The bytes that `text` stands for: none where a character is not in the
/// alphabet, or where a bit past the last whole byte is set.
pub open spec fn decode_spec(text: Seq<char>) -> Option<Seq<u8>> {
    let size = decoded_len(text.len());
    if !in_alphabet(text) {
        None
    } else if octet(digits_of(text), size as int) != 0 {
        None
    } else {
        Some(Seq::new(size, |i: int| octet(digits_of(text), i) as u8))
    }
}

/// Five bits of a two-byte window, starting at bit `j`, make the number whose
/// bits they are.
proof fn lemma_window(b0: u8, b1: u8, j: u8)
    by (bit_vector)
    requires
        j < 8,
    ensures
        ({
            let w = (b0 as u16) | ((b1 as u16) << 8);
            let c = ((w >> (j as u16)) & 0x1f) as u8;
            &&& c < 32
            &&& c == bit_of(if j < 8 { b0 } else { b1 }, j & 7)
                + 2 * bit_of(if j + 1 < 8 { b0 } else { b1 }, (j + 1) as u8 & 7)
                + 4 * bit_of(if j + 2 < 8 { b0 } else { b1 }, (j + 2) as u8 & 7)
                + 8 * bit_of(if j + 3 < 8 { b0 } else { b1 }, (j + 3) as u8 & 7)
                + 16 * bit_of(if j + 4 < 8 { b0 } else { b1 }, (j + 4) as u8 & 7)
        }),
{
}

/// `x & 7` is `x % 8`.
proof fn lemma_low_three(x: u8)
    by (bit_vector)
    ensures
        x & 7 == x % 8,
{
}

/// Bit `j + t` of the two bytes that start at byte `i`.
proof fn lemma_bit_split(bytes: Seq<u8>, i: int, j: int, t: int)
    requires
        0 <= i < bytes.len(),
        0 <= j < 8,
        0 <= t < 8,
    ensures
        nth_bit(bytes, 8 * i + j + t) == (if j + t < 8 {
            bit_of(bytes[i], (j + t) as u8) as int
        } else if i + 1 < bytes.len() {
            bit_of(bytes[i + 1], (j + t - 8) as u8) as int
        } else {
            0
        }),
{
    let k = 8 * i + j + t;
    if j + t < 8 {
        assert(k / 8 == i && k % 8 == j + t);
    } else {
        assert(k / 8 == i + 1 && k % 8 == j + t - 8);
    }
}

/// One bit of the window that `encode` reads is the bit of the byte string
/// that it stands for.
proof fn lemma_window_bit(bytes: Seq<u8>, i: int, j: int, t: int)
    requires
        0 <= i < bytes.len(),
        0 <= j < 8,
        0 <= t < 5,
    ensures
        ({
            let b0 = bytes[i];
            let b1 = if i + 1 < bytes.len() {
                bytes[i + 1]
            } else {
                0u8
            };
            nth_bit(bytes, 8 * i + j + t) == bit_of(
                if j + t < 8 {
                    b0
                } else {
                    b1
                },
                (j + t) as u8 & 7,
            )
        }),
{
    lemma_bit_split(bytes, i, j, t);
    lemma_low_three((j + t) as u8);
    lemma_zero_bits();
}

/// What `encode` computes for digit `n` is that digit.
proof fn lemma_encode_step(bytes: Seq<u8>, n: int)
    requires
        0 <= n,
        5 * n < 8 * bytes.len(),
    ensures
        ({
            let i = (5 * n) / 8;
            let j = (5 * n) % 8;
            let b0 = bytes[i];
            let b1 = if i + 1 < bytes.len() {
                bytes[i + 1]
            } else {
                0u8
            };
            let w = (b0 as u16) | ((b1 as u16) << 8);
            let c = ((w >> (j as u16)) & 0x1f) as u8;
            c < 32 && c as int == group(bytes, n)
        }),
{
    let i = (5 * n) / 8;
    let j = (5 * n) % 8;
    let b0 = bytes[i];
    let b1 = if i + 1 < bytes.len() {
        bytes[i + 1]
    } else {
        0u8
    };
    lemma_window(b0, b1, j as u8);
    lemma_window_bit(bytes, i, j, 0);
    lemma_window_bit(bytes, i, j, 1);
    lemma_window_bit(bytes, i, j, 2);
    lemma_window_bit(bytes, i, j, 3);
    lemma_window_bit(bytes, i, j, 4);
    assert(8 * i + j == 5 * n);
}

fn symbol_of(d: u8) -> (c: char)
    requires
        d < 32,
    ensures
        c == symbol(d as int),
{
    if d < 10 {
        (48 + d) as char
    } else if d < 14 {
        (97 + d - 10) as char
    } else if d < 23 {
        (102 + d - 14) as char
    } else if d < 27 {
        (112 + d - 23) as char
    } else {
        (118 + d - 27) as char
    }
}

/// Writes `bytes` in base 32.
pub fn encode(bytes: &[u8]) -> (text: String)
    requires
        8 * bytes@.len() + 4 <= usize::MAX,
    ensures
        text@ == encode_spec(bytes@),
{
    let len: usize = (8 * bytes.len() + 4) / 5;
    let mut text = String::new();
    let mut p: usize = 0;
    while p < len
        invariant
            p <= len,
            len == encoded_len(bytes@.len()),
            8 * bytes@.len() + 4 <= usize::MAX,
            text@ == encode_spec(bytes@).take(p as int),
        decreases len - p,
    {
        let n: usize = len - 1 - p;
        let k: usize = 5 * n;
        let i: usize = k / 8;
        let j: usize = k % 8;
        let b0: u8 = bytes[i];
        let b1: u8 = if i + 1 < bytes.len() {
            bytes[i + 1]
        } else {
            0
        };
        let w: u16 = (b0 as u16) | ((b1 as u16) << 8);
        let c: u8 = ((w >> (j as u16)) & 0x1f) as u8;
        proof {
            lemma_encode_step(bytes@, n as int);
        }
        text.push(symbol_of(c));
        p += 1;
    }
    text
}

/// A byte of a three-digit window, starting at bit `r`, is the number whose
/// bits they are.
proof fn lemma_octet_window(d0: u8, d1: u8, d2: u8, r: u8)
    by (bit_vector)
    requires
        d0 < 32,
        d1 < 32,
        d2 < 32,
        r < 5,
    ensures
        ({
            let w = (d0 as u32) | ((d1 as u32) << 5) | ((d2 as u32) << 10);
            let b = ((w >> (r as u32)) & 0xff) as u8;
            b == bit_of(pick(d0, d1, d2, r / 5), r % 5)
                + 2 * bit_of(pick(d0, d1, d2, (r + 1) as u8 / 5), (r + 1) as u8 % 5)
                + 4 * bit_of(pick(d0, d1, d2, (r + 2) as u8 / 5), (r + 2) as u8 % 5)
                + 8 * bit_of(pick(d0, d1, d2, (r + 3) as u8 / 5), (r + 3) as u8 % 5)
                + 16 * bit_of(pick(d0, d1, d2, (r + 4) as u8 / 5), (r + 4) as u8 % 5)
                + 32 * bit_of(pick(d0, d1, d2, (r + 5) as u8 / 5), (r + 5) as u8 % 5)
                + 64 * bit_of(pick(d0, d1, d2, (r + 6) as u8 / 5), (r + 6) as u8 % 5)
                + 128 * bit_of(pick(d0, d1, d2, (r + 7) as u8 / 5), (r + 7) as u8 % 5)
        }),
{
}

/// Digit `idx` of a window of three.
spec fn pick(d0: u8, d1: u8, d2: u8, idx: u8) -> u8 {
    if idx == 0 {
        d0
    } else if idx == 1 {
        d1
    } else {
        d2
    }
}

/// No bit of zero is set.
proof fn lemma_zero_bits()
    ensures
        forall|t: u8| t < 8 ==> #[trigger] bit_of(0u8, t) == 0,
{
    assert forall|t: u8| t < 8 implies #[trigger] bit_of(0u8, t) == 0 by {
        assert(bit_of(0u8, t) == 0) by (bit_vector);
    }
}

/// A bit is 0 or 1.
proof fn lemma_bit_range(x: u8, t: u8)
    by (bit_vector)
    ensures
        bit_of(x, t) <= 1,
{
}

/// A number below 32 made of five bits shows each of them.
proof fn lemma_group_bits(x0: u8, x1: u8, x2: u8, x3: u8, x4: u8)
    by (bit_vector)
    requires
        x0 <= 1,
        x1 <= 1,
        x2 <= 1,
        x3 <= 1,
        x4 <= 1,
    ensures
        ({
            let g = (x0 + 2 * x1 + 4 * x2 + 8 * x3 + 16 * x4) as u8;
            &&& g < 32
            &&& bit_of(g, 0) == x0
            &&& bit_of(g, 1) == x1
            &&& bit_of(g, 2) == x2
            &&& bit_of(g, 3) == x3
            &&& bit_of(g, 4) == x4
        }),
{
}

/// A byte is the number made of its eight bits.
proof fn lemma_byte_bits(x: u8)
    by (bit_vector)
    ensures
        x == bit_of(x, 0) + 2 * bit_of(x, 1) + 4 * bit_of(x, 2) + 8 * bit_of(x, 3) + 16 * bit_of(
            x,
            4,
        ) + 32 * bit_of(x, 5) + 64 * bit_of(x, 6) + 128 * bit_of(x, 7),
{
}

fn digit_of(c: char) -> (d: Option<u8>)
    ensures
        d == digit(c),
        d matches Some(v) ==> v < 32,
{
    let v: u32 = c as u32;
    if 48 <= v && v <= 57 {
        Some((v - 48) as u8)
    } else if 97 <= v && v <= 100 {
        Some((v - 97 + 10) as u8)
    } else if 102 <= v && v <= 110 {
        Some((v - 102 + 14) as u8)
    } else if 112 <= v && v <= 115 {
        Some((v - 112 + 23) as u8)
    } else if 118 <= v && v <= 122 {
        Some((v - 118 + 27) as u8)
    } else {
        None
    }
}

/// Byte `i` of the digits.
fn octet_of(digits: &Vec<u8>, i: usize) -> (b: u8)
    requires
        forall|n: int| 0 <= n < digits@.len() ==> digits@[n] < 32,
        i <= decoded_len(digits@.len()),
    ensures
        b as int == octet(digits@, i as int),
{
    let len = digits.len();
    let q: usize = i / 5;
    let m: usize = i % 5;
    let n0: usize = 8 * q + (8 * m) / 5;
    let r: usize = (8 * m) % 5;
    assert(n0 == (8 * i) / 5 && r == (8 * i) % 5);
    let d0: u8 = if n0 < len {
        digits[n0]
    } else {
        0
    };
    let d1: u8 = if n0 < len && n0 + 1 < len {
        digits[n0 + 1]
    } else {
        0
    };
    let d2: u8 = if n0 < len && n0 + 1 < len && n0 + 2 < len {
        digits[n0 + 2]
    } else {
        0
    };
    let w: u32 = (d0 as u32) | ((d1 as u32) << 5) | ((d2 as u32) << 10);
    let b: u8 = ((w >> (r as u32)) & 0xff) as u8;
    proof {
        lemma_octet_window(d0, d1, d2, r as u8);
        lemma_zero_bits();
        let k = 8 * i as int;
        assert(bit_of(pick(d0, d1, d2, r as u8 / 5), r as u8 % 5) == digit_bit(digits@, k));
        assert(bit_of(pick(d0, d1, d2, (r + 1) as u8 / 5), (r + 1) as u8 % 5) == digit_bit(
            digits@,
            k + 1,
        ));
        assert(bit_of(pick(d0, d1, d2, (r + 2) as u8 / 5), (r + 2) as u8 % 5) == digit_bit(
            digits@,
            k + 2,
        ));
        assert(bit_of(pick(d0, d1, d2, (r + 3) as u8 / 5), (r + 3) as u8 % 5) == digit_bit(
            digits@,
            k + 3,
        ));
        assert(bit_of(pick(d0, d1, d2, (r + 4) as u8 / 5), (r + 4) as u8 % 5) == digit_bit(
            digits@,
            k + 4,
        ));
        assert(bit_of(pick(d0, d1, d2, (r + 5) as u8 / 5), (r + 5) as u8 % 5) == digit_bit(
            digits@,
            k + 5,
        ));
        assert(bit_of(pick(d0, d1, d2, (r + 6) as u8 / 5), (r + 6) as u8 % 5) == digit_bit(
            digits@,
            k + 6,
        ));
        assert(bit_of(pick(d0, d1, d2, (r + 7) as u8 / 5), (r + 7) as u8 % 5) == digit_bit(
            digits@,
            k + 7,
        ));
    }
    b
}

/// Reads base-32 characters back into bytes.
pub fn decode_chars(text: &[char]) -> (r: Result<Vec<u8>, Error>)
    ensures
        decode_spec(text@) matches Some(bytes) ==> r matches Ok(v) && v@ == bytes,
        decode_spec(text@) is None ==> r == Err::<Vec<u8>, Error>(Error::BadBase32),
{
    let len = text.len();
    let mut digits: Vec<u8> = Vec::new();
    let mut n: usize = 0;
    while n < len
        invariant
            n <= len,
            len == text@.len(),
            digits@.len() == n,
            forall|m: int| 0 <= m < n ==> digit(text@[len - 1 - m]) == Some(#[trigger] digits@[m]),
            forall|m: int| 0 <= m < n ==> #[trigger] digits@[m] < 32,
        decreases len - n,
    {
        match digit_of(text[len - 1 - n]) {
            Some(d) => {
                digits.push(d);
            },
            None => {
                assert(digit(text@[len - 1 - n]) is None);
                return Err(Error::BadBase32);
            },
        }
        n += 1;
    }
    assert(in_alphabet(text@)) by {
        assert forall|p: int| 0 <= p < text@.len() implies (#[trigger] digit(text@[p])) is Some by {
            assert(digit(text@[len - 1 - (len - 1 - p)]) == Some(digits@[len - 1 - p]));
        }
    }
    assert(digits@ =~= digits_of(text@));
    let size: usize = len / 8 * 5 + (len % 8) * 5 / 8;
    assert(size == decoded_len(text@.len()));
    let mut bytes: Vec<u8> = Vec::new();
    let mut i: usize = 0;
    while i < size
        invariant
            i <= size,
            size == decoded_len(digits@.len()),
            forall|m: int| 0 <= m < digits@.len() ==> digits@[m] < 32,
            bytes@.len() == i,
            forall|m: int| 0 <= m < i ==> #[trigger] bytes@[m] == octet(digits@, m) as u8,
        decreases size - i,
    {
        let b = octet_of(&digits, i);
        bytes.push(b);
        i += 1;
    }
    if octet_of(&digits, size) != 0 {
        return Err(Error::BadBase32);
    }
    assert(bytes@ =~= Seq::new(size as nat, |i: int| octet(digits_of(text@), i) as u8));
    Ok(bytes)
}

/// Reads a base-32 text back into bytes.
pub fn decode(text: &str) -> (r: Result<Vec<u8>, Error>)
    ensures
        decode_spec(text@) matches Some(bytes) ==> r matches Ok(v) && v@ == bytes,
        decode_spec(text@) is None ==> r == Err::<Vec<u8>, Error>(Error::BadBase32),
{
    let chars = chars_of(text);
    decode_chars(chars.as_slice())
}

/// The digit that a character of the alphabet shows is the digit it was
/// written for.
pub proof fn lemma_digit_symbol(d: int)
    requires
        0 <= d < 32,
    ensures
        digit(symbol(d)) == Some(d as u8),
{
}

/// Every digit of a byte string is below 32.
pub proof fn lemma_group_range(bytes: Seq<u8>, n: int)
    ensures
        0 <= group(bytes, n) < 32,
{
    lemma_nth_bit_range(bytes, 5 * n);
    lemma_nth_bit_range(bytes, 5 * n + 1);
    lemma_nth_bit_range(bytes, 5 * n + 2);
    lemma_nth_bit_range(bytes, 5 * n + 3);
    lemma_nth_bit_range(bytes, 5 * n + 4);
}

proof fn lemma_nth_bit_range(bytes: Seq<u8>, k: int)
    ensures
        0 <= nth_bit(bytes, k) <= 1,
{
    if 0 <= k < 8 * bytes.len() {
        lemma_bit_range(bytes[k / 8], (k % 8) as u8);
    }
}

/// The digits of an encoded text carry the bits of the bytes.
proof fn lemma_digit_bits(bytes: Seq<u8>, k: int)
    requires
        0 <= k,
    ensures
        digit_bit(digits_of(encode_spec(bytes)), k) == nth_bit(bytes, k),
{
    let len = encoded_len(bytes.len()) as int;
    let text = encode_spec(bytes);
    let digits = digits_of(text);
    if k < 5 * len {
        let n = k / 5;
        let t = k % 5;
        lemma_group_range(bytes, n);
        lemma_digit_symbol(group(bytes, n));
        assert(text[len - 1 - n] == symbol(group(bytes, n)));
        assert(digits[n] == group(bytes, n) as u8);
        lemma_nth_bit_range(bytes, 5 * n);
        lemma_nth_bit_range(bytes, 5 * n + 1);
        lemma_nth_bit_range(bytes, 5 * n + 2);
        lemma_nth_bit_range(bytes, 5 * n + 3);
        lemma_nth_bit_range(bytes, 5 * n + 4);
        lemma_group_bits(
            nth_bit(bytes, 5 * n) as u8,
            nth_bit(bytes, 5 * n + 1) as u8,
            nth_bit(bytes, 5 * n + 2) as u8,
            nth_bit(bytes, 5 * n + 3) as u8,
            nth_bit(bytes, 5 * n + 4) as u8,
        );
    }
}

/// Byte `i` of the digits of an encoded text is byte `i` of the bytes, and 0
/// past their end.
proof fn lemma_octet_encode(bytes: Seq<u8>, i: int)
    requires
        0 <= i,
    ensures
        octet(digits_of(encode_spec(bytes)), i) == (if i < bytes.len() {
            bytes[i] as int
        } else {
            0
        }),
{
    let digits = digits_of(encode_spec(bytes));
    lemma_digit_bits(bytes, 8 * i);
    lemma_digit_bits(bytes, 8 * i + 1);
    lemma_digit_bits(bytes, 8 * i + 2);
    lemma_digit_bits(bytes, 8 * i + 3);
    lemma_digit_bits(bytes, 8 * i + 4);
    lemma_digit_bits(bytes, 8 * i + 5);
    lemma_digit_bits(bytes, 8 * i + 6);
    lemma_digit_bits(bytes, 8 * i + 7);
    if i < bytes.len() {
        lemma_byte_bits(bytes[i]);
        lemma_bit_split(bytes, i, 0, 0);
        lemma_bit_split(bytes, i, 0, 1);
        lemma_bit_split(bytes, i, 0, 2);
        lemma_bit_split(bytes, i, 0, 3);
        lemma_bit_split(bytes, i, 0, 4);
        lemma_bit_split(bytes, i, 0, 5);
        lemma_bit_split(bytes, i, 0, 6);
        lemma_bit_split(bytes, i, 0, 7);
    }
}

/// Decoding the text of a byte string gives the bytes back, whatever they
/// are.
pub proof fn lemma_decode_encode(bytes: Seq<u8>)
    ensures
        decode_spec(encode_spec(bytes)) == Some(bytes),
{
    let text = encode_spec(bytes);
    let digits = digits_of(text);
    lemma_encode_alphabet(bytes);
    assert(decoded_len(encoded_len(bytes.len())) == bytes.len());
    lemma_octet_encode(bytes, bytes.len() as int);
    let decoded = Seq::new(bytes.len(), |i: int| octet(digits, i) as u8);
    assert(decoded =~= bytes) by {
        assert forall|i: int| 0 <= i < bytes.len() implies decoded[i] == bytes[i] by {
            lemma_octet_encode(bytes, i);
        }
    }
}

/// No character of an encoded text is outside the alphabet.
pub proof fn lemma_encode_alphabet(bytes: Seq<u8>)
    ensures
        in_alphabet(encode_spec(bytes)),
{
    let len = encoded_len(bytes.len());
    let text = encode_spec(bytes);
    assert forall|p: int| 0 <= p < text.len() implies (#[trigger] digit(text[p])) is Some by {
        lemma_group_range(bytes, len - 1 - p);
        lemma_digit_symbol(group(bytes, len - 1 - p));
    }
}

} // verus!
