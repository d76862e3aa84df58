//! What holds of the codecs taken together: a record that is written out and
//! read again is the same record, and what is signed does not depend on the
//! order in which the references came.

use crate::error::Error;
use crate::nixutils::base32;
use crate::nixutils::hash::{lemma_parse_hash_text, NixHashView};
use crate::nixutils::narinfo::{
    empty_draft, entry, finish, lemma_unlines_concat, optional_compression_text, optional_entry,
    optional_hash_text, optional_size_text, parse, parse_warnings, read_field, read_line,
    read_lines,
    reference_lines, short_names, signature_lines, spaced, store_paths, store_prefix, unlines,
    Compression, Draft, NarInfoView, WarningView,
};
use crate::nixutils::refs::{ascending, inserted, inserted_all, lemma_rank_is};
use crate::keyed::{distinct_keys, key_index, lemma_key_index_is};
use crate::nixutils::sigmap::put;
use crate::nixutils::signature::{lemma_parse_payload_text, payload_text, plain_name, MAX_PAYLOAD};
use crate::outside::{base64_char, base64_encoded, base64_pair};
use crate::text::{
    all_digits, decimal, decimal_value, digit_char, first_index, has_char, has_prefix, join,
    lemma_first_index, lemma_first_index_is, lemma_join_push, line_safe, lines, non_empty,
    parse_u64_spec, split, strip_cr, unsigned_part,
};
use vstd::prelude::*;

verus! {

/// A character is in a text made of two if it is in one of them.
pub proof fn lemma_has_char_concat(a: Seq<char>, b: Seq<char>, c: char)
    ensures
        has_char(a + b, c) <==> has_char(a, c) || has_char(b, c),
{
    let s = a + b;
    if has_char(a, c) {
        let i = choose|i: int| 0 <= i < a.len() && a[i] == c;
        assert(s[i] == c);
    }
    if has_char(b, c) {
        let i = choose|i: int| 0 <= i < b.len() && b[i] == c;
        assert(s[a.len() + i] == c);
    }
    if has_char(s, c) {
        let i = choose|i: int| 0 <= i < s.len() && s[i] == c;
        if i < a.len() {
            assert(a[i] == c);
        } else {
            assert(b[i - a.len()] == c);
        }
    }
}

/// A text without `sep`, then `sep`, then more: the first `sep` is the one
/// between them.
pub proof fn lemma_first_index_after(head: Seq<char>, sep: char, rest: Seq<char>)
    requires
        !has_char(head, sep),
    ensures
        first_index(head + seq![sep] + rest, sep) == head.len(),
        (head + seq![sep] + rest).take(head.len() as int) == head,
        (head + seq![sep] + rest).skip(head.len() as int + 1) == rest,
{
    let s = head + seq![sep] + rest;
    assert forall|j: int| 0 <= j < head.len() implies s[j] != sep by {
        assert(s[j] == head[j]);
    }
    lemma_first_index_is(s, sep, head.len() as int);
    assert(s.take(head.len() as int) =~= head);
    assert(s.skip(head.len() as int + 1) =~= rest);
}

/// Pieces without `sep`, joined by it and split at it, are the pieces again.
pub proof fn lemma_split_join(parts: Seq<Seq<char>>, sep: char)
    requires
        parts.len() > 0,
        forall|i: int| 0 <= i < parts.len() ==> !has_char(#[trigger] parts[i], sep),
    ensures
        split(join(parts, sep), sep) == parts,
    decreases parts.len(),
{
    if parts.len() == 1 {
        lemma_first_index(parts[0], sep);
        assert(join(parts, sep) == parts[0]);
        assert(split(parts[0], sep) =~= parts);
    } else {
        let rest = parts.drop_first();
        assert forall|i: int| 0 <= i < rest.len() implies !has_char(#[trigger] rest[i], sep) by {
            assert(rest[i] == parts[i + 1]);
        }
        lemma_split_join(rest, sep);
        lemma_first_index_after(parts[0], sep, join(rest, sep));
        assert(split(join(parts, sep), sep) =~= parts);
    }
}

/// Pieces of which none is empty are all kept.
pub proof fn lemma_non_empty_all(parts: Seq<Seq<char>>)
    requires
        forall|i: int| 0 <= i < parts.len() ==> (#[trigger] parts[i]).len() > 0,
    ensures
        non_empty(parts) == parts,
    decreases parts.len(),
{
    if parts.len() > 0 {
        let rest = parts.drop_first();
        assert forall|i: int| 0 <= i < rest.len() implies (#[trigger] rest[i]).len() > 0 by {
            assert(rest[i] == parts[i + 1]);
        }
        lemma_non_empty_all(rest);
        assert(parts[0].len() > 0);
        assert(seq![parts[0]] + rest =~= parts);
    } else {
        assert(non_empty(parts) =~= parts);
    }
}

/// The text of lines, the first line apart.
pub proof fn lemma_unlines_front(ls: Seq<Seq<char>>)
    requires
        ls.len() > 0,
    ensures
        unlines(ls) == ls[0] + seq!['\n'] + unlines(ls.drop_first()),
{
    lemma_unlines_concat(seq![ls[0]], ls.drop_first());
    assert(seq![ls[0]] + ls.drop_first() =~= ls);
    assert(seq![ls[0]].drop_last() =~= Seq::<Seq<char>>::empty());
    assert(unlines(seq![ls[0]]) =~= ls[0] + seq!['\n']) by {
        assert(unlines(Seq::<Seq<char>>::empty()) =~= Seq::<char>::empty());
    }
}

/// Lines that can stand in a text are read back from it as they are.
pub proof fn lemma_lines_unlines(ls: Seq<Seq<char>>)
    requires
        forall|i: int| 0 <= i < ls.len() ==> line_safe(#[trigger] ls[i]),
    ensures
        lines(unlines(ls)) == ls,
    decreases ls.len(),
{
    if ls.len() == 0 {
        assert(lines(unlines(ls)) =~= ls);
    } else {
        let rest = ls.drop_first();
        assert forall|i: int| 0 <= i < rest.len() implies line_safe(#[trigger] rest[i]) by {
            assert(rest[i] == ls[i + 1]);
        }
        lemma_lines_unlines(rest);
        lemma_unlines_front(ls);
        assert(line_safe(ls[0]));
        lemma_first_index_after(ls[0], '\n', unlines(rest));
        assert(strip_cr(ls[0]) == ls[0]);
        assert(lines(unlines(ls)) =~= ls);
    }
}

/// A short text holds no `c` if none of its characters is `c`.
proof fn lemma_short_without(s: Seq<char>, c: char)
    requires
        s.len() <= 11,
        s.len() > 0 ==> s[0] != c,
        s.len() > 1 ==> s[1] != c,
        s.len() > 2 ==> s[2] != c,
        s.len() > 3 ==> s[3] != c,
        s.len() > 4 ==> s[4] != c,
        s.len() > 5 ==> s[5] != c,
        s.len() > 6 ==> s[6] != c,
        s.len() > 7 ==> s[7] != c,
        s.len() > 8 ==> s[8] != c,
        s.len() > 9 ==> s[9] != c,
        s.len() > 10 ==> s[10] != c,
    ensures
        !has_char(s, c),
{
    if has_char(s, c) {
        let i = choose|i: int| 0 <= i < s.len() && s[i] == c;
        if i == 0 {
        } else if i == 1 {
        } else if i == 2 {
        } else if i == 3 {
        } else if i == 4 {
        } else if i == 5 {
        } else if i == 6 {
        } else if i == 7 {
        } else if i == 8 {
        } else if i == 9 {
        } else if i == 10 {
        }
    }
}

/// The place of a key among the keys of a record, in the order in which a
/// line is held against them.
pub open spec fn key_rank(key: Seq<char>) -> int {
    if key == "StorePath"@ {
        0
    } else if key == "NarHash"@ {
        1
    } else if key == "NarSize"@ {
        2
    } else if key == "FileHash"@ {
        3
    } else if key == "FileSize"@ {
        4
    } else if key == "URL"@ {
        5
    } else if key == "Compression"@ {
        6
    } else if key == "Deriver"@ {
        7
    } else if key == "References"@ {
        8
    } else if key == "Sig"@ {
        9
    } else if key == "CA"@ {
        10
    } else {
        11
    }
}

/// Whether a key can start a line: it holds no colon and no line feed.
pub open spec fn plain_key(key: Seq<char>) -> bool {
    !has_char(key, ':') && !has_char(key, '\n')
}

/// The keys of a record differ from each other, and each can start a line.
pub proof fn lemma_keys()
    ensures
        key_rank("StorePath"@) == 0 && plain_key("StorePath"@),
        key_rank("NarHash"@) == 1 && plain_key("NarHash"@),
        key_rank("NarSize"@) == 2 && plain_key("NarSize"@),
        key_rank("FileHash"@) == 3 && plain_key("FileHash"@),
        key_rank("FileSize"@) == 4 && plain_key("FileSize"@),
        key_rank("URL"@) == 5 && plain_key("URL"@),
        key_rank("Compression"@) == 6 && plain_key("Compression"@),
        key_rank("Deriver"@) == 7 && plain_key("Deriver"@),
        key_rank("References"@) == 8 && plain_key("References"@),
        key_rank("Sig"@) == 9 && plain_key("Sig"@),
        key_rank("CA"@) == 10 && plain_key("CA"@),
{
    reveal_strlit("StorePath");
    reveal_strlit("NarHash");
    reveal_strlit("NarSize");
    reveal_strlit("FileHash");
    reveal_strlit("FileSize");
    reveal_strlit("URL");
    reveal_strlit("Compression");
    reveal_strlit("Deriver");
    reveal_strlit("References");
    reveal_strlit("Sig");
    reveal_strlit("CA");
    assert("NarHash"@[3] != "NarSize"@[3]);
    assert("NarHash"@[0] != "Deriver"@[0]);
    assert("NarSize"@[0] != "Deriver"@[0]);
    assert("FileHash"@[4] != "FileSize"@[4]);
    assert("URL"@[0] != "Sig"@[0]);
    lemma_short_without("StorePath"@, ':');
    lemma_short_without("NarHash"@, ':');
    lemma_short_without("NarSize"@, ':');
    lemma_short_without("FileHash"@, ':');
    lemma_short_without("FileSize"@, ':');
    lemma_short_without("URL"@, ':');
    lemma_short_without("Compression"@, ':');
    lemma_short_without("Deriver"@, ':');
    lemma_short_without("References"@, ':');
    lemma_short_without("Sig"@, ':');
    lemma_short_without("CA"@, ':');
    lemma_short_without("StorePath"@, '\n');
    lemma_short_without("NarHash"@, '\n');
    lemma_short_without("NarSize"@, '\n');
    lemma_short_without("FileHash"@, '\n');
    lemma_short_without("FileSize"@, '\n');
    lemma_short_without("URL"@, '\n');
    lemma_short_without("Compression"@, '\n');
    lemma_short_without("Deriver"@, '\n');
    lemma_short_without("References"@, '\n');
    lemma_short_without("Sig"@, '\n');
    lemma_short_without("CA"@, '\n');
}

/// Whether every line can stand in a text.
pub open spec fn all_safe(ls: Seq<Seq<char>>) -> bool {
    forall|i: int| 0 <= i < ls.len() ==> line_safe(#[trigger] ls[i])
}

/// Lines that can stand in a text, after others that can, still all can.
proof fn lemma_all_safe_concat(a: Seq<Seq<char>>, b: Seq<Seq<char>>)
    requires
        all_safe(a),
        all_safe(b),
    ensures
        all_safe(a + b),
{
    assert forall|i: int| 0 <= i < (a + b).len() implies line_safe(#[trigger] (a + b)[i]) by {
        if i < a.len() {
            assert((a + b)[i] == a[i]);
        } else {
            assert((a + b)[i] == b[i - a.len()]);
        }
    }
}

/// The line of a plain key and a value that can end a line can stand in a
/// text.
proof fn lemma_entry_safe(key: Seq<char>, value: Seq<char>)
    requires
        plain_key(key),
        line_safe(value),
    ensures
        line_safe(entry(key, value)),
{
    let sep = seq![':', ' '];
    lemma_has_char_concat(key, sep, '\n');
    lemma_has_char_concat(key + sep, value, '\n');
    if has_char(sep, '\n') {
        let i = choose|i: int| 0 <= i < sep.len() && sep[i] == '\n';
    }
    let line = entry(key, value);
    if value.len() > 0 {
        assert(line.last() == value.last());
    } else {
        assert(line.last() == ' ');
    }
}

/// The line of a field that may be absent can stand in a text.
proof fn lemma_optional_safe(key: Seq<char>, value: Option<Seq<char>>)
    requires
        plain_key(key),
        value matches Some(v) ==> line_safe(v),
    ensures
        all_safe(optional_entry(key, value)),
{
    if let Some(v) = value {
        lemma_entry_safe(key, v);
    }
}

/// A number in decimal is made of digits, at least one.
pub proof fn lemma_decimal_digits(n: nat)
    ensures
        decimal(n).len() > 0,
        all_digits(decimal(n)),
        decimal_value(decimal(n)) == n,
    decreases n,
{
    if n >= 10 {
        lemma_decimal_digits(n / 10);
        let s = decimal(n);
        assert(s.drop_last() =~= decimal(n / 10));
        assert(s.last() == digit_char(n % 10));
        assert forall|i: int| 0 <= i < s.len() implies '0' <= #[trigger] s[i] <= '9' by {
            if i < s.len() - 1 {
                assert(s[i] == decimal(n / 10)[i]);
            }
        }
    } else {
        let s = decimal(n);
        assert(s.drop_last() =~= Seq::<char>::empty());
        assert(decimal_value(s.drop_last()) == 0);
    }
}

/// A number written in decimal is read back as that number, and can end a
/// line.
pub proof fn lemma_parse_decimal(n: u64)
    ensures
        parse_u64_spec(decimal(n as nat)) == Some(n),
        line_safe(decimal(n as nat)),
{
    let s = decimal(n as nat);
    lemma_decimal_digits(n as nat);
    assert('0' <= s[0] <= '9');
    assert(unsigned_part(s) == s);
    assert('0' <= s[s.len() - 1] <= '9');
    if has_char(s, '\n') {
        let i = choose|i: int| 0 <= i < s.len() && s[i] == '\n';
        assert('0' <= s[i] <= '9');
    }
}

/// The text of a well-formed hash can end a line.
pub proof fn lemma_hash_text_safe(h: NixHashView)
    requires
        h.well_formed(),
    ensures
        line_safe(h.text()),
{
    reveal_strlit("md5");
    reveal_strlit("sha1");
    reveal_strlit("sha256");
    reveal_strlit("sha512");
    let name = h.hash_type.name();
    let digits = base32::encode_spec(h.digest);
    lemma_short_without(name, '\n');
    base32::lemma_encode_alphabet(h.digest);
    if has_char(digits, '\n') {
        let i = choose|i: int| 0 <= i < digits.len() && digits[i] == '\n';
        assert(base32::digit(digits[i]) is Some);
    }
    if has_char(seq![':'], '\n') {
        let i = choose|i: int| 0 <= i < seq![':'].len() && seq![':'][i] == '\n';
    }
    lemma_has_char_concat(name, seq![':'], '\n');
    lemma_has_char_concat(name + seq![':'], digits, '\n');
    assert(digits.len() > 0);
    assert(h.text().last() == digits[digits.len() - 1]);
    assert(base32::digit(digits[digits.len() - 1]) is Some);
}

/// Every compression is named by its own name, which can end a line.
pub proof fn lemma_compression_name(c: Compression)
    ensures
        Compression::named(c.name()) == Some(c),
        line_safe(c.name()),
{
    reveal_strlit("xz");
    reveal_strlit("bzip2");
    reveal_strlit("gzip");
    reveal_strlit("zstd");
    reveal_strlit("none");
    assert("gzip"@[0] != "zstd"@[0]);
    assert("gzip"@[0] != "none"@[0]);
    assert("zstd"@[0] != "none"@[0]);
    lemma_short_without(c.name(), '\n');
}

/// Reading lines after lines is reading the first, and then the others from
/// where that ended.
pub proof fn lemma_read_lines_concat(d: Draft, a: Seq<Seq<char>>, b: Seq<Seq<char>>)
    ensures
        read_lines(d, a + b) == match read_lines(d, a) {
            Ok(next) => read_lines(next, b),
            Err(e) => Err(e),
        },
    decreases a.len(),
{
    if a.len() == 0 {
        assert(a + b =~= b);
    } else {
        assert((a + b)[0] == a[0]);
        assert((a + b).drop_first() =~= a.drop_first() + b);
        if let Ok(next) = read_line(d, a[0]) {
            lemma_read_lines_concat(next, a.drop_first(), b);
        }
    }
}

/// Reading one line.
proof fn lemma_read_one(d: Draft, line: Seq<char>)
    ensures
        read_lines(d, seq![line]) == read_line(d, line),
{
    assert(seq![line].drop_first() =~= Seq::<Seq<char>>::empty());
    if let Ok(next) = read_line(d, line) {
        assert(read_lines(next, Seq::<Seq<char>>::empty()) == Ok::<Draft, Error>(next));
    }
}

/// The line of a key without a colon is read as the field of that key.
pub proof fn lemma_read_entry(d: Draft, key: Seq<char>, value: Seq<char>)
    requires
        !has_char(key, ':'),
    ensures
        read_line(d, entry(key, value)) == read_field(d, key, value),
{
    let line = entry(key, value);
    lemma_first_index_after(key, ':', seq![' '] + value);
    assert(line =~= key + seq![':'] + (seq![' '] + value));
    let colon = key.len() as int;
    assert(line.skip(colon).take(2) =~= seq![':', ' ']);
    assert(line.take(colon) =~= key);
    assert(line.skip(colon + 2) =~= value);
}

/// The line of a field that may be absent is read as that field, or not at
/// all.
proof fn lemma_read_optional(d: Draft, key: Seq<char>, value: Option<Seq<char>>)
    requires
        !has_char(key, ':'),
    ensures
        read_lines(d, optional_entry(key, value)) == match value {
            Some(v) => read_field(d, key, v),
            None => Ok(d),
        },
{
    if let Some(v) = value {
        lemma_read_one(d, entry(key, v));
        lemma_read_entry(d, key, v);
    }
}

/// What a record shows of a reference: the path without the root of the
/// store.
pub open spec fn short_name(reference: Seq<char>) -> Seq<char> {
    reference.skip(store_prefix().len() as int)
}

/// Whether a reference can be read back from a record: it is under the root
/// of the store, and what follows the root is not empty and holds no space
/// and no line feed.
pub open spec fn legible_reference(reference: Seq<char>) -> bool {
    &&& has_prefix(reference, store_prefix())
    &&& short_name(reference).len() > 0
    &&& !has_char(short_name(reference), ' ')
    &&& !has_char(short_name(reference), '\n')
}

/// Whether a signature can be read back from a record: its key name is not
/// empty and holds no colon and no line feed, and its text is short enough
/// for the decoder.
pub open spec fn legible_signature(signature: (Seq<char>, Seq<u8>)) -> bool {
    &&& plain_name(signature.0)
    &&& !has_char(signature.0, '\n')
    &&& (signature.1.len() + 2) / 3 * 4 <= MAX_PAYLOAD
}

/// Whether a text that may be absent can end a line.
pub open spec fn optional_safe(value: Option<Seq<char>>) -> bool {
    value matches Some(v) ==> line_safe(v)
}

/// Whether the encoder's text for each signature is what it is trusted to
/// be.
pub open spec fn trusted_payloads(signatures: Seq<(Seq<char>, Seq<u8>)>) -> bool {
    forall|i: int|
        0 <= i < signatures.len() ==> base64_pair(
            (#[trigger] signatures[i]).1,
            base64_encoded(signatures[i].1),
        )
}

/// What every record holds to: its hashes have the lengths of their
/// algorithms, its references are in order, and no key name signs twice.
pub open spec fn well_formed(m: NarInfoView) -> bool {
    &&& m.nar_hash.well_formed()
    &&& m.file_hash matches Some(h) ==> h.well_formed()
    &&& ascending(m.references)
    &&& distinct_keys(m.signatures)
}

/// Whether a record can be read back from its text: none of its texts breaks
/// a line, and its references and signatures are legible. Of the references
/// only the last stands at the end of a line.
pub open spec fn legible(m: NarInfoView) -> bool {
    &&& line_safe(m.path)
    &&& optional_safe(m.url)
    &&& optional_safe(m.deriver)
    &&& optional_safe(m.ca)
    &&& forall|i: int|
        0 <= i < m.references.len() ==> legible_reference(#[trigger] m.references[i])
    &&& m.references.len() > 0 ==> line_safe(short_name(m.references.last()))
    &&& forall|i: int|
        0 <= i < m.signatures.len() ==> legible_signature(#[trigger] m.signatures[i])
}

/// The references of a record as it shows them.
pub open spec fn all_short_names(references: Seq<Seq<char>>) -> Seq<Seq<char>> {
    Seq::new(references.len(), |i: int| short_name(references[i]))
}

/// Names with a space before each are a space and the names joined by
/// spaces.
proof fn lemma_spaced(names: Seq<Seq<char>>)
    requires
        names.len() > 0,
    ensures
        spaced(names) == seq![' '] + join(names, ' '),
    decreases names.len(),
{
    let front = names.drop_last();
    let last = names.last();
    assert(names =~= front.push(last));
    lemma_join_push(front, last, ' ');
    if front.len() == 0 {
        assert(spaced(front) =~= Seq::<char>::empty());
        assert(spaced(names) =~= seq![' '] + join(names, ' '));
    } else {
        lemma_spaced(front);
        assert(spaced(names) =~= seq![' '] + join(names, ' '));
    }
}

/// Of references that are all under the root of the store, a record shows
/// every one.
proof fn lemma_short_names(references: Seq<Seq<char>>)
    requires
        forall|i: int|
            0 <= i < references.len() ==> has_prefix(#[trigger] references[i], store_prefix()),
    ensures
        short_names(references) == all_short_names(references),
    decreases references.len(),
{
    if references.len() == 0 {
        assert(short_names(references) =~= all_short_names(references));
    } else {
        let front = references.drop_last();
        assert forall|i: int| 0 <= i < front.len() implies has_prefix(
            #[trigger] front[i],
            store_prefix(),
        ) by {
            assert(front[i] == references[i]);
        }
        lemma_short_names(front);
        assert(has_prefix(references[references.len() - 1], store_prefix()));
        assert(short_names(references) =~= all_short_names(references));
    }
}

/// The root of the store before what a record shows of a reference is the
/// reference.
proof fn lemma_store_paths(references: Seq<Seq<char>>)
    requires
        forall|i: int|
            0 <= i < references.len() ==> has_prefix(#[trigger] references[i], store_prefix()),
    ensures
        store_paths(all_short_names(references)) == references,
{
    let paths = store_paths(all_short_names(references));
    assert forall|i: int| 0 <= i < references.len() implies paths[i] == references[i] by {
        let r = references[i];
        assert(has_prefix(r, store_prefix()));
        assert(r.take(store_prefix().len() as int) + r.skip(store_prefix().len() as int) =~= r);
    }
    assert(paths =~= references);
}

/// Texts that come in ascending order after a set go to its end, one after
/// the other.
pub proof fn lemma_inserted_all_ascending(s: Seq<Seq<char>>, xs: Seq<Seq<char>>)
    requires
        ascending(s + xs),
    ensures
        inserted_all(s, xs) == s + xs,
    decreases xs.len(),
{
    if xs.len() == 0 {
        assert(s + xs =~= s);
    } else {
        let x = xs[0];
        let all = s + xs;
        assert(all[s.len() as int] == x);
        assert forall|j: int| 0 <= j < s.len() implies crate::text::text_lt(#[trigger] s[j], x) by {
            assert(all[j] == s[j]);
        }
        lemma_rank_is(s, x, s.len() as int);
        assert(inserted(s, x) =~= s.push(x));
        assert(s.push(x) + xs.drop_first() =~= all);
        lemma_inserted_all_ascending(s.push(x), xs.drop_first());
    }
}

/// Texts without `c`, joined by another character, make a text without `c`.
proof fn lemma_join_without(names: Seq<Seq<char>>, sep: char, c: char)
    requires
        sep != c,
        forall|i: int| 0 <= i < names.len() ==> !has_char(#[trigger] names[i], c),
    ensures
        !has_char(join(names, sep), c),
    decreases names.len(),
{
    if names.len() == 0 {
    } else if names.len() == 1 {
        assert(!has_char(names[0], c));
    } else {
        let rest = names.drop_first();
        assert forall|i: int| 0 <= i < rest.len() implies !has_char(#[trigger] rest[i], c) by {
            assert(rest[i] == names[i + 1]);
        }
        lemma_join_without(rest, sep, c);
        assert(!has_char(names[0], c));
        lemma_has_char_concat(names[0], seq![sep], c);
        lemma_has_char_concat(names[0] + seq![sep], join(rest, sep), c);
        if has_char(seq![sep], c) {
            let i = choose|i: int| 0 <= i < seq![sep].len() && seq![sep][i] == c;
        }
    }
}

/// Names without a line feed, the last of which can end a line, make a line
/// when joined by spaces.
proof fn lemma_join_safe(names: Seq<Seq<char>>)
    requires
        names.len() > 0,
        forall|i: int| 0 <= i < names.len() ==> !has_char(#[trigger] names[i], '\n'),
        line_safe(names.last()),
    ensures
        line_safe(join(names, ' ')),
{
    lemma_join_without(names, ' ', '\n');
    let front = names.drop_last();
    let last = names.last();
    assert(names =~= front.push(last));
    lemma_join_push(front, last, ' ');
    if front.len() > 0 {
        let all = join(front, ' ') + seq![' '] + last;
        if last.len() > 0 {
            assert(all.last() == last.last());
        } else {
            assert(all.last() == ' ');
        }
    }
}

/// The line of legible references is the line of the key `References` and
/// what the record shows of them, joined by spaces.
proof fn lemma_reference_line(references: Seq<Seq<char>>)
    requires
        references.len() > 0,
        forall|i: int| 0 <= i < references.len() ==> legible_reference(#[trigger] references[i]),
    ensures
        reference_lines(references) == seq![
            entry("References"@, join(all_short_names(references), ' ')),
        ],
{
    let names = all_short_names(references);
    assert forall|i: int| 0 <= i < references.len() implies has_prefix(
        #[trigger] references[i],
        store_prefix(),
    ) by {
        assert(legible_reference(references[i]));
    }
    lemma_short_names(references);
    lemma_spaced(names);
    reveal_strlit("References:");
    reveal_strlit("References");
    assert("References:"@ =~= "References"@ + seq![':']);
    assert("References:"@ + (seq![' '] + join(names, ' ')) =~= entry(
        "References"@,
        join(names, ' '),
    ));
}

/// The line of legible references can stand in a text.
proof fn lemma_references_safe(references: Seq<Seq<char>>)
    requires
        forall|i: int| 0 <= i < references.len() ==> legible_reference(#[trigger] references[i]),
        references.len() > 0 ==> line_safe(short_name(references.last())),
    ensures
        all_safe(reference_lines(references)),
{
    if references.len() > 0 {
        let names = all_short_names(references);
        lemma_reference_line(references);
        assert forall|i: int| 0 <= i < names.len() implies !has_char(
            #[trigger] names[i],
            '\n',
        ) by {
            assert(legible_reference(references[i]));
        }
        assert(names.last() == short_name(references.last()));
        lemma_join_safe(names);
        lemma_keys();
        lemma_entry_safe("References"@, join(names, ' '));
    }
}

/// Reading the line of legible references in order, into a draft without
/// references, gives the draft these references.
proof fn lemma_read_references(d: Draft, references: Seq<Seq<char>>)
    requires
        d.references == Seq::<Seq<char>>::empty(),
        ascending(references),
        forall|i: int| 0 <= i < references.len() ==> legible_reference(#[trigger] references[i]),
    ensures
        read_lines(d, reference_lines(references)) == Ok::<Draft, Error>(
            Draft { references, ..d },
        ),
{
    if references.len() == 0 {
        assert(references =~= Seq::<Seq<char>>::empty());
    } else {
        let names = all_short_names(references);
        let value = join(names, ' ');
        lemma_reference_line(references);
        lemma_keys();
        lemma_read_one(d, entry("References"@, value));
        lemma_read_entry(d, "References"@, value);
        assert forall|i: int| 0 <= i < names.len() implies !has_char(#[trigger] names[i], ' ') by {
            assert(legible_reference(references[i]));
        }
        lemma_split_join(names, ' ');
        assert forall|i: int| 0 <= i < names.len() implies (#[trigger] names[i]).len() > 0 by {
            assert(legible_reference(references[i]));
        }
        lemma_non_empty_all(names);
        assert forall|i: int| 0 <= i < references.len() implies has_prefix(
            #[trigger] references[i],
            store_prefix(),
        ) by {
            assert(legible_reference(references[i]));
        }
        lemma_store_paths(references);
        assert(Seq::<Seq<char>>::empty() + references =~= references);
        lemma_inserted_all_ascending(Seq::empty(), references);
    }
}

/// The line of a legible signature can stand in a text.
proof fn lemma_signature_safe(signature: (Seq<char>, Seq<u8>))
    requires
        legible_signature(signature),
        base64_pair(signature.1, base64_encoded(signature.1)),
    ensures
        line_safe(entry("Sig"@, payload_text(signature.0, signature.1))),
{
    let name = signature.0;
    let text = base64_encoded(signature.1);
    let value = payload_text(name, signature.1);
    if has_char(text, '\n') {
        let i = choose|i: int| 0 <= i < text.len() && text[i] == '\n';
        assert(base64_char(text[i]));
    }
    if has_char(seq![':'], '\n') {
        let i = choose|i: int| 0 <= i < seq![':'].len() && seq![':'][i] == '\n';
    }
    lemma_has_char_concat(name, seq![':'], '\n');
    lemma_has_char_concat(name + seq![':'], text, '\n');
    if text.len() > 0 {
        assert(value.last() == text[text.len() - 1]);
        assert(base64_char(text[text.len() - 1]));
    } else {
        assert(value.last() == ':');
    }
    lemma_keys();
    lemma_entry_safe("Sig"@, value);
}

/// The lines of legible signatures can stand in a text.
proof fn lemma_signatures_safe(signatures: Seq<(Seq<char>, Seq<u8>)>)
    requires
        forall|i: int| 0 <= i < signatures.len() ==> legible_signature(#[trigger] signatures[i]),
        trusted_payloads(signatures),
    ensures
        all_safe(signature_lines(signatures)),
{
    let ls = signature_lines(signatures);
    assert forall|i: int| 0 <= i < ls.len() implies line_safe(#[trigger] ls[i]) by {
        assert(legible_signature(signatures[i]));
        assert(base64_pair(signatures[i].1, base64_encoded(signatures[i].1)));
        lemma_signature_safe(signatures[i]);
    }
}

/// Reading the lines of legible signatures under distinct key names, into a
/// draft without signatures, gives the draft these signatures in their
/// order.
proof fn lemma_read_signatures(d: Draft, signatures: Seq<(Seq<char>, Seq<u8>)>)
    requires
        d.signatures == Seq::<(Seq<char>, Seq<u8>)>::empty(),
        distinct_keys(signatures),
        forall|i: int| 0 <= i < signatures.len() ==> legible_signature(#[trigger] signatures[i]),
        trusted_payloads(signatures),
    ensures
        read_lines(d, signature_lines(signatures)) == Ok::<Draft, Error>(
            Draft { signatures, ..d },
        ),
    decreases signatures.len(),
{
    if signatures.len() == 0 {
        assert(signatures =~= Seq::<(Seq<char>, Seq<u8>)>::empty());
        assert(signature_lines(signatures) =~= Seq::<Seq<char>>::empty());
    } else {
        let front = signatures.drop_last();
        let last = signatures.last();
        assert forall|i: int| 0 <= i < front.len() implies legible_signature(
            #[trigger] front[i],
        ) by {
            assert(front[i] == signatures[i]);
        }
        assert(trusted_payloads(front)) by {
            assert forall|i: int| 0 <= i < front.len() implies base64_pair(
                (#[trigger] front[i]).1,
                base64_encoded(front[i].1),
            ) by {
                assert(front[i] == signatures[i]);
            }
        }
        assert(distinct_keys(front)) by {
            assert forall|i: int, j: int| 0 <= i < j < front.len() implies (#[trigger] front[i]).0
                != (#[trigger] front[j]).0 by {
                assert(front[i] == signatures[i] && front[j] == signatures[j]);
            }
        }
        lemma_read_signatures(d, front);
        let line = entry("Sig"@, payload_text(last.0, last.1));
        assert(signature_lines(signatures) =~= signature_lines(front) + seq![line]);
        lemma_read_lines_concat(d, signature_lines(front), seq![line]);
        let mid = Draft { signatures: front, ..d };
        lemma_keys();
        lemma_read_one(mid, line);
        lemma_read_entry(mid, "Sig"@, payload_text(last.0, last.1));
        assert(legible_signature(last));
        assert(base64_pair(last.1, base64_encoded(last.1)));
        lemma_parse_payload_text(last.0, last.1);
        assert(key_index(front, last.0) == front.len()) by {
            assert forall|j: int| 0 <= j < front.len() implies (#[trigger] front[j]).0
                != last.0 by {
                assert(front[j] == signatures[j]);
                assert(signatures[signatures.len() - 1] == last);
            }
            lemma_key_index_is(front, last.0, front.len() as int);
        }
        assert(put(front, last.0, last.1) =~= signatures);
    }
}

/// The draft of a record of which the first `k` fields have been read, in
/// the order of its lines; the three that every record has are among them.
pub open spec fn draft_upto(m: NarInfoView, k: int) -> Draft {
    Draft {
        warnings: Seq::empty(),
        path: Some(m.path),
        nar_hash: Some(m.nar_hash),
        nar_size: Some(m.nar_size),
        file_hash: if k >= 4 {
            m.file_hash
        } else {
            None
        },
        file_size: if k >= 5 {
            m.file_size
        } else {
            None
        },
        url: if k >= 6 {
            m.url
        } else {
            None
        },
        compression: if k >= 7 {
            m.compression
        } else {
            None
        },
        deriver: if k >= 8 {
            m.deriver
        } else {
            None
        },
        references: if k >= 9 {
            m.references
        } else {
            Seq::empty()
        },
        signatures: if k >= 10 {
            m.signatures
        } else {
            Seq::empty()
        },
        ca: if k >= 11 {
            m.ca
        } else {
            None
        },
    }
}

/// The three lines that every record has.
pub open spec fn required_lines(m: NarInfoView) -> Seq<Seq<char>> {
    seq![
        entry("StorePath"@, m.path),
        entry("NarHash"@, m.nar_hash.text()),
        entry("NarSize"@, decimal(m.nar_size as nat)),
    ]
}

/// Reading the line of the store path.
proof fn lemma_read_store_path(d: Draft, path: Seq<char>)
    ensures
        read_lines(d, seq![entry("StorePath"@, path)]) == Ok::<Draft, Error>(
            Draft { path: Some(path), ..d },
        ),
{
    lemma_keys();
    lemma_read_one(d, entry("StorePath"@, path));
    lemma_read_entry(d, "StorePath"@, path);
}

/// Reading the line of the hash of the artifact.
proof fn lemma_read_nar_hash(d: Draft, hash: NixHashView)
    requires
        hash.well_formed(),
    ensures
        read_lines(d, seq![entry("NarHash"@, hash.text())]) == Ok::<Draft, Error>(
            Draft { nar_hash: Some(hash), ..d },
        ),
{
    lemma_keys();
    lemma_read_one(d, entry("NarHash"@, hash.text()));
    lemma_read_entry(d, "NarHash"@, hash.text());
    lemma_parse_hash_text(hash);
}

/// Reading the line of the size of the artifact.
proof fn lemma_read_nar_size(d: Draft, size: u64)
    ensures
        read_lines(d, seq![entry("NarSize"@, decimal(size as nat))]) == Ok::<Draft, Error>(
            Draft { nar_size: Some(size), ..d },
        ),
{
    lemma_keys();
    lemma_read_one(d, entry("NarSize"@, decimal(size as nat)));
    lemma_read_entry(d, "NarSize"@, decimal(size as nat));
    lemma_parse_decimal(size);
}

/// Reading the three lines that every record has.
proof fn lemma_read_required(m: NarInfoView)
    requires
        m.nar_hash.well_formed(),
    ensures
        read_lines(empty_draft(), required_lines(m)) == Ok::<Draft, Error>(draft_upto(m, 3)),
{
    let e1 = entry("StorePath"@, m.path);
    let e2 = entry("NarHash"@, m.nar_hash.text());
    let e3 = entry("NarSize"@, decimal(m.nar_size as nat));
    let d0 = empty_draft();
    let d1 = Draft { path: Some(m.path), ..d0 };
    let d2 = Draft { nar_hash: Some(m.nar_hash), ..d1 };
    let d3 = Draft { nar_size: Some(m.nar_size), ..d2 };
    lemma_read_store_path(d0, m.path);
    lemma_read_nar_hash(d1, m.nar_hash);
    lemma_read_nar_size(d2, m.nar_size);
    lemma_read_lines_concat(d0, seq![e1], seq![e2]);
    lemma_read_lines_concat(d0, seq![e1] + seq![e2], seq![e3]);
    assert(seq![e1] + seq![e2] + seq![e3] =~= required_lines(m));
    assert(d3 == draft_upto(m, 3));
}

/// Reading the lines of the hash and the size of the stored object.
proof fn lemma_read_file_fields(m: NarInfoView)
    requires
        m.file_hash matches Some(h) ==> h.well_formed(),
    ensures
        read_lines(
            draft_upto(m, 3),
            optional_entry("FileHash"@, optional_hash_text(m.file_hash)),
        ) == Ok::<Draft, Error>(draft_upto(m, 4)),
        read_lines(
            draft_upto(m, 4),
            optional_entry("FileSize"@, optional_size_text(m.file_size)),
        ) == Ok::<Draft, Error>(draft_upto(m, 5)),
{
    lemma_keys();
    lemma_read_optional(draft_upto(m, 3), "FileHash"@, optional_hash_text(m.file_hash));
    if let Some(h) = m.file_hash {
        lemma_parse_hash_text(h);
    }
    lemma_read_optional(draft_upto(m, 4), "FileSize"@, optional_size_text(m.file_size));
    if let Some(n) = m.file_size {
        lemma_parse_decimal(n);
    }
}

/// Reading the lines of the address, the compression and the deriver.
proof fn lemma_read_plain_fields(m: NarInfoView)
    ensures
        read_lines(draft_upto(m, 5), optional_entry("URL"@, m.url)) == Ok::<Draft, Error>(
            draft_upto(m, 6),
        ),
        read_lines(
            draft_upto(m, 6),
            optional_entry("Compression"@, optional_compression_text(m.compression)),
        ) == Ok::<Draft, Error>(draft_upto(m, 7)),
        read_lines(draft_upto(m, 7), optional_entry("Deriver"@, m.deriver)) == Ok::<Draft, Error>(
            draft_upto(m, 8),
        ),
{
    lemma_keys();
    lemma_read_optional(draft_upto(m, 5), "URL"@, m.url);
    lemma_read_optional(
        draft_upto(m, 6),
        "Compression"@,
        optional_compression_text(m.compression),
    );
    if let Some(c) = m.compression {
        lemma_compression_name(c);
    }
    lemma_read_optional(draft_upto(m, 7), "Deriver"@, m.deriver);
}

/// Reading the lines before the references.
proof fn lemma_read_head(m: NarInfoView)
    requires
        well_formed(m),
    ensures
        read_lines(empty_draft(), m.head_lines()) == Ok::<Draft, Error>(draft_upto(m, 8)),
{
    let d0 = empty_draft();
    let l3 = required_lines(m);
    let l4 = optional_entry("FileHash"@, optional_hash_text(m.file_hash));
    let l5 = optional_entry("FileSize"@, optional_size_text(m.file_size));
    let l6 = optional_entry("URL"@, m.url);
    let l7 = optional_entry("Compression"@, optional_compression_text(m.compression));
    let l8 = optional_entry("Deriver"@, m.deriver);
    lemma_read_required(m);
    lemma_read_file_fields(m);
    lemma_read_plain_fields(m);
    lemma_read_lines_concat(d0, l3, l4);
    lemma_read_lines_concat(d0, l3 + l4, l5);
    lemma_read_lines_concat(d0, l3 + l4 + l5, l6);
    lemma_read_lines_concat(d0, l3 + l4 + l5 + l6, l7);
    lemma_read_lines_concat(d0, l3 + l4 + l5 + l6 + l7, l8);
    assert(m.head_lines() == l3 + l4 + l5 + l6 + l7 + l8);
}

/// The lines before the references can stand in a text.
proof fn lemma_head_safe(m: NarInfoView)
    requires
        well_formed(m),
        legible(m),
    ensures
        all_safe(m.head_lines()),
{
    let l3 = required_lines(m);
    let l4 = optional_entry("FileHash"@, optional_hash_text(m.file_hash));
    let l5 = optional_entry("FileSize"@, optional_size_text(m.file_size));
    let l6 = optional_entry("URL"@, m.url);
    let l7 = optional_entry("Compression"@, optional_compression_text(m.compression));
    let l8 = optional_entry("Deriver"@, m.deriver);
    lemma_keys();
    lemma_entry_safe("StorePath"@, m.path);
    lemma_hash_text_safe(m.nar_hash);
    lemma_entry_safe("NarHash"@, m.nar_hash.text());
    lemma_parse_decimal(m.nar_size);
    lemma_entry_safe("NarSize"@, decimal(m.nar_size as nat));
    assert(all_safe(l3));
    if let Some(h) = m.file_hash {
        lemma_hash_text_safe(h);
    }
    lemma_optional_safe("FileHash"@, optional_hash_text(m.file_hash));
    if let Some(n) = m.file_size {
        lemma_parse_decimal(n);
    }
    lemma_optional_safe("FileSize"@, optional_size_text(m.file_size));
    lemma_optional_safe("URL"@, m.url);
    if let Some(c) = m.compression {
        lemma_compression_name(c);
    }
    lemma_optional_safe("Compression"@, optional_compression_text(m.compression));
    lemma_optional_safe("Deriver"@, m.deriver);
    lemma_all_safe_concat(l3, l4);
    lemma_all_safe_concat(l3 + l4, l5);
    lemma_all_safe_concat(l3 + l4 + l5, l6);
    lemma_all_safe_concat(l3 + l4 + l5 + l6, l7);
    lemma_all_safe_concat(l3 + l4 + l5 + l6 + l7, l8);
    assert(m.head_lines() == l3 + l4 + l5 + l6 + l7 + l8);
}

/// Reading the lines of a legible record gives all its fields.
proof fn lemma_read_record(m: NarInfoView)
    requires
        well_formed(m),
        legible(m),
        trusted_payloads(m.signatures),
    ensures
        read_lines(empty_draft(), m.record_lines()) == Ok::<Draft, Error>(draft_upto(m, 11)),
{
    let d0 = empty_draft();
    let l8 = m.head_lines();
    let l9 = reference_lines(m.references);
    let l10 = signature_lines(m.signatures);
    let l11 = optional_entry("CA"@, m.ca);
    lemma_read_head(m);
    lemma_read_references(draft_upto(m, 8), m.references);
    assert(draft_upto(m, 9) == Draft { references: m.references, ..draft_upto(m, 8) });
    lemma_read_signatures(draft_upto(m, 9), m.signatures);
    assert(draft_upto(m, 10) == Draft { signatures: m.signatures, ..draft_upto(m, 9) });
    lemma_keys();
    lemma_read_optional(draft_upto(m, 10), "CA"@, m.ca);
    assert(read_lines(draft_upto(m, 10), l11) == Ok::<Draft, Error>(draft_upto(m, 11)));
    lemma_read_lines_concat(d0, l8, l9);
    lemma_read_lines_concat(d0, l8 + l9, l10);
    lemma_read_lines_concat(d0, l8 + l9 + l10, l11);
}

/// A legible record that is written out and read again is the same record:
/// its text stands for it, and is read without a warning.
pub proof fn lemma_parse_text(m: NarInfoView)
    requires
        well_formed(m),
        legible(m),
        trusted_payloads(m.signatures),
    ensures
        parse(m.text()) == Ok::<NarInfoView, Error>(m),
        parse_warnings(m.text()) == Seq::<WarningView>::empty(),
{
    let l8 = m.head_lines();
    let l9 = reference_lines(m.references);
    let l10 = signature_lines(m.signatures);
    let l11 = optional_entry("CA"@, m.ca);
    lemma_head_safe(m);
    lemma_references_safe(m.references);
    lemma_signatures_safe(m.signatures);
    lemma_keys();
    lemma_optional_safe("CA"@, m.ca);
    lemma_all_safe_concat(l8, l9);
    lemma_all_safe_concat(l8 + l9, l10);
    lemma_all_safe_concat(l8 + l9 + l10, l11);
    lemma_lines_unlines(m.record_lines());
    lemma_read_record(m);
    assert(finish(draft_upto(m, 11)) == Ok::<NarInfoView, Error>(m));
}

/// What is signed does not depend on the order in which the references came:
/// two records with the same store path, hash and size, and the same
/// references, have the same fingerprint.
pub proof fn lemma_fingerprint_determined(a: NarInfoView, b: NarInfoView)
    requires
        ascending(a.references),
        ascending(b.references),
        a.path == b.path,
        a.nar_hash == b.nar_hash,
        a.nar_size == b.nar_size,
        forall|r: Seq<char>| a.references.contains(r) <==> b.references.contains(r),
    ensures
        a.fingerprint() == b.fingerprint(),
{
    crate::nixutils::refs::lemma_ascending_unique(a.references, b.references);
}

} // verus!
