//! The mathematical model of canonical JSON: spec functions that give, for
//! every value, the exact byte sequence a successful encode produces, when
//! an encode succeeds, and which error is reported when it fails. The
//! executable encoder is verified against these functions.

use vstd::prelude::*;
use vstd::utf8::{
    char_is_scalar, encode_scalar, encode_utf8, encode_utf8_valid_utf8, has_width_1_encoding,
    has_width_2_encoding, has_width_3_encoding, valid_utf8, valid_utf8_concat,
};

use crate::canonical_value::CanonicalValue;
use crate::error::Error;

verus! {

/// The double-quote byte, `"`.
pub const QUOTE: u8 = 34;

/// The backslash byte, `\`.
pub const BACKSLASH: u8 = 92;

/// The comma byte, `,`.
pub const COMMA: u8 = 44;

/// The colon byte, `:`.
pub const COLON: u8 = 58;

/// How one raw byte of string content appears in the output: quote and
/// backslash gain a backslash prefix, every other byte (control characters
/// included) passes through unchanged.
pub open spec fn escape_byte(b: u8) -> Seq<u8> {
    if b == QUOTE || b == BACKSLASH {
        seq![BACKSLASH, b]
    } else {
        seq![b]
    }
}

/// The escaped form of a whole byte sequence.
pub open spec fn escape_bytes(s: Seq<u8>) -> Seq<u8>
    decreases s.len(),
{
    if s.len() == 0 {
        Seq::<u8>::empty()
    } else {
        escape_bytes(s.drop_last()) + escape_byte(s.last())
    }
}

/// A string's encoding: its escaped UTF-8 bytes wrapped in double quotes.
pub open spec fn str_encoding(bytes: Seq<u8>) -> Seq<u8> {
    seq![QUOTE] + escape_bytes(bytes) + seq![QUOTE]
}

/// The minimal decimal digits of a nonnegative integer, most significant
/// first, with no leading zeros (`0` itself is the single digit `0`).
pub open spec fn dec_digits(n: nat) -> Seq<u8>
    decreases n,
{
    if n < 10 {
        seq![(48 + n) as u8]
    } else {
        dec_digits(n / 10).push((48 + n % 10) as u8)
    }
}

/// The decimal form of an integer: a leading `-` exactly when negative.
pub open spec fn dec_int(i: int) -> Seq<u8> {
    if i < 0 {
        seq![45u8] + dec_digits((-i) as nat)
    } else {
        dec_digits(i as nat)
    }
}

/// Strict byte-lexicographic order: `a` sorts before `b`.
pub open spec fn lex_lt(a: Seq<u8>, b: Seq<u8>) -> bool
    decreases a.len(),
{
    if b.len() == 0 {
        false
    } else if a.len() == 0 {
        true
    } else if a[0] < b[0] {
        true
    } else if a[0] > b[0] {
        false
    } else {
        lex_lt(a.drop_first(), b.drop_first())
    }
}

/// The UTF-8 bytes of a string value, the form in which keys are compared.
pub open spec fn str_bytes(s: Seq<char>) -> Seq<u8> {
    encode_utf8(s)
}

/// The bytes of the literal `null`.
pub open spec fn null_bytes() -> Seq<u8> {
    seq![110u8, 117u8, 108u8, 108u8]
}

/// The bytes of the literal `true`.
pub open spec fn true_bytes() -> Seq<u8> {
    seq![116u8, 114u8, 117u8, 101u8]
}

/// The bytes of the literal `false`.
pub open spec fn false_bytes() -> Seq<u8> {
    seq![102u8, 97u8, 108u8, 115u8, 101u8]
}

/// Whether a key is accepted after `prev`, the UTF-8 bytes of the previous
/// key of the same mapping (`None` before the first key): keys must be
/// strictly ascending.
pub open spec fn key_ok(prev: Option<Seq<u8>>, key: Seq<u8>) -> bool {
    match prev {
        Option::None => true,
        Option::Some(p) => lex_lt(p, key),
    }
}

/// The error reported for a key that `key_ok` rejects.
pub open spec fn key_err(prev: Option<Seq<u8>>, key: Seq<u8>) -> Error {
    if prev matches Option::Some(p) && key == p {
        Error::DuplicateKey
    } else {
        Error::UnorderedKey
    }
}

/// Whether a value is canonical, i.e. encoding it succeeds: every float is
/// an exact integer, and every mapping has strictly ascending keys over
/// canonical values. Key ordering is checked per mapping; a nested
/// mapping's keys are independent of its parent's.
pub open spec fn canonical(v: CanonicalValue) -> bool
    decreases v,
{
    match v {
        CanonicalValue::Float(f) => f is Some,
        CanonicalValue::Array(els) => arr_canonical(els@),
        CanonicalValue::Object(es) => obj_canonical(es@, Option::None),
        _ => true,
    }
}

/// All elements of an array are canonical.
pub open spec fn arr_canonical(s: Seq<CanonicalValue>) -> bool
    decreases s,
{
    s.len() == 0 || (canonical(s[0]) && arr_canonical(s.drop_first()))
}

/// The remaining entries of a mapping are accepted when the last key
/// already accepted was `prev`.
pub open spec fn obj_canonical(s: Seq<(String, CanonicalValue)>, prev: Option<Seq<u8>>) -> bool
    decreases s,
{
    s.len() == 0 || {
        &&& key_ok(prev, str_bytes(s[0].0@))
        &&& canonical(s[0].1)
        &&& obj_canonical(s.drop_first(), Option::Some(str_bytes(s[0].0@)))
    }
}

/// The canonical encoding of a value: the exact bytes written when
/// `canonical(v)` holds. No whitespace, no trailing separators; a
/// non-canonical float contributes nothing (the encoder fails before
/// writing it).
pub open spec fn encoding(v: CanonicalValue) -> Seq<u8>
    decreases v,
{
    match v {
        CanonicalValue::Null => null_bytes(),
        CanonicalValue::Bool(b) => if b {
            true_bytes()
        } else {
            false_bytes()
        },
        CanonicalValue::Int(i) => dec_int(i as int),
        CanonicalValue::UInt(u) => dec_digits(u as nat),
        CanonicalValue::Float(f) => match f {
            Option::Some(n) => dec_int(n as int),
            Option::None => Seq::<u8>::empty(),
        },
        CanonicalValue::Text(s) => str_encoding(str_bytes(s@)),
        CanonicalValue::Array(els) => seq![91u8] + arr_encoding(els@) + seq![93u8],
        CanonicalValue::Object(es) => seq![123u8] + obj_encoding(es@) + seq![125u8],
    }
}

/// The comma-separated encodings of an array's elements.
pub open spec fn arr_encoding(s: Seq<CanonicalValue>) -> Seq<u8>
    decreases s,
{
    if s.len() == 0 {
        Seq::<u8>::empty()
    } else if s.len() == 1 {
        encoding(s[0])
    } else {
        arr_encoding(s.drop_last()) + seq![COMMA] + encoding(s.last())
    }
}

/// One mapping entry as encoded, from the key's UTF-8 bytes and the
/// value's encoded form: quoted key, colon, value.
pub open spec fn entry_bytes(key: Seq<u8>, venc: Seq<u8>) -> Seq<u8> {
    str_encoding(key) + seq![COLON] + venc
}

/// One mapping entry as encoded: quoted key, colon, value.
pub open spec fn entry_encoding(e: (String, CanonicalValue)) -> Seq<u8>
    decreases e,
{
    entry_bytes(str_bytes(e.0@), encoding(e.1))
}

/// The comma-separated encodings of a mapping's entries.
pub open spec fn obj_encoding(s: Seq<(String, CanonicalValue)>) -> Seq<u8>
    decreases s,
{
    if s.len() == 0 {
        Seq::<u8>::empty()
    } else if s.len() == 1 {
        entry_encoding(s[0])
    } else {
        obj_encoding(s.drop_last()) + seq![COMMA] + entry_encoding(s.last())
    }
}

/// The items of an encoded byte sequence: each byte as its decimal digits,
/// comma-separated.
pub open spec fn byte_items(s: Seq<u8>) -> Seq<u8>
    decreases s,
{
    if s.len() == 0 {
        Seq::<u8>::empty()
    } else if s.len() == 1 {
        dec_digits(s[0] as nat)
    } else {
        byte_items(s.drop_last()) + seq![COMMA] + dec_digits(s.last() as nat)
    }
}

/// A byte sequence encodes as a JSON sequence of unsigned integers — no
/// base64 shortcut, so that each logical value keeps one representation.
pub open spec fn bytes_encoding(s: Seq<u8>) -> Seq<u8> {
    seq![91u8] + byte_items(s) + seq![93u8]
}

/// The error a failed encode reports: the one raised by the first offending
/// datum in traversal order. Meaningful only when `!canonical(v)`.
pub open spec fn encode_err(v: CanonicalValue) -> Error
    decreases v,
{
    match v {
        CanonicalValue::Float(_) => Error::NonCanonicalNumber,
        CanonicalValue::Array(els) => arr_err(els@),
        CanonicalValue::Object(es) => obj_err(es@, Option::None),
        _ => Error::NonCanonicalNumber,
    }
}

/// The error of the first non-canonical element.
pub open spec fn arr_err(s: Seq<CanonicalValue>) -> Error
    decreases s,
{
    if s.len() == 0 {
        Error::NonCanonicalNumber
    } else if !canonical(s[0]) {
        encode_err(s[0])
    } else {
        arr_err(s.drop_first())
    }
}

/// The error of the first offending entry: a key is checked before the
/// value it introduces.
pub open spec fn obj_err(s: Seq<(String, CanonicalValue)>, prev: Option<Seq<u8>>) -> Error
    decreases s,
{
    if s.len() == 0 {
        Error::NonCanonicalNumber
    } else if !key_ok(prev, str_bytes(s[0].0@)) {
        key_err(prev, str_bytes(s[0].0@))
    } else if !canonical(s[0].1) {
        encode_err(s[0].1)
    } else {
        obj_err(s.drop_first(), Option::Some(str_bytes(s[0].0@)))
    }
}

/// The one outcome an encode of `v` may have: the canonical bytes, or the
/// error of the first offending datum.
pub open spec fn encode_spec(v: CanonicalValue) -> Result<Seq<u8>, Error> {
    if canonical(v) {
        Result::Ok(encoding(v))
    } else {
        Result::Err(encode_err(v))
    }
}

/// The UTF-8 bytes of the key written just before entry `i`, or `None` at
/// the first entry.
pub open spec fn entry_prev(s: Seq<(String, CanonicalValue)>, i: int) -> Option<Seq<u8>> {
    if i == 0 {
        Option::None
    } else {
        Option::Some(str_bytes(s[i - 1].0@))
    }
}

pub(crate) proof fn lemma_escape_bytes_push(s: Seq<u8>, b: u8)
    ensures
        escape_bytes(s.push(b)) == escape_bytes(s) + escape_byte(b),
{
    assert(s.push(b).drop_last() =~= s);
}

pub(crate) proof fn lemma_arr_encoding_push(s: Seq<CanonicalValue>, v: CanonicalValue)
    ensures
        arr_encoding(s.push(v)) == if s.len() == 0 {
            encoding(v)
        } else {
            arr_encoding(s) + seq![COMMA] + encoding(v)
        },
{
    assert(s.push(v).drop_last() =~= s);
    if s.len() == 0 {
        assert(arr_encoding(s.push(v)) == encoding(s.push(v)[0]));
    }
}

pub(crate) proof fn lemma_obj_encoding_push(
    s: Seq<(String, CanonicalValue)>,
    e: (String, CanonicalValue),
)
    ensures
        obj_encoding(s.push(e)) == if s.len() == 0 {
            entry_encoding(e)
        } else {
            obj_encoding(s) + seq![COMMA] + entry_encoding(e)
        },
{
    assert(s.push(e).drop_last() =~= s);
    if s.len() == 0 {
        assert(obj_encoding(s.push(e)) == entry_encoding(s.push(e)[0]));
    }
}

pub(crate) proof fn lemma_byte_items_push(s: Seq<u8>, b: u8)
    ensures
        byte_items(s.push(b)) == if s.len() == 0 {
            dec_digits(b as nat)
        } else {
            byte_items(s) + seq![COMMA] + dec_digits(b as nat)
        },
{
    assert(s.push(b).drop_last() =~= s);
    if s.len() == 0 {
        assert(byte_items(s.push(b)) == dec_digits(s.push(b)[0] as nat));
    }
}

pub(crate) proof fn lemma_arr_canonical_from(s: Seq<CanonicalValue>)
    requires
        forall|j: int| 0 <= j < s.len() ==> canonical(#[trigger] s[j]),
    ensures
        arr_canonical(s),
    decreases s.len(),
{
    if s.len() > 0 {
        assert(forall|j: int|
            0 <= j < s.drop_first().len() ==> canonical(#[trigger] s.drop_first()[j]));
        lemma_arr_canonical_from(s.drop_first());
    }
}

pub(crate) proof fn lemma_arr_err_at(s: Seq<CanonicalValue>, i: int)
    requires
        0 <= i < s.len(),
        forall|j: int| 0 <= j < i ==> canonical(#[trigger] s[j]),
        !canonical(s[i]),
    ensures
        !arr_canonical(s),
        arr_err(s) == encode_err(s[i]),
    decreases i,
{
    if i > 0 {
        assert(forall|j: int|
            0 <= j < i - 1 ==> canonical(#[trigger] s.drop_first()[j]));
        assert(s.drop_first()[i - 1] == s[i]);
        lemma_arr_err_at(s.drop_first(), i - 1);
    }
}

pub(crate) proof fn lemma_obj_canonical_from(
    s: Seq<(String, CanonicalValue)>,
    prev: Option<Seq<u8>>,
)
    requires
        forall|j: int| 0 <= j < s.len() ==> canonical(#[trigger] s[j].1),
        forall|j: int| 0 <= j && j + 1 < s.len() ==> lex_lt(
            str_bytes(#[trigger] s[j].0@),
            str_bytes(s[j + 1].0@),
        ),
        s.len() > 0 ==> key_ok(prev, str_bytes(s[0].0@)),
    ensures
        obj_canonical(s, prev),
    decreases s.len(),
{
    if s.len() > 0 {
        let rest = s.drop_first();
        assert forall|j: int| 0 <= j < rest.len() implies canonical(#[trigger] rest[j].1) by {
            assert(rest[j] == s[j + 1]);
            assert(canonical(s[j + 1].1));
        }
        assert forall|j: int|
            0 <= j && j + 1 < rest.len() implies lex_lt(
            str_bytes(#[trigger] rest[j].0@),
            str_bytes(rest[j + 1].0@),
        ) by {
            assert(rest[j] == s[j + 1]);
            assert(rest[j + 1] == s[j + 2]);
            assert(lex_lt(str_bytes(s[j + 1].0@), str_bytes(s[j + 2].0@)));
        }
        if rest.len() > 0 {
            assert(rest[0] == s[1]);
            assert(lex_lt(str_bytes(s[0].0@), str_bytes(s[1].0@)));
        }
        lemma_obj_canonical_from(rest, Option::Some(str_bytes(s[0].0@)));
    }
}

pub(crate) proof fn lemma_obj_err_at(s: Seq<(String, CanonicalValue)>, prev: Option<Seq<u8>>, i: int)
    requires
        0 <= i < s.len(),
        forall|j: int| 0 <= j < i ==> canonical(#[trigger] s[j].1),
        forall|j: int| 0 <= j && j + 1 < i ==> lex_lt(
            str_bytes(#[trigger] s[j].0@),
            str_bytes(s[j + 1].0@),
        ),
        i > 0 ==> key_ok(prev, str_bytes(s[0].0@)),
        ({
            let p = if i == 0 { prev } else { Option::Some(str_bytes(s[i - 1].0@)) };
            !key_ok(p, str_bytes(s[i].0@)) || !canonical(s[i].1)
        }),
    ensures
        !obj_canonical(s, prev),
        obj_err(s, prev) == ({
            let p = if i == 0 { prev } else { Option::Some(str_bytes(s[i - 1].0@)) };
            if !key_ok(p, str_bytes(s[i].0@)) {
                key_err(p, str_bytes(s[i].0@))
            } else {
                encode_err(s[i].1)
            }
        }),
    decreases i,
{
    if i > 0 {
        let rest = s.drop_first();
        assert forall|j: int| 0 <= j < i - 1 implies canonical(#[trigger] rest[j].1) by {
            assert(rest[j] == s[j + 1]);
            assert(canonical(s[j + 1].1));
        }
        assert forall|j: int|
            0 <= j && j + 1 < i - 1 implies lex_lt(
            str_bytes(#[trigger] rest[j].0@),
            str_bytes(rest[j + 1].0@),
        ) by {
            assert(rest[j] == s[j + 1]);
            assert(rest[j + 1] == s[j + 2]);
            assert(lex_lt(str_bytes(s[j + 1].0@), str_bytes(s[j + 2].0@)));
        }
        if i - 1 > 0 {
            assert(rest[0] == s[1]);
            assert(lex_lt(str_bytes(s[0].0@), str_bytes(s[1].0@)));
        }
        if i >= 2 {
            assert(rest[i - 2] == s[i - 1]);
        }
        assert(rest[i - 1] == s[i]);
        lemma_obj_err_at(rest, Option::Some(str_bytes(s[0].0@)), i - 1);
    }
}

pub(crate) proof fn lemma_lex_skip(a: Seq<u8>, b: Seq<u8>, i: int)
    requires
        0 <= i <= a.len(),
        i <= b.len(),
        forall|j: int| 0 <= j < i ==> a[j] == b[j],
    ensures
        lex_lt(a, b) <==> lex_lt(a.skip(i), b.skip(i)),
    decreases i,
{
    if i == 0 {
        assert(a.skip(0) =~= a);
        assert(b.skip(0) =~= b);
    } else {
        let ar = a.drop_first();
        let br = b.drop_first();
        assert(forall|j: int| 0 <= j < i - 1 ==> #[trigger] ar[j] == br[j]) by {
            assert(forall|j: int| 0 <= j < i - 1 ==> #[trigger] ar[j] == a[j + 1]);
            assert(forall|j: int| 0 <= j < i - 1 ==> #[trigger] br[j] == b[j + 1]);
        }
        lemma_lex_skip(ar, br, i - 1);
        assert(ar.skip(i - 1) =~= a.skip(i));
        assert(br.skip(i - 1) =~= b.skip(i));
        assert(a[0] == b[0]);
    }
}

pub(crate) proof fn lemma_ascii_byte_valid(b: u8)
    requires
        b < 0x80,
    ensures
        valid_utf8(seq![b]),
{
    let s = seq![b];
    assert(b & 0x7f <= 0x7f) by (bit_vector);
    assert(valid_utf8(Seq::<u8>::empty()));
    assert(vstd::utf8::pop_first_scalar(s) =~= Seq::<u8>::empty());
    assert(vstd::utf8::valid_first_scalar(s));
}

pub(crate) proof fn lemma_ascii_seq_valid(s: Seq<u8>)
    requires
        forall|j: int| 0 <= j < s.len() ==> s[j] < 0x80,
    ensures
        valid_utf8(s),
    decreases s.len(),
{
    if s.len() > 0 {
        lemma_ascii_seq_valid(s.drop_last());
        lemma_ascii_byte_valid(s.last());
        valid_utf8_concat(s.drop_last(), seq![s.last()]);
        assert(s.drop_last() + seq![s.last()] =~= s);
    }
}

pub(crate) proof fn lemma_escape_concat(a: Seq<u8>, b: Seq<u8>)
    ensures
        escape_bytes(a + b) == escape_bytes(a) + escape_bytes(b),
    decreases b.len(),
{
    if b.len() == 0 {
        assert(a + b =~= a);
        assert(escape_bytes(a + b) =~= escape_bytes(a) + escape_bytes(b));
    } else {
        lemma_escape_concat(a, b.drop_last());
        assert((a + b).drop_last() =~= a + b.drop_last());
        assert(escape_bytes(a + b) =~= escape_bytes(a) + escape_bytes(b));
    }
}

pub(crate) proof fn lemma_escape_scalar_valid(c: char)
    ensures
        valid_utf8(escape_bytes(encode_scalar(c as u32))),
{
    char_is_scalar(c);
    let n = c as u32;
    let enc = encode_scalar(n);
    if has_width_1_encoding(n) {
        let b = #[verifier::truncate] ((n & 0x7F) as u8);
        assert((n & 0x7F) as u8 <= 0x7f) by (bit_vector);
        assert(enc =~= seq![b]);
        assert(seq![b].drop_last() =~= Seq::<u8>::empty());
        assert(escape_bytes(Seq::<u8>::empty()) == Seq::<u8>::empty());
        assert(escape_bytes(enc) =~= Seq::<u8>::empty() + escape_byte(b));
        assert(escape_bytes(enc) =~= escape_byte(b));
        if b == QUOTE || b == BACKSLASH {
            lemma_ascii_seq_valid(seq![BACKSLASH, b]);
        } else {
            lemma_ascii_seq_valid(seq![b]);
        }
    } else {
        // Every byte of a multi-byte encoding is at least 0x80, so none is
        // a quote or a backslash and the escaper copies them verbatim.
        if has_width_2_encoding(n) {
            assert((0xC0u8 | (((n >> 6) & 0x1F) as u8)) >= 0xC0) by (bit_vector);
            assert((0x80u8 | ((n & 0x3F) as u8)) >= 0x80) by (bit_vector);
        } else if has_width_3_encoding(n) {
            assert((0xE0u8 | (((n >> 12) & 0x0F) as u8)) >= 0xE0) by (bit_vector);
            assert((0x80u8 | (((n >> 6) & 0x3F) as u8)) >= 0x80) by (bit_vector);
            assert((0x80u8 | ((n & 0x3F) as u8)) >= 0x80) by (bit_vector);
        } else {
            assert((0xF0u8 | (((n >> 18) & 0x7) as u8)) >= 0xF0) by (bit_vector);
            assert((0x80u8 | (((n >> 12) & 0x3F) as u8)) >= 0x80) by (bit_vector);
            assert((0x80u8 | (((n >> 6) & 0x3F) as u8)) >= 0x80) by (bit_vector);
            assert((0x80u8 | ((n & 0x3F) as u8)) >= 0x80) by (bit_vector);
        }
        lemma_escape_passthrough(enc);
        encode_utf8_valid_utf8(seq![c]);
        assert(seq![c][0] == c);
        assert(seq![c].drop_first() =~= Seq::<char>::empty());
        assert(encode_utf8(Seq::<char>::empty()) == Seq::<u8>::empty());
        assert(encode_utf8(seq![c]) == enc + Seq::<u8>::empty());
        assert(enc + Seq::<u8>::empty() =~= enc);
    }
}

pub(crate) proof fn lemma_escaped_utf8_valid(chars: Seq<char>)
    ensures
        valid_utf8(escape_bytes(encode_utf8(chars))),
    decreases chars.len(),
{
    if chars.len() == 0 {
        assert(escape_bytes(encode_utf8(chars)) =~= Seq::<u8>::empty());
    } else {
        let first = encode_scalar(chars[0] as u32);
        let rest = encode_utf8(chars.drop_first());
        lemma_escape_concat(first, rest);
        lemma_escape_scalar_valid(chars[0]);
        lemma_escaped_utf8_valid(chars.drop_first());
        valid_utf8_concat(escape_bytes(first), escape_bytes(rest));
    }
}

pub(crate) proof fn lemma_str_encoding_valid(chars: Seq<char>)
    ensures
        valid_utf8(str_encoding(str_bytes(chars))),
{
    lemma_escaped_utf8_valid(chars);
    lemma_ascii_byte_valid(QUOTE);
    valid_utf8_concat(seq![QUOTE], escape_bytes(str_bytes(chars)));
    valid_utf8_concat(seq![QUOTE] + escape_bytes(str_bytes(chars)), seq![QUOTE]);
}

pub(crate) proof fn lemma_dec_digits_ascii(n: nat)
    ensures
        forall|j: int| 0 <= j < dec_digits(n).len() ==> dec_digits(n)[j] < 0x80,
    decreases n,
{
    if n >= 10 {
        lemma_dec_digits_ascii(n / 10);
        assert forall|j: int| 0 <= j < dec_digits(n).len() implies dec_digits(n)[j] < 0x80 by {
            if j < dec_digits(n / 10).len() {
                assert(dec_digits(n)[j] == dec_digits(n / 10)[j]);
            }
        }
    }
}

pub(crate) proof fn lemma_dec_int_valid(i: int)
    ensures
        valid_utf8(dec_int(i)),
{
    if i < 0 {
        lemma_dec_digits_ascii((-i) as nat);
        lemma_ascii_byte_valid(45);
        lemma_ascii_seq_valid(dec_digits((-i) as nat));
        valid_utf8_concat(seq![45u8], dec_digits((-i) as nat));
    } else {
        lemma_dec_digits_ascii(i as nat);
        lemma_ascii_seq_valid(dec_digits(i as nat));
    }
}

pub(crate) proof fn lemma_arr_canonical_elems(s: Seq<CanonicalValue>)
    requires
        arr_canonical(s),
    ensures
        forall|j: int| 0 <= j < s.len() ==> canonical(#[trigger] s[j]),
    decreases s.len(),
{
    if s.len() > 0 {
        lemma_arr_canonical_elems(s.drop_first());
        assert forall|j: int| 0 <= j < s.len() implies canonical(#[trigger] s[j]) by {
            if j > 0 {
                assert(s[j] == s.drop_first()[j - 1]);
            }
        }
    }
}

pub(crate) proof fn lemma_obj_canonical_elems(s: Seq<(String, CanonicalValue)>, prev: Option<Seq<u8>>)
    requires
        obj_canonical(s, prev),
    ensures
        forall|j: int| 0 <= j < s.len() ==> canonical(#[trigger] s[j].1),
    decreases s.len(),
{
    if s.len() > 0 {
        lemma_obj_canonical_elems(s.drop_first(), Option::Some(str_bytes(s[0].0@)));
        assert forall|j: int| 0 <= j < s.len() implies canonical(#[trigger] s[j].1) by {
            if j > 0 {
                assert(s[j] == s.drop_first()[j - 1]);
            }
        }
    }
}

pub(crate) proof fn lemma_arr_encoding_valid(s: Seq<CanonicalValue>)
    requires
        forall|j: int| 0 <= j < s.len() ==> canonical(#[trigger] s[j]),
    ensures
        valid_utf8(arr_encoding(s)),
    decreases s,
{
    if s.len() == 0 {
    } else if s.len() == 1 {
        lemma_encoding_valid(s[0]);
    } else {
        assert forall|j: int|
            0 <= j < s.drop_last().len() implies canonical(#[trigger] s.drop_last()[j]) by {
            assert(s.drop_last()[j] == s[j]);
        }
        lemma_arr_encoding_valid(s.drop_last());
        lemma_ascii_byte_valid(COMMA);
        lemma_encoding_valid(s.last());
        valid_utf8_concat(arr_encoding(s.drop_last()), seq![COMMA]);
        valid_utf8_concat(arr_encoding(s.drop_last()) + seq![COMMA], encoding(s.last()));
    }
}

pub(crate) proof fn lemma_obj_encoding_valid(s: Seq<(String, CanonicalValue)>)
    requires
        forall|j: int| 0 <= j < s.len() ==> canonical(#[trigger] s[j].1),
    ensures
        valid_utf8(obj_encoding(s)),
    decreases s,
{
    if s.len() == 0 {
    } else if s.len() == 1 {
        lemma_entry_encoding_valid(s[0]);
    } else {
        assert forall|j: int|
            0 <= j < s.drop_last().len() implies canonical(#[trigger] s.drop_last()[j].1) by {
            assert(s.drop_last()[j] == s[j]);
        }
        lemma_obj_encoding_valid(s.drop_last());
        lemma_ascii_byte_valid(COMMA);
        lemma_entry_encoding_valid(s.last());
        valid_utf8_concat(obj_encoding(s.drop_last()), seq![COMMA]);
        valid_utf8_concat(obj_encoding(s.drop_last()) + seq![COMMA], entry_encoding(s.last()));
    }
}

pub(crate) proof fn lemma_entry_encoding_valid(e: (String, CanonicalValue))
    requires
        canonical(e.1),
    ensures
        valid_utf8(entry_encoding(e)),
    decreases e,
{
    lemma_str_encoding_valid(e.0@);
    lemma_ascii_byte_valid(COLON);
    lemma_encoding_valid(e.1);
    valid_utf8_concat(str_encoding(str_bytes(e.0@)), seq![COLON]);
    valid_utf8_concat(str_encoding(str_bytes(e.0@)) + seq![COLON], encoding(e.1));
}

/// Law: the encoder's output is UTF-8 text. The canonical encoding of any
/// canonical value is a valid UTF-8 byte sequence.
pub proof fn lemma_encoding_valid(v: CanonicalValue)
    requires
        canonical(v),
    ensures
        valid_utf8(encoding(v)),
    decreases v,
{
    match v {
        CanonicalValue::Null => {
            lemma_ascii_seq_valid(null_bytes());
        },
        CanonicalValue::Bool(b) => {
            lemma_ascii_seq_valid(true_bytes());
            lemma_ascii_seq_valid(false_bytes());
        },
        CanonicalValue::Int(i) => {
            lemma_dec_int_valid(i as int);
        },
        CanonicalValue::UInt(u) => {
            lemma_dec_digits_ascii(u as nat);
            lemma_ascii_seq_valid(dec_digits(u as nat));
        },
        CanonicalValue::Float(f) => {
            match f {
                Option::Some(n) => lemma_dec_int_valid(n as int),
                Option::None => (),
            }
        },
        CanonicalValue::Text(s) => {
            lemma_str_encoding_valid(s@);
        },
        CanonicalValue::Array(els) => {
            lemma_arr_canonical_elems(els@);
            lemma_arr_encoding_valid(els@);
            lemma_ascii_byte_valid(91);
            lemma_ascii_byte_valid(93);
            valid_utf8_concat(seq![91u8], arr_encoding(els@));
            valid_utf8_concat(seq![91u8] + arr_encoding(els@), seq![93u8]);
        },
        CanonicalValue::Object(es) => {
            lemma_obj_canonical_elems(es@, Option::None);
            lemma_obj_encoding_valid(es@);
            lemma_ascii_byte_valid(123);
            lemma_ascii_byte_valid(125);
            valid_utf8_concat(seq![123u8], obj_encoding(es@));
            valid_utf8_concat(seq![123u8] + obj_encoding(es@), seq![125u8]);
        },
    }
}

/// Law: encoding is deterministic. The outcome of an encode is a function
/// of the value alone, so any two encodes of the same value agree
/// byte-for-byte, errors included.
pub proof fn lemma_encode_deterministic(
    v: CanonicalValue,
    r1: Result<Seq<u8>, Error>,
    r2: Result<Seq<u8>, Error>,
)
    requires
        r1 == encode_spec(v),
        r2 == encode_spec(v),
    ensures
        r1 == r2,
{
}

/// Law: a mapping whose keys are strictly ascending in byte-lexicographic
/// order, over canonical values, encodes successfully, as `{` + the
/// comma-separated entries + `}` — no separator before the first entry or
/// after the last.
pub proof fn lemma_object_ascending(es: Vec<(String, CanonicalValue)>)
    requires
        forall|j: int| 0 <= j < es@.len() ==> canonical(#[trigger] es@[j].1),
        forall|j: int| 0 <= j && j + 1 < es@.len() ==> lex_lt(
            str_bytes(#[trigger] es@[j].0@),
            str_bytes(es@[j + 1].0@),
        ),
    ensures
        canonical(CanonicalValue::Object(es)),
        encode_spec(CanonicalValue::Object(es)) == Result::<Seq<u8>, Error>::Ok(
            seq![123u8] + obj_encoding(es@) + seq![125u8],
        ),
{
    lemma_obj_canonical_from(es@, Option::None);
}

/// Law: a mapping whose first offending key (after a clean ascending
/// prefix) repeats the previous key fails with `DuplicateKey`, and one
/// whose first offending key sorts before the previous key fails with
/// `UnorderedKey`. An earlier violation decides first: a mapping may
/// contain a non-adjacent duplicate and still fail with `UnorderedKey`.
pub proof fn lemma_object_rejects_bad_key(es: Vec<(String, CanonicalValue)>, i: int)
    requires
        0 < i < es@.len(),
        forall|j: int| 0 <= j < i ==> canonical(#[trigger] es@[j].1),
        forall|j: int| 0 <= j && j + 1 < i ==> lex_lt(
            str_bytes(#[trigger] es@[j].0@),
            str_bytes(es@[j + 1].0@),
        ),
        !lex_lt(str_bytes(es@[i - 1].0@), str_bytes(es@[i].0@)),
    ensures
        !canonical(CanonicalValue::Object(es)),
        encode_spec(CanonicalValue::Object(es)) == Result::<Seq<u8>, Error>::Err(
            if str_bytes(es@[i].0@) == str_bytes(es@[i - 1].0@) {
                Error::DuplicateKey
            } else {
                Error::UnorderedKey
            },
        ),
{
    lemma_obj_err_at(es@, Option::None, i);
}

/// Law: a float encodes successfully exactly when it is an exact integer,
/// and then as that integer's plain decimal literal; otherwise the encode
/// fails with `NonCanonicalNumber`.
pub proof fn lemma_float_canonical(f: Option<i64>)
    ensures
        canonical(CanonicalValue::Float(f)) <==> f is Some,
        f matches Option::Some(n) ==> encode_spec(CanonicalValue::Float(f))
            == Result::<Seq<u8>, Error>::Ok(dec_int(n as int)),
        f is None ==> encode_spec(CanonicalValue::Float(f))
            == Result::<Seq<u8>, Error>::Err(Error::NonCanonicalNumber),
{
}

/// Law: the empty sequence and the empty mapping encode as `[]` and `{}`,
/// with nothing between the delimiters.
pub proof fn lemma_empty_compounds(els: Vec<CanonicalValue>, es: Vec<(String, CanonicalValue)>)
    requires
        els@.len() == 0,
        es@.len() == 0,
    ensures
        encode_spec(CanonicalValue::Array(els)) == Result::<Seq<u8>, Error>::Ok(
            seq![91u8, 93u8],
        ),
        encode_spec(CanonicalValue::Object(es)) == Result::<Seq<u8>, Error>::Ok(
            seq![123u8, 125u8],
        ),
{
    assert(seq![91u8] + arr_encoding(els@) + seq![93u8] =~= seq![91u8, 93u8]);
    assert(seq![123u8] + obj_encoding(es@) + seq![125u8] =~= seq![123u8, 125u8]);
}

/// Law: a string with no quote and no backslash passes through the escaper
/// byte-for-byte — a raw newline, or any other control byte, appears
/// literally in the output.
pub proof fn lemma_escape_passthrough(s: Seq<u8>)
    requires
        forall|j: int| 0 <= j < s.len() ==> s[j] != QUOTE && s[j] != BACKSLASH,
    ensures
        escape_bytes(s) == s,
    decreases s.len(),
{
    if s.len() == 0 {
        assert(escape_bytes(s) =~= s);
    } else {
        lemma_escape_passthrough(s.drop_last());
        assert(escape_bytes(s) =~= s);
    }
}

} // verus!
