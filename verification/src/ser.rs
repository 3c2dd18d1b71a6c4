//! The canonical JSON serializer: a streaming traversal engine with one
//! entry operation per value shape, the per-compound structural state that
//! places separators and closing delimiters, the ascending-key guard that
//! enforces the key-ordering invariant of every mapping, and the recursive
//! encoder over [`CanonicalValue`] trees built on top of them.

use vstd::prelude::*;
use vstd::utf8::{encode_scalar, encode_utf8, valid_utf8};

use crate::canonical_value::CanonicalValue;
use crate::encoding::{
    byte_items, bytes_encoding, dec_digits, dec_int, false_bytes, null_bytes, str_bytes,
    str_encoding, true_bytes, COLON, COMMA,
};
use crate::encoding::{
    arr_encoding, canonical, encode_err, encode_spec, encoding, entry_bytes, entry_prev, key_err,
    key_ok, lex_lt, obj_encoding,
};
use crate::encoding::{
    lemma_arr_canonical_from, lemma_arr_encoding_push, lemma_arr_err_at, lemma_byte_items_push,
    lemma_encoding_valid, lemma_obj_canonical_from, lemma_obj_encoding_push, lemma_obj_err_at,
};
use crate::error::Error;
use crate::num::{write_dec_i64, write_dec_u64};
use crate::text::escape_char;
use crate::text::escape_str;
use crate::text::lex_cmp;
use crate::text::KeyOrder;

verus! {

/// The structural state of one compound frame: `Empty` when the compound
/// was announced with length zero and its empty form is already written,
/// `First` before the first element, `Rest` from the first element on.
/// `Rest` is sticky; nothing returns to `First`.
#[derive(Debug, Clone, Copy, PartialEq, Eq, Structural)]
pub enum State {
    Empty,
    First,
    Rest,
}

/// The separator owed before the next element of a frame in the given
/// state: a comma once something has been written, nothing before the
/// first element.
pub open spec fn sep(state: State) -> Seq<u8> {
    if state == State::Rest {
        seq![COMMA]
    } else {
        Seq::<u8>::empty()
    }
}

/// The frame of one sequence (or tuple, or tuple-variant payload) being
/// encoded: only the structural state.
pub struct Compound {
    pub state: State,
}

/// The frame of one mapping (or record, or record-variant payload) being
/// encoded: the structural state plus the last accepted key, against which
/// the ascending-key guard checks each new key. Ordering resets per frame:
/// a nested mapping's keys are independent of its parent's.
pub struct OrderedKeyCompound {
    pub state: State,
    pub cur_key: Option<String>,
}

impl OrderedKeyCompound {
    /// The UTF-8 bytes of the last accepted key, if any.
    pub open spec fn prev_bytes(&self) -> Option<Seq<u8>> {
        match self.cur_key {
            Option::Some(k) => Option::Some(str_bytes(k@)),
            Option::None => Option::None,
        }
    }
}

/// The byte sink and scalar encoder. Its abstract value is the sequence of
/// bytes written so far; every operation appends, nothing rewinds.
pub struct Serializer {
    out: Vec<u8>,
}

impl View for Serializer {
    type V = Seq<u8>;

    closed spec fn view(&self) -> Seq<u8> {
        self.out@
    }
}

impl Serializer {
    /// A serializer with nothing written yet.
    pub fn new() -> (s: Serializer)
        ensures
            s@ == Seq::<u8>::empty(),
    {
        Serializer { out: Vec::new() }
    }

    /// Hand over the bytes written so far.
    pub fn into_bytes(self) -> (r: Vec<u8>)
        ensures
            r@ == self@,
    {
        self.out
    }

    /// Write `true` or `false`.
    pub fn serialize_bool(&mut self, v: bool)
        ensures
            final(self)@ == old(self)@ + if v {
                true_bytes()
            } else {
                false_bytes()
            },
    {
        if v {
            self.out.push(116);
            self.out.push(114);
            self.out.push(117);
            self.out.push(101);
            proof {
                assert(final(self)@ =~= old(self)@ + true_bytes());
            }
        } else {
            self.out.push(102);
            self.out.push(97);
            self.out.push(108);
            self.out.push(115);
            self.out.push(101);
            proof {
                assert(final(self)@ =~= old(self)@ + false_bytes());
            }
        }
    }

    /// Write the minimal decimal form of a signed integer.
    pub fn serialize_i64(&mut self, v: i64)
        ensures
            final(self)@ == old(self)@ + dec_int(v as int),
    {
        write_dec_i64(&mut self.out, v);
    }

    /// Write the minimal decimal form of an unsigned integer.
    pub fn serialize_u64(&mut self, v: u64)
        ensures
            final(self)@ == old(self)@ + dec_digits(v as nat),
    {
        write_dec_u64(&mut self.out, v);
    }

    /// Write an 8-bit signed integer in decimal.
    pub fn serialize_i8(&mut self, v: i8)
        ensures
            final(self)@ == old(self)@ + dec_int(v as int),
    {
        self.serialize_i64(v as i64);
    }

    /// Write a 16-bit signed integer in decimal.
    pub fn serialize_i16(&mut self, v: i16)
        ensures
            final(self)@ == old(self)@ + dec_int(v as int),
    {
        self.serialize_i64(v as i64);
    }

    /// Write a 32-bit signed integer in decimal.
    pub fn serialize_i32(&mut self, v: i32)
        ensures
            final(self)@ == old(self)@ + dec_int(v as int),
    {
        self.serialize_i64(v as i64);
    }

    /// Write an 8-bit unsigned integer in decimal.
    pub fn serialize_u8(&mut self, v: u8)
        ensures
            final(self)@ == old(self)@ + dec_digits(v as nat),
    {
        self.serialize_u64(v as u64);
    }

    /// Write a 16-bit unsigned integer in decimal.
    pub fn serialize_u16(&mut self, v: u16)
        ensures
            final(self)@ == old(self)@ + dec_digits(v as nat),
    {
        self.serialize_u64(v as u64);
    }

    /// Write a 32-bit unsigned integer in decimal.
    pub fn serialize_u32(&mut self, v: u32)
        ensures
            final(self)@ == old(self)@ + dec_digits(v as nat),
    {
        self.serialize_u64(v as u64);
    }

    /// Write a float, which is canonical only as an exact integer:
    /// `Some(n)` writes the decimal form of `n`, `None` (NaN, an infinity,
    /// a fractional value, or one outside exact 64-bit range) is rejected
    /// with `NonCanonicalNumber` and writes nothing.
    pub fn serialize_float(&mut self, v: Option<i64>) -> (r: Result<(), Error>)
        ensures
            v matches Option::Some(n) ==> r == Result::<(), Error>::Ok(()) && final(self)@ == old(
                self,
            )@ + dec_int(n as int),
            v is None ==> r == Result::<(), Error>::Err(Error::NonCanonicalNumber) && final(self)@
                == old(self)@,
    {
        match v {
            Option::Some(n) => {
                self.serialize_i64(n);
                Ok(())
            },
            Option::None => Err(Error::NonCanonicalNumber),
        }
    }

    /// Write a string: escaped UTF-8 bytes in double quotes.
    pub fn serialize_str(&mut self, v: &str)
        ensures
            final(self)@ == old(self)@ + str_encoding(str_bytes(v@)),
    {
        escape_str(&mut self.out, v);
    }

    /// Write one character through the string path: a one-codepoint string.
    pub fn serialize_char(&mut self, v: char)
        ensures
            final(self)@ == old(self)@ + str_encoding(encode_scalar(v as u32)),
    {
        escape_char(&mut self.out, v);
    }

    /// Write a byte sequence as a JSON sequence of unsigned integers.
    pub fn serialize_bytes(&mut self, v: &[u8])
        ensures
            final(self)@ == old(self)@ + bytes_encoding(v@),
    {
        self.out.push(91);
        let n = v.len();
        let mut i: usize = 0;
        while i < n
            invariant
                i <= n,
                n == v@.len(),
                self.out@ == old(self).out@ + seq![91u8] + byte_items(
                    v@.take(i as int),
                ),
            decreases n - i,
        {
            if i > 0 {
                self.out.push(COMMA);
            }
            write_dec_u64(&mut self.out, v[i] as u64);
            proof {
                lemma_byte_items_push(v@.take(i as int), v@[i as int]);
                assert(v@.take(i as int).push(v@[i as int]) =~= v@.take(i + 1 as int));
                assert(self.out@ =~= old(self).out@ + seq![91u8] + byte_items(
                    v@.take(i + 1 as int),
                ));
            }
            i += 1;
        }
        self.out.push(93);
        proof {
            assert(v@.take(n as int) =~= v@);
            assert(final(self)@ =~= old(self)@ + bytes_encoding(v@));
        }
    }

    /// Write `null`, the encoding of the unit value.
    pub fn serialize_unit(&mut self)
        ensures
            final(self)@ == old(self)@ + null_bytes(),
    {
        self.out.push(110);
        self.out.push(117);
        self.out.push(108);
        self.out.push(108);
        proof {
            assert(final(self)@ =~= old(self)@ + null_bytes());
        }
    }

    /// An absent value encodes identically to an explicit null: canonical
    /// form has exactly one representation per logical value.
    pub fn serialize_none(&mut self)
        ensures
            final(self)@ == old(self)@ + null_bytes(),
    {
        self.serialize_unit();
    }

    /// A unit struct encodes as null.
    pub fn serialize_unit_struct(&mut self)
        ensures
            final(self)@ == old(self)@ + null_bytes(),
    {
        self.serialize_unit();
    }

    /// A unit variant encodes as its tag name, a plain string.
    pub fn serialize_unit_variant(&mut self, variant: &str)
        ensures
            final(self)@ == old(self)@ + str_encoding(str_bytes(variant@)),
    {
        self.serialize_str(variant);
    }

    /// Open a sequence. A length hint of exactly zero writes the empty form
    /// `[]` at once and marks the frame `Empty`, so that `end` writes
    /// nothing further; any other hint (or none) writes `[`.
    pub fn serialize_seq(&mut self, len: Option<usize>) -> (c: Compound)
        ensures
            len == Option::Some(0usize) ==> final(self)@ == old(self)@ + seq![91u8, 93u8]
                && c.state == State::Empty,
            len != Option::Some(0usize) ==> final(self)@ == old(self)@ + seq![91u8] && c.state
                == State::First,
    {
        match len {
            Option::Some(0) => {
                self.out.push(91);
                self.out.push(93);
                proof {
                    assert(final(self)@ =~= old(self)@ + seq![91u8, 93u8]);
                }
                Compound { state: State::Empty }
            },
            _ => {
                self.out.push(91);
                Compound { state: State::First }
            },
        }
    }

    /// Open a tuple: a sequence of known length.
    pub fn serialize_tuple(&mut self, len: usize) -> (c: Compound)
        ensures
            len == 0 ==> final(self)@ == old(self)@ + seq![91u8, 93u8] && c.state == State::Empty,
            len != 0 ==> final(self)@ == old(self)@ + seq![91u8] && c.state == State::First,
    {
        self.serialize_seq(Some(len))
    }

    /// Open a tuple struct: encoded as its fields in order, a sequence.
    pub fn serialize_tuple_struct(&mut self, len: usize) -> (c: Compound)
        ensures
            len == 0 ==> final(self)@ == old(self)@ + seq![91u8, 93u8] && c.state == State::Empty,
            len != 0 ==> final(self)@ == old(self)@ + seq![91u8] && c.state == State::First,
    {
        self.serialize_seq(Some(len))
    }

    /// Open a tuple variant: the externally tagged form `{"Tag":[...]}`.
    /// The tag wrapper and the payload are two independently tracked
    /// frames; `end_variant` closes the payload, then the wrapper.
    pub fn serialize_tuple_variant(&mut self, variant: &str, len: usize) -> (c: Compound)
        ensures
            final(self)@ == old(self)@ + seq![123u8] + str_encoding(str_bytes(variant@)) + seq![
                COLON,
            ] + if len == 0 {
                seq![91u8, 93u8]
            } else {
                seq![91u8]
            },
            c.state == if len == 0 {
                State::Empty
            } else {
                State::First
            },
    {
        self.out.push(123);
        self.serialize_str(variant);
        self.out.push(COLON);
        let c = self.serialize_seq(Some(len));
        proof {
            assert(final(self)@ =~= old(self)@ + seq![123u8] + str_encoding(str_bytes(variant@))
                + seq![COLON] + if len == 0 {
                seq![91u8, 93u8]
            } else {
                seq![91u8]
            });
        }
        c
    }

    /// Open a mapping. A length hint of exactly zero writes the empty form
    /// `{}` at once and marks the frame `Empty`; any other hint (or none)
    /// writes `{`.
    pub fn serialize_map(&mut self, len: Option<usize>) -> (c: OrderedKeyCompound)
        ensures
            len == Option::Some(0usize) ==> final(self)@ == old(self)@ + seq![123u8, 125u8]
                && c.state == State::Empty,
            len != Option::Some(0usize) ==> final(self)@ == old(self)@ + seq![123u8] && c.state
                == State::First,
            c.cur_key is None,
    {
        match len {
            Option::Some(0) => {
                self.out.push(123);
                self.out.push(125);
                proof {
                    assert(final(self)@ =~= old(self)@ + seq![123u8, 125u8]);
                }
                OrderedKeyCompound { state: State::Empty, cur_key: None }
            },
            _ => {
                self.out.push(123);
                OrderedKeyCompound { state: State::First, cur_key: None }
            },
        }
    }

    /// Open a record: encoded as a mapping of its fields.
    pub fn serialize_struct(&mut self, len: usize) -> (c: OrderedKeyCompound)
        ensures
            len == 0 ==> final(self)@ == old(self)@ + seq![123u8, 125u8] && c.state == State::Empty,
            len != 0 ==> final(self)@ == old(self)@ + seq![123u8] && c.state == State::First,
            c.cur_key is None,
    {
        self.serialize_map(Some(len))
    }

    /// Open a record variant: the externally tagged form `{"Tag":{...}}`.
    pub fn serialize_struct_variant(&mut self, variant: &str, len: usize) -> (c:
        OrderedKeyCompound)
        ensures
            final(self)@ == old(self)@ + seq![123u8] + str_encoding(str_bytes(variant@)) + seq![
                COLON,
            ] + if len == 0 {
                seq![123u8, 125u8]
            } else {
                seq![123u8]
            },
            c.state == if len == 0 {
                State::Empty
            } else {
                State::First
            },
            c.cur_key is None,
    {
        self.out.push(123);
        self.serialize_str(variant);
        self.out.push(COLON);
        let c = self.serialize_map(Some(len));
        proof {
            assert(final(self)@ =~= old(self)@ + seq![123u8] + str_encoding(str_bytes(variant@))
                + seq![COLON] + if len == 0 {
                seq![123u8, 125u8]
            } else {
                seq![123u8]
            });
        }
        c
    }
}

impl Serializer {
    /// A present optional value encodes as the value itself.
    pub fn serialize_some(&mut self, value: &CanonicalValue) -> (r: Result<(), Error>)
        ensures
            match r {
                Ok(()) => canonical(*value) && final(self)@ == old(self)@ + encoding(*value),
                Err(e) => !canonical(*value) && e == encode_err(*value),
            },
    {
        self.serialize_value(value)
    }

    /// A newtype struct encodes as its inner value, transparently.
    pub fn serialize_newtype_struct(&mut self, value: &CanonicalValue) -> (r: Result<(), Error>)
        ensures
            match r {
                Ok(()) => canonical(*value) && final(self)@ == old(self)@ + encoding(*value),
                Err(e) => !canonical(*value) && e == encode_err(*value),
            },
    {
        self.serialize_value(value)
    }

    /// A variant carrying one value encodes in the externally tagged form
    /// `{"Tag":value}`.
    pub fn serialize_newtype_variant(&mut self, variant: &str, value: &CanonicalValue) -> (r:
        Result<(), Error>)
        ensures
            match r {
                Ok(()) => canonical(*value) && final(self)@ == old(self)@ + seq![123u8]
                    + str_encoding(str_bytes(variant@)) + seq![COLON] + encoding(*value) + seq![
                    125u8,
                ],
                Err(e) => !canonical(*value) && e == encode_err(*value),
            },
    {
        self.out.push(123);
        self.serialize_str(variant);
        self.out.push(COLON);
        match self.serialize_value(value) {
            Err(e) => {
                return Err(e);
            },
            Ok(()) => {},
        }
        self.out.push(125);
        proof {
            assert(final(self)@ =~= old(self)@ + seq![123u8] + str_encoding(str_bytes(variant@))
                + seq![COLON] + encoding(*value) + seq![125u8]);
        }
        Ok(())
    }

    /// Encode one whole value: dispatch on its shape, opening a compound
    /// frame for sequences and mappings and recursing into nested values.
    /// Succeeds exactly on canonical values, writing their one encoding;
    /// fails with the error of the first offending datum, leaving any bytes
    /// already written in place.
    #[verifier::loop_isolation(false)]
    pub fn serialize_value(&mut self, v: &CanonicalValue) -> (r: Result<(), Error>)
        ensures
            match r {
                Ok(()) => canonical(*v) && final(self)@ == old(self)@ + encoding(*v),
                Err(e) => !canonical(*v) && e == encode_err(*v),
            },
        decreases v, 0int,
    {
        match v {
            CanonicalValue::Null => {
                self.serialize_unit();
                Ok(())
            },
            CanonicalValue::Bool(b) => {
                self.serialize_bool(*b);
                Ok(())
            },
            CanonicalValue::Int(i) => {
                self.serialize_i64(*i);
                Ok(())
            },
            CanonicalValue::UInt(u) => {
                self.serialize_u64(*u);
                Ok(())
            },
            CanonicalValue::Float(f) => self.serialize_float(*f),
            CanonicalValue::Text(s) => {
                self.serialize_str(s.as_str());
                Ok(())
            },
            CanonicalValue::Array(els) => {
                let n = els.len();
                let mut frame = self.serialize_seq(Some(n));
                if n == 0 {
                    frame.end(self);
                    proof {
                        assert(final(self)@ =~= old(self)@ + encoding(*v));
                    }
                    return Ok(());
                }
                let mut i: usize = 0;
                while i < n
                    invariant
                        0 < n == els@.len(),
                        i <= n,
                        frame.state == (if i == 0 {
                            State::First
                        } else {
                            State::Rest
                        }),
                        self@ == old(self)@ + seq![91u8] + arr_encoding(els@.take(i as int)),
                        forall|j: int| 0 <= j < i ==> canonical(#[trigger] els@[j]),
                    decreases n - i,
                {
                    proof {
                        assert(decreases_to!(*els => els@));
                        assert(decreases_to!(els@ => els@[i as int]));
                    }
                    match frame.serialize_element(self, &els[i]) {
                        Err(e) => {
                            proof {
                                lemma_arr_err_at(els@, i as int);
                            }
                            return Err(e);
                        },
                        Ok(()) => {},
                    }
                    proof {
                        lemma_arr_encoding_push(els@.take(i as int), els@[i as int]);
                        assert(els@.take(i as int).push(els@[i as int]) =~= els@.take(
                            i + 1 as int,
                        ));
                        assert(self@ =~= old(self)@ + seq![91u8] + arr_encoding(els@.take(
                            i + 1 as int,
                        )));
                    }
                    i += 1;
                }
                frame.end(self);
                proof {
                    assert(els@.take(n as int) =~= els@);
                    lemma_arr_canonical_from(els@);
                    assert(final(self)@ =~= old(self)@ + encoding(*v));
                }
                Ok(())
            },
            CanonicalValue::Object(es) => {
                let n = es.len();
                let mut frame = self.serialize_map(Some(n));
                if n == 0 {
                    frame.end(self);
                    proof {
                        assert(final(self)@ =~= old(self)@ + encoding(*v));
                    }
                    return Ok(());
                }
                let mut i: usize = 0;
                while i < n
                    invariant
                        0 < n == es@.len(),
                        i <= n,
                        frame.state == (if i == 0 {
                            State::First
                        } else {
                            State::Rest
                        }),
                        frame.prev_bytes() == entry_prev(es@, i as int),
                        self@ == old(self)@ + seq![123u8] + obj_encoding(es@.take(i as int)),
                        forall|j: int| 0 <= j < i ==> canonical(#[trigger] es@[j].1),
                        forall|j: int| 0 <= j && j + 1 < i ==> lex_lt(
                            str_bytes(#[trigger] es@[j].0@),
                            str_bytes(es@[j + 1].0@),
                        ),
                    decreases n - i,
                {
                    let entry = &es[i];
                    proof {
                        assert(decreases_to!(*es => es@));
                        assert(decreases_to!(es@ => es@[i as int]));
                        assert(decreases_to!(es@[i as int] => es@[i as int].1));
                    }
                    match frame.serialize_field(self, entry.0.as_str(), &entry.1) {
                        Err(e) => {
                            proof {
                                lemma_obj_err_at(es@, Option::None, i as int);
                            }
                            return Err(e);
                        },
                        Ok(()) => {},
                    }
                    proof {
                        lemma_obj_encoding_push(es@.take(i as int), es@[i as int]);
                        assert(es@.take(i as int).push(es@[i as int]) =~= es@.take(i + 1 as int));
                        assert(self@ =~= old(self)@ + seq![123u8] + obj_encoding(es@.take(
                            i + 1 as int,
                        )));
                        if i > 0 {
                            assert(lex_lt(str_bytes(es@[i - 1].0@), str_bytes(es@[i as int].0@)));
                        }
                    }
                    i += 1;
                }
                frame.end(self);
                proof {
                    assert(es@.take(n as int) =~= es@);
                    lemma_obj_canonical_from(es@, Option::None);
                    assert(final(self)@ =~= old(self)@ + encoding(*v));
                }
                Ok(())
            },
        }
    }
}

/// Encode a value to its canonical byte sequence. Succeeds exactly on
/// canonical values — every mapping's keys strictly ascending and unique,
/// every float an exact integer — and then returns their single canonical
/// form; otherwise fails with the error of the first offending datum.
pub fn to_vec(value: &CanonicalValue) -> (r: Result<Vec<u8>, Error>)
    ensures
        match r {
            Ok(b) => canonical(*value) && b@ == encoding(*value),
            Err(e) => !canonical(*value) && e == encode_err(*value),
        },
        encode_spec(*value) == match r {
            Ok(b) => Result::<Seq<u8>, Error>::Ok(b@),
            Err(e) => Result::<Seq<u8>, Error>::Err(e),
        },
{
    let mut ser = Serializer::new();
    match ser.serialize_value(value) {
        Ok(()) => {
            let b = ser.into_bytes();
            proof {
                assert(b@ =~= encoding(*value));
            }
            Ok(b)
        },
        Err(e) => Err(e),
    }
}

/// Relies on String::from_utf8: a vector of valid UTF-8 bytes becomes the
/// string made of exactly those bytes.
#[verifier::external_body]
fn string_from_utf8(v: Vec<u8>) -> (r: String)
    requires
        valid_utf8(v@),
    ensures
        encode_utf8(r@) == v@,
{
    String::from_utf8(v).unwrap()
}

/// Encode a value to its canonical form as text. The canonical encoding of
/// a canonical value is always valid UTF-8, so this succeeds exactly where
/// [`to_vec`] does, returning the string whose UTF-8 bytes are the
/// canonical encoding.
pub fn to_string(value: &CanonicalValue) -> (r: Result<String, Error>)
    ensures
        match r {
            Ok(s) => canonical(*value) && encode_utf8(s@) == encoding(*value),
            Err(e) => !canonical(*value) && e == encode_err(*value),
        },
{
    match to_vec(value) {
        Ok(bytes) => {
            proof {
                lemma_encoding_valid(*value);
            }
            Ok(string_from_utf8(bytes))
        },
        Err(e) => Err(e),
    }
}

impl Compound {
    /// Encode one element of a sequence: the separator owed by the frame,
    /// then the element itself; `Rest` sticks from here on.
    pub fn serialize_element(&mut self, ser: &mut Serializer, v: &CanonicalValue) -> (r: Result<
        (),
        Error,
    >)
        ensures
            final(self).state == State::Rest,
            match r {
                Ok(()) => canonical(*v) && final(ser)@ == old(ser)@ + sep(old(self).state)
                    + encoding(*v),
                Err(e) => !canonical(*v) && e == encode_err(*v),
            },
        decreases v, 1int,
    {
        match self.state {
            State::Rest => {
                ser.out.push(COMMA);
            },
            _ => {},
        }
        self.state = State::Rest;
        match ser.serialize_value(v) {
            Err(e) => Err(e),
            Ok(()) => {
                proof {
                    assert(final(ser)@ =~= old(ser)@ + sep(old(self).state) + encoding(*v));
                }
                Ok(())
            },
        }
    }

    /// Close a sequence: `]`, unless the frame is `Empty` (its `[]` is
    /// already written).
    pub fn end(self, ser: &mut Serializer)
        ensures
            final(ser)@ == old(ser)@ + if self.state == State::Empty {
                Seq::<u8>::empty()
            } else {
                seq![93u8]
            },
    {
        match self.state {
            State::Empty => {},
            _ => {
                ser.out.push(93);
            },
        }
        proof {
            assert(final(ser)@ =~= old(ser)@ + if self.state == State::Empty {
                Seq::<u8>::empty()
            } else {
                seq![93u8]
            });
        }
    }

    /// Close a tuple-variant payload, then its tag wrapper: `]` (unless
    /// `Empty`) followed by `}` — the payload's closer comes first.
    pub fn end_variant(self, ser: &mut Serializer)
        ensures
            final(ser)@ == old(ser)@ + (if self.state == State::Empty {
                Seq::<u8>::empty()
            } else {
                seq![93u8]
            }) + seq![125u8],
    {
        match self.state {
            State::Empty => {},
            _ => {
                ser.out.push(93);
            },
        }
        ser.out.push(125);
        proof {
            assert(final(ser)@ =~= old(ser)@ + (if self.state == State::Empty {
                Seq::<u8>::empty()
            } else {
                seq![93u8]
            }) + seq![125u8]);
        }
    }
}

impl OrderedKeyCompound {
    /// Write the separator owed before a new entry and make `Rest` stick.
    fn begin_entry(&mut self, ser: &mut Serializer)
        ensures
            final(ser)@ == old(ser)@ + sep(old(self).state),
            final(self).state == State::Rest,
            final(self).cur_key == old(self).cur_key,
    {
        match self.state {
            State::Rest => {
                ser.out.push(COMMA);
                proof {
                    assert(final(ser)@ =~= old(ser)@ + sep(old(self).state));
                }
            },
            _ => {
                proof {
                    assert(final(ser)@ =~= old(ser)@ + sep(old(self).state));
                }
            },
        }
        self.state = State::Rest;
    }

    /// The ascending-key guard: accept `key` only if it sorts strictly
    /// after the last accepted key of this frame, write its quoted form,
    /// and remember it. A repeat of the previous key fails with
    /// `DuplicateKey`; a key sorting before it fails with `UnorderedKey`.
    fn accept_key(&mut self, ser: &mut Serializer, key: &str) -> (r: Result<(), Error>)
        ensures
            final(self).state == old(self).state,
            match r {
                Ok(()) => {
                    &&& key_ok(old(self).prev_bytes(), str_bytes(key@))
                    &&& final(ser)@ == old(ser)@ + str_encoding(str_bytes(key@))
                    &&& final(self).prev_bytes() == Option::Some(str_bytes(key@))
                },
                Err(e) => {
                    &&& !key_ok(old(self).prev_bytes(), str_bytes(key@))
                    &&& e == key_err(old(self).prev_bytes(), str_bytes(key@))
                    &&& final(ser)@ == old(ser)@
                    &&& final(self).cur_key == old(self).cur_key
                },
            },
    {
        match &self.cur_key {
            Some(prev) => {
                match lex_cmp(key.as_bytes(), prev.as_str().as_bytes()) {
                    KeyOrder::Equal => {
                        return Err(Error::DuplicateKey);
                    },
                    KeyOrder::Less => {
                        return Err(Error::UnorderedKey);
                    },
                    KeyOrder::Greater => {},
                }
            },
            None => {},
        }
        escape_str(&mut ser.out, key);
        self.cur_key = Some(key.to_owned());
        Ok(())
    }

    /// Route a key through the guard. Only a string shape is accepted;
    /// every other shape fails with `KeyMustBeString`. The separator owed
    /// by the frame is written before the key is judged, as for any entry.
    pub fn serialize_key(&mut self, ser: &mut Serializer, key: &CanonicalValue) -> (r: Result<
        (),
        Error,
    >)
        ensures
            final(self).state == State::Rest,
            match r {
                Ok(()) => {
                    &&& *key matches CanonicalValue::Text(k)
                    &&& key_ok(old(self).prev_bytes(), str_bytes(k@))
                    &&& final(ser)@ == old(ser)@ + sep(old(self).state) + str_encoding(
                        str_bytes(k@),
                    )
                    &&& final(self).prev_bytes() == Option::Some(str_bytes(k@))
                },
                Err(e) => {
                    &&& final(ser)@ == old(ser)@ + sep(old(self).state)
                    &&& final(self).cur_key == old(self).cur_key
                    &&& match *key {
                        CanonicalValue::Text(k) => !key_ok(old(self).prev_bytes(), str_bytes(k@))
                            && e == key_err(old(self).prev_bytes(), str_bytes(k@)),
                        _ => e == Error::KeyMustBeString,
                    }
                },
            },
    {
        self.begin_entry(ser);
        match key {
            CanonicalValue::Text(k) => self.accept_key(ser, k.as_str()),
            _ => Err(Error::KeyMustBeString),
        }
    }

    /// Encode the value half of a mapping entry: a colon, then the value.
    pub fn serialize_value(&mut self, ser: &mut Serializer, v: &CanonicalValue) -> (r: Result<
        (),
        Error,
    >)
        ensures
            final(self).state == old(self).state,
            final(self).cur_key == old(self).cur_key,
            match r {
                Ok(()) => canonical(*v) && final(ser)@ == old(ser)@ + seq![COLON] + encoding(*v),
                Err(e) => !canonical(*v) && e == encode_err(*v),
            },
        decreases v, 1int,
    {
        ser.out.push(COLON);
        match ser.serialize_value(v) {
            Err(e) => Err(e),
            Ok(()) => {
                proof {
                    assert(final(ser)@ =~= old(ser)@ + seq![COLON] + encoding(*v));
                }
                Ok(())
            },
        }
    }

    /// Encode one whole mapping entry: the separator owed by the frame, the
    /// key through the ascending-key guard, a colon, and the value.
    pub fn serialize_field(&mut self, ser: &mut Serializer, key: &str, value: &CanonicalValue) -> (r:
        Result<(), Error>)
        ensures
            final(self).state == State::Rest,
            match r {
                Ok(()) => {
                    &&& key_ok(old(self).prev_bytes(), str_bytes(key@))
                    &&& canonical(*value)
                    &&& final(ser)@ == old(ser)@ + sep(old(self).state) + entry_bytes(
                        str_bytes(key@),
                        encoding(*value),
                    )
                    &&& final(self).prev_bytes() == Option::Some(str_bytes(key@))
                },
                Err(e) => {
                    &&& !key_ok(old(self).prev_bytes(), str_bytes(key@)) || !canonical(*value)
                    &&& e == if !key_ok(old(self).prev_bytes(), str_bytes(key@)) {
                        key_err(old(self).prev_bytes(), str_bytes(key@))
                    } else {
                        encode_err(*value)
                    }
                },
            },
        decreases value, 2int,
    {
        self.begin_entry(ser);
        match self.accept_key(ser, key) {
            Err(e) => {
                return Err(e);
            },
            Ok(()) => {},
        }
        match self.serialize_value(ser, value) {
            Err(e) => Err(e),
            Ok(()) => {
                proof {
                    assert(final(ser)@ =~= old(ser)@ + sep(old(self).state) + entry_bytes(
                        str_bytes(key@),
                        encoding(*value),
                    ));
                }
                Ok(())
            },
        }
    }

    /// Close a mapping: `}`, unless the frame is `Empty` (its `{}` is
    /// already written).
    pub fn end(self, ser: &mut Serializer)
        ensures
            final(ser)@ == old(ser)@ + if self.state == State::Empty {
                Seq::<u8>::empty()
            } else {
                seq![125u8]
            },
    {
        match self.state {
            State::Empty => {},
            _ => {
                ser.out.push(125);
            },
        }
        proof {
            assert(final(ser)@ =~= old(ser)@ + if self.state == State::Empty {
                Seq::<u8>::empty()
            } else {
                seq![125u8]
            });
        }
    }

    /// Close a record-variant payload, then its tag wrapper: `}` (unless
    /// `Empty`) followed by `}` — the payload's closer comes first.
    pub fn end_variant(self, ser: &mut Serializer)
        ensures
            final(ser)@ == old(ser)@ + (if self.state == State::Empty {
                Seq::<u8>::empty()
            } else {
                seq![125u8]
            }) + seq![125u8],
    {
        match self.state {
            State::Empty => {},
            _ => {
                ser.out.push(125);
            },
        }
        ser.out.push(125);
        proof {
            assert(final(ser)@ =~= old(ser)@ + (if self.state == State::Empty {
                Seq::<u8>::empty()
            } else {
                seq![125u8]
            }) + seq![125u8]);
        }
    }
}

} // verus!
