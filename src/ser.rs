//! The encoder: appends RESP frames for each shape of a value.
use vstd::prelude::*;
use vstd::utf8::{decode_utf8, encode_utf8, valid_utf8};
use crate::error::Error;
use crate::grammar::{
    array_header, bool_frame, bulk_frame, crlf, decimal, has_line_break, int_frame, int_text, none_frame,
    null_frame, simple_frame, text_frame, variant_header, field_header,
};

verus! {

/// Appends the decimal digits of `n`.
pub(crate) fn push_decimal(out: &mut Vec<u8>, n: u64)
    ensures
        final(out)@ == old(out)@ + decimal(n as nat),
    decreases n,
{
    if n >= 10 {
        push_decimal(out, n / 10);
    }
    out.push((48 + n % 10) as u8);
    proof {
        assert(out@ =~= old(out)@ + decimal(n as nat));
    }
}

/// Appends every byte of `b`.
pub(crate) fn push_all(out: &mut Vec<u8>, b: &[u8])
    ensures
        final(out)@ == old(out)@ + b@,
{
    let mut i: usize = 0;
    while i < b.len()
        invariant
            i <= b@.len(),
            out@ == old(out)@ + b@.subrange(0, i as int),
        decreases b@.len() - i,
    {
        out.push(b[i]);
        i = i + 1;
        proof {
            assert(out@ =~= old(out)@ + b@.subrange(0, i as int));
        }
    }
    proof {
        assert(b@.subrange(0, i as int) =~= b@);
    }
}

/// Appends `\r\n`.
pub(crate) fn push_crlf(out: &mut Vec<u8>)
    ensures
        final(out)@ == old(out)@ + crlf(),
{
    out.push(13u8);
    out.push(10u8);
    proof {
        assert(out@ =~= old(out)@ + crlf());
    }
}

/// Appends the decimal text of `v`.
pub(crate) fn push_int_text(out: &mut Vec<u8>, v: i64)
    ensures
        final(out)@ == old(out)@ + int_text(v as int),
{
    if v < 0 {
        out.push(45u8);
        let m: u64 = (-(v as i128)) as u64;
        push_decimal(out, m);
        proof {
            assert(out@ =~= old(out)@ + int_text(v as int));
        }
    } else {
        push_decimal(out, v as u64);
    }
}

/// Appends an integer frame for `v`.
pub(crate) fn push_int_frame(out: &mut Vec<u8>, v: i64)
    ensures
        final(out)@ == old(out)@ + int_frame(v as int),
{
    out.push(58u8);
    push_int_text(out, v);
    push_crlf(out);
    proof {
        assert(out@ =~= old(out)@ + int_frame(v as int));
    }
}

/// Appends an integer frame for `v`.
pub(crate) fn push_uint_frame(out: &mut Vec<u8>, v: u64)
    ensures
        final(out)@ == old(out)@ + int_frame(v as int),
{
    out.push(58u8);
    push_decimal(out, v);
    push_crlf(out);
    proof {
        assert(out@ =~= old(out)@ + int_frame(v as int));
    }
}

/// Appends an array header for `n` elements.
pub(crate) fn push_array_header(out: &mut Vec<u8>, n: u64)
    ensures
        final(out)@ == old(out)@ + array_header(n as nat),
{
    out.push(42u8);
    push_decimal(out, n);
    push_crlf(out);
    proof {
        assert(out@ =~= old(out)@ + array_header(n as nat));
    }
}

/// Appends a bulk string frame holding `b`.
pub(crate) fn push_bulk_frame(out: &mut Vec<u8>, b: &[u8])
    ensures
        final(out)@ == old(out)@ + bulk_frame(b@),
{
    out.push(36u8);
    push_decimal(out, b.len() as u64);
    push_crlf(out);
    push_all(out, b);
    push_crlf(out);
    proof {
        assert(out@ =~= old(out)@ + bulk_frame(b@));
    }
}

/// Whether `b` holds a `\r` or a `\n`.
pub fn contains_line_break(b: &[u8]) -> (r: bool)
    ensures
        r == has_line_break(b@),
{
    let mut i: usize = 0;
    while i < b.len()
        invariant
            i <= b@.len(),
            forall|j: int| 0 <= j < i ==> b@[j] != 13 && b@[j] != 10,
        decreases b@.len() - i,
    {
        if b[i] == 13 || b[i] == 10 {
            return true;
        }
        i = i + 1;
    }
    false
}

/// Appends the frame of a text given by its bytes.
pub(crate) fn push_text_frame(out: &mut Vec<u8>, b: &[u8])
    ensures
        final(out)@ == old(out)@ + text_frame(b@),
{
    if contains_line_break(b) {
        push_bulk_frame(out, b);
    } else {
        push_simple_frame(out, b);
    }
}

/// Appends a simple string frame holding `b`.
pub(crate) fn push_simple_frame(out: &mut Vec<u8>, b: &[u8])
    ensures
        final(out)@ == old(out)@ + simple_frame(b@),
{
    out.push(43u8);
    push_all(out, b);
    push_crlf(out);
    proof {
        assert(out@ =~= old(out)@ + simple_frame(b@));
    }
}

/// Relies on `char::to_string`: the one-character string of `c`.
#[verifier::external_body]
fn char_to_string(c: char) -> (r: String)
    ensures
        r@ == seq![c],
{
    c.to_string()
}

/// Relies on `String::from_utf8`: it succeeds exactly on well-formed UTF-8, and the
/// string then holds the characters those bytes encode.
#[verifier::external_body]
pub(crate) fn string_from_utf8(b: Vec<u8>) -> (r: Option<String>)
    ensures
        r is Some <==> valid_utf8(b@),
        r is Some ==> r->0@ == decode_utf8(b@),
{
    String::from_utf8(b).ok()
}

/// An encoder that appends RESP frames to a byte buffer it owns.
///
/// Each method appends the frames of one shape of the data model. Compound
/// shapes are written as a header followed by the encodings of their parts,
/// which the caller appends with further calls, in order.
pub struct Serializer {
    output: Vec<u8>,
}

impl View for Serializer {
    type V = Seq<u8>;

    closed spec fn view(&self) -> Seq<u8> {
        self.output@
    }
}

impl Serializer {
    /// An encoder with an empty output.
    pub fn new() -> (s: Serializer)
        ensures
            s@ == Seq::<u8>::empty(),
    {
        Serializer { output: Vec::new() }
    }

    /// The bytes written so far.
    pub fn output(&self) -> (r: &Vec<u8>)
        ensures
            r@ == self@,
    {
        &self.output
    }

    /// The bytes written, as a byte vector.
    pub fn into_bytes(self) -> (r: Vec<u8>)
        ensures
            r@ == self@,
    {
        self.output
    }

    /// The bytes written, as text; `Utf8` when they are not well-formed UTF-8.
    pub fn into_string(self) -> (r: Result<String, Error>)
        ensures
            r is Ok <==> valid_utf8(self@),
            r is Ok ==> r->Ok_0@ == decode_utf8(self@),
            r is Err ==> r == Err::<String, Error>(Error::Utf8),
    {
        match string_from_utf8(self.output) {
            Some(s) => Ok(s),
            None => Err(Error::Utf8),
        }
    }

    /// A boolean, as the integer 1 or 0.
    pub fn serialize_bool(&mut self, v: bool)
        ensures
            final(self)@ == old(self)@ + bool_frame(v),
    {
        push_int_frame(&mut self.output, if v { 1 } else { 0 });
    }

    /// A signed 8-bit integer.
    pub fn serialize_i8(&mut self, v: i8)
        ensures
            final(self)@ == old(self)@ + int_frame(v as int),
    {
        self.serialize_i64(v as i64);
    }

    /// A signed 16-bit integer.
    pub fn serialize_i16(&mut self, v: i16)
        ensures
            final(self)@ == old(self)@ + int_frame(v as int),
    {
        self.serialize_i64(v as i64);
    }

    /// A signed 32-bit integer.
    pub fn serialize_i32(&mut self, v: i32)
        ensures
            final(self)@ == old(self)@ + int_frame(v as int),
    {
        self.serialize_i64(v as i64);
    }

    /// A signed 64-bit integer.
    pub fn serialize_i64(&mut self, v: i64)
        ensures
            final(self)@ == old(self)@ + int_frame(v as int),
    {
        push_int_frame(&mut self.output, v);
    }

    /// An unsigned 8-bit integer.
    pub fn serialize_u8(&mut self, v: u8)
        ensures
            final(self)@ == old(self)@ + int_frame(v as int),
    {
        self.serialize_u64(v as u64);
    }

    /// An unsigned 16-bit integer.
    pub fn serialize_u16(&mut self, v: u16)
        ensures
            final(self)@ == old(self)@ + int_frame(v as int),
    {
        self.serialize_u64(v as u64);
    }

    /// An unsigned 32-bit integer.
    pub fn serialize_u32(&mut self, v: u32)
        ensures
            final(self)@ == old(self)@ + int_frame(v as int),
    {
        self.serialize_u64(v as u64);
    }

    /// An unsigned 64-bit integer.
    pub fn serialize_u64(&mut self, v: u64)
        ensures
            final(self)@ == old(self)@ + int_frame(v as int),
    {
        push_uint_frame(&mut self.output, v);
    }

    /// A character, as the text of its UTF-8 encoding.
    pub fn serialize_char(&mut self, v: char)
        ensures
            final(self)@ == old(self)@ + text_frame(encode_utf8(seq![v])),
    {
        let s = char_to_string(v);
        self.serialize_str(s.as_str());
    }

    /// A text: a simple string when it holds no line break, else a bulk string.
    pub fn serialize_str(&mut self, v: &str)
        ensures
            final(self)@ == old(self)@ + text_frame(encode_utf8(v@)),
    {
        push_text_frame(&mut self.output, v.as_bytes());
    }

    /// Raw bytes, always as a bulk string.
    pub fn serialize_bytes(&mut self, v: &[u8])
        ensures
            final(self)@ == old(self)@ + bulk_frame(v@),
    {
        push_bulk_frame(&mut self.output, v);
    }

    /// An absent optional: an empty array.
    pub fn serialize_none(&mut self)
        ensures
            final(self)@ == old(self)@ + none_frame(),
    {
        push_array_header(&mut self.output, 0);
    }

    /// Opens a present optional: a one-element array; the value follows.
    pub fn serialize_some(&mut self)
        ensures
            final(self)@ == old(self)@ + array_header(1),
    {
        push_array_header(&mut self.output, 1);
    }

    /// The unit value: the null bulk string.
    pub fn serialize_unit(&mut self)
        ensures
            final(self)@ == old(self)@ + null_frame(),
    {
        self.output.push(36u8);
        self.output.push(45u8);
        self.output.push(49u8);
        push_crlf(&mut self.output);
        proof {
            assert(self@ =~= old(self)@ + null_frame());
        }
    }

    /// A unit struct, encoded as the unit value.
    pub fn serialize_unit_struct(&mut self)
        ensures
            final(self)@ == old(self)@ + null_frame(),
    {
        self.serialize_unit();
    }

    /// A variant without payload: its name as text.
    pub fn serialize_unit_variant(&mut self, variant: &str)
        ensures
            final(self)@ == old(self)@ + text_frame(encode_utf8(variant@)),
    {
        self.serialize_str(variant);
    }

    /// Opens a variant with one value: `[name, value]`; the value follows.
    pub fn serialize_newtype_variant(&mut self, variant: &str)
        ensures
            final(self)@ == old(self)@ + variant_header(encode_utf8(variant@)),
    {
        push_array_header(&mut self.output, 2);
        self.serialize_str(variant);
        proof {
            assert(self@ =~= old(self)@ + variant_header(encode_utf8(variant@)));
        }
    }

    /// Opens a sequence of `len` elements; `LenNotKnown`, with nothing written,
    /// when the length is not known.
    pub fn serialize_seq(&mut self, len: Option<usize>) -> (r: Result<(), Error>)
        ensures
            len is None ==> r == Err::<(), Error>(Error::LenNotKnown) && final(self)@ == old(self)@,
            len is Some ==> r is Ok && final(self)@ == old(self)@ + array_header(len->0 as nat),
    {
        match len {
            Some(n) => {
                push_array_header(&mut self.output, n as u64);
                Ok(())
            },
            None => Err(Error::LenNotKnown),
        }
    }

    /// Opens a tuple of `len` elements.
    pub fn serialize_tuple(&mut self, len: usize)
        ensures
            final(self)@ == old(self)@ + array_header(len as nat),
    {
        push_array_header(&mut self.output, len as u64);
    }

    /// Opens a tuple struct of `len` fields.
    pub fn serialize_tuple_struct(&mut self, len: usize)
        ensures
            final(self)@ == old(self)@ + array_header(len as nat),
    {
        push_array_header(&mut self.output, len as u64);
    }

    /// Opens a tuple variant: `[name, [f0, f1, ...]]`; the `len` fields follow.
    pub fn serialize_tuple_variant(&mut self, variant: &str, len: usize)
        ensures
            final(self)@ == old(self)@ + variant_header(encode_utf8(variant@)) + array_header(
                len as nat,
            ),
    {
        self.serialize_newtype_variant(variant);
        push_array_header(&mut self.output, len as u64);
        proof {
            assert(self@ =~= old(self)@ + variant_header(encode_utf8(variant@)) + array_header(
                len as nat,
            ));
        }
    }

    /// Opens a map of `len` entries; `LenNotKnown`, with nothing written, when
    /// the length is not known.
    pub fn serialize_map(&mut self, len: Option<usize>) -> (r: Result<(), Error>)
        ensures
            len is None ==> r == Err::<(), Error>(Error::LenNotKnown) && final(self)@ == old(self)@,
            len is Some ==> r is Ok && final(self)@ == old(self)@ + array_header(len->0 as nat),
    {
        self.serialize_seq(len)
    }

    /// Opens one map entry: a two-element array; the key and the value follow.
    pub fn serialize_entry(&mut self)
        ensures
            final(self)@ == old(self)@ + array_header(2),
    {
        push_array_header(&mut self.output, 2);
    }

    /// Opens a record of `len` fields.
    pub fn serialize_struct(&mut self, len: usize)
        ensures
            final(self)@ == old(self)@ + array_header(len as nat),
    {
        push_array_header(&mut self.output, len as u64);
    }

    /// Opens a record variant: `[name, [[k0, v0], ...]]`; the `len` fields follow.
    pub fn serialize_struct_variant(&mut self, variant: &str, len: usize)
        ensures
            final(self)@ == old(self)@ + variant_header(encode_utf8(variant@)) + array_header(
                len as nat,
            ),
    {
        self.serialize_tuple_variant(variant, len);
    }

    /// Opens one record field: `[key, value]`; the value follows.
    pub fn serialize_field(&mut self, key: &str)
        ensures
            final(self)@ == old(self)@ + field_header(encode_utf8(key@)),
    {
        push_array_header(&mut self.output, 2);
        self.serialize_str(key);
        proof {
            assert(self@ =~= old(self)@ + field_header(encode_utf8(key@)));
        }
    }
}

} // verus!
