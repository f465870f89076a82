//! The wire grammar: the exact bytes of each frame, as spec functions.
use vstd::prelude::*;

verus! {

/// The ASCII decimal digits of `n`, most significant first, without leading zeros.
pub open spec fn decimal(n: nat) -> Seq<u8>
    decreases n,
{
    if n < 10 {
        seq![(48 + n) as u8]
    } else {
        decimal(n / 10).push((48 + n % 10) as u8)
    }
}

/// The decimal text of a signed integer: a `-` before the digits of a negative one.
pub open spec fn int_text(v: int) -> Seq<u8> {
    if v < 0 {
        seq![45u8] + decimal((-v) as nat)
    } else {
        decimal(v as nat)
    }
}

/// The line terminator `\r\n`.
pub open spec fn crlf() -> Seq<u8> {
    seq![13u8, 10u8]
}

/// Whether `b` holds a `\r` or a `\n`.
pub open spec fn has_line_break(b: Seq<u8>) -> bool {
    exists|i: int| 0 <= i < b.len() && (b[i] == 13 || b[i] == 10)
}

/// Integer frame: `:<decimal>\r\n`.
pub open spec fn int_frame(v: int) -> Seq<u8> {
    seq![58u8] + int_text(v) + crlf()
}

/// The frame of a boolean: the integer 1 or 0.
pub open spec fn bool_frame(b: bool) -> Seq<u8> {
    int_frame(if b { 1 } else { 0 })
}

/// Simple string frame: `+<bytes>\r\n`.
pub open spec fn simple_frame(b: Seq<u8>) -> Seq<u8> {
    seq![43u8] + b + crlf()
}

/// Bulk string frame: `$<byte length>\r\n<bytes>\r\n`.
pub open spec fn bulk_frame(b: Seq<u8>) -> Seq<u8> {
    seq![36u8] + decimal(b.len()) + crlf() + b + crlf()
}

/// The null bulk string `$-1\r\n`, which stands for the unit value.
pub open spec fn null_frame() -> Seq<u8> {
    seq![36u8, 45u8, 49u8, 13u8, 10u8]
}

/// Array header: `*<count>\r\n`, followed on the wire by `count` frames.
pub open spec fn array_header(n: nat) -> Seq<u8> {
    seq![42u8] + decimal(n) + crlf()
}

/// The frame of a text: a simple string unless it holds a line break, else a bulk string.
pub open spec fn text_frame(b: Seq<u8>) -> Seq<u8> {
    if has_line_break(b) {
        bulk_frame(b)
    } else {
        simple_frame(b)
    }
}

/// The frame of an absent optional: an empty array.
pub open spec fn none_frame() -> Seq<u8> {
    array_header(0)
}

/// What opens a variant that carries a payload: a two-element array whose first
/// element is the variant's name; the payload follows.
pub open spec fn variant_header(name: Seq<u8>) -> Seq<u8> {
    array_header(2) + text_frame(name)
}

/// What opens a record field or a map entry given its key text: a two-element array
/// whose first element is the key; the value follows.
pub open spec fn field_header(key: Seq<u8>) -> Seq<u8> {
    array_header(2) + text_frame(key)
}

} // verus!

verus! {

/// Whether `c` is an ASCII decimal digit.
pub open spec fn is_digit(c: u8) -> bool {
    48 <= c <= 57
}

/// The number that a run of ASCII digits spells, most significant first.
pub open spec fn digits_value(s: Seq<u8>) -> nat
    decreases s.len(),
{
    if s.len() == 0 {
        0
    } else {
        digits_value(s.drop_last()) * 10 + (s.last() - 48) as nat
    }
}

/// Whether `f` stands in `b` from index `pos` on.
pub open spec fn occurs_at(b: Seq<u8>, pos: int, f: Seq<u8>) -> bool {
    0 <= pos && pos + f.len() <= b.len() && b.subrange(pos, pos + f.len()) == f
}

/// Whether `b` begins with `f`.
pub open spec fn begins_with(b: Seq<u8>, f: Seq<u8>) -> bool {
    occurs_at(b, 0, f)
}

/// The digits of a number are a non-empty run of digits that spells it.
pub proof fn lemma_decimal(n: nat)
    ensures
        decimal(n).len() >= 1,
        forall|i: int| 0 <= i < decimal(n).len() ==> is_digit(#[trigger] decimal(n)[i]),
        digits_value(decimal(n)) == n,
    decreases n,
{
    if n >= 10 {
        lemma_decimal(n / 10);
        assert(decimal(n).drop_last() =~= decimal(n / 10));
        assert(decimal(n).last() == (48 + n % 10) as u8);
        assert(((48 + n % 10) as u8 - 48) as nat == n % 10);
        assert((n / 10) * 10 + n % 10 == n) by (nonlinear_arith);
    } else {
        assert(decimal(n).drop_last() =~= Seq::<u8>::empty());
        assert(digits_value(Seq::<u8>::empty()) == 0);
        assert(decimal(n).last() == (48 + n) as u8);
    }
}

/// A run of digits spells at least what any of its beginnings spells.
pub proof fn lemma_digits_value_prefix(s: Seq<u8>, k: int)
    requires
        0 <= k <= s.len(),
    ensures
        digits_value(s.subrange(0, k)) <= digits_value(s),
    decreases s.len(),
{
    if k < s.len() {
        assert(s.drop_last() =~= s.subrange(0, s.len() - 1));
        assert(s.subrange(0, k) =~= s.drop_last().subrange(0, k));
        lemma_digits_value_prefix(s.drop_last(), k);
    } else {
        assert(s.subrange(0, k) =~= s);
    }
}

} // verus!

verus! {

/// A frame that `b` begins with gives `b` its first byte.
pub proof fn lemma_first_byte(b: Seq<u8>, f: Seq<u8>)
    requires
        begins_with(b, f),
        f.len() > 0,
    ensures
        b[0] == f[0],
{
    assert(b.subrange(0, f.len() as int)[0] == f[0]);
}

/// Bytes that begin with `f` followed by `g` are `f` and then bytes that begin with `g`.
pub proof fn lemma_begins_with_concat(b: Seq<u8>, f: Seq<u8>, g: Seq<u8>, rest: Seq<u8>)
    requires
        b == f + rest,
        begins_with(b, f + g),
    ensures
        begins_with(rest, g),
{
    assert forall|i: int| 0 <= i < g.len() implies rest[i] == g[i] by {
        assert(b.subrange(0, (f + g).len() as int)[f.len() + i] == (f + g)[f.len() + i]);
    }
    assert(rest.subrange(0, g.len() as int) =~= g);
}

/// Bytes that begin with `f + g` begin with `f`.
pub proof fn lemma_begins_with_prefix(b: Seq<u8>, f: Seq<u8>, g: Seq<u8>)
    requires
        begins_with(b, f + g),
    ensures
        begins_with(b, f),
{
    assert forall|i: int| 0 <= i < f.len() implies b[i] == f[i] by {
        assert(b.subrange(0, (f + g).len() as int)[i] == (f + g)[i]);
    }
    assert(b.subrange(0, f.len() as int) =~= f);
}

} // verus!
