//! The decoder: reads RESP frames back into values of the shapes the caller asks for.
use vstd::prelude::*;
use crate::error::{is_tag, Error};
use crate::grammar::{
    array_header, begins_with, bool_frame, bulk_frame, decimal, digits_value, has_line_break,
    int_frame, is_digit, lemma_begins_with_concat, lemma_begins_with_prefix, lemma_decimal,
    lemma_digits_value_prefix, lemma_first_byte, none_frame, null_frame, occurs_at, simple_frame,
    text_frame, variant_header,
};
use crate::ser::{
    push_array_header, push_bulk_frame, push_int_frame, push_simple_frame, push_uint_frame,
    string_from_utf8,
};
use vstd::utf8::{encode_utf8, valid_utf8};

verus! {

/// The end of the run of digits that starts at `start`.
fn scan_digits(b: &Vec<u8>, start: usize) -> (end: usize)
    requires
        start <= b@.len(),
    ensures
        start <= end <= b@.len(),
        forall|i: int| start <= i < end ==> is_digit(#[trigger] b@[i]),
        end == b@.len() || !is_digit(b@[end as int]),
{
    let mut i = start;
    while i < b.len() && 48 <= b[i] && b[i] <= 57
        invariant
            start <= i <= b@.len(),
            forall|j: int| start <= j < i ==> is_digit(#[trigger] b@[j]),
        decreases b@.len() - i,
    {
        i = i + 1;
    }
    i
}

/// The number spelt by the digits of `b` in `[start, end)`, unless it exceeds `u64`.
fn digits_to_u64(b: &Vec<u8>, start: usize, end: usize) -> (r: Option<u64>)
    requires
        start <= end <= b@.len(),
        forall|i: int| start <= i < end ==> is_digit(#[trigger] b@[i]),
    ensures
        r is Some <==> digits_value(b@.subrange(start as int, end as int)) <= u64::MAX,
        r is Some ==> r->0 == digits_value(b@.subrange(start as int, end as int)),
{
    let ghost s = b@.subrange(start as int, end as int);
    let mut acc: u64 = 0;
    let mut i = start;
    while i < end
        invariant
            start <= i <= end <= b@.len(),
            s == b@.subrange(start as int, end as int),
            forall|j: int| start <= j < end ==> is_digit(#[trigger] b@[j]),
            acc == digits_value(s.subrange(0, i - start)),
        decreases end - i,
    {
        let d = (b[i] - 48) as u64;
        proof {
            assert(is_digit(b@[i as int]));
            assert(s.subrange(0, i + 1 - start).drop_last() =~= s.subrange(0, i - start));
            assert(s.subrange(0, i + 1 - start).last() == b@[i as int]);
        }
        if acc > (u64::MAX - d) / 10 {
            proof {
                lemma_digits_value_prefix(s, i + 1 - start);
            }
            return None;
        }
        acc = acc * 10 + d;
        i = i + 1;
    }
    proof {
        assert(s.subrange(0, i - start) =~= s);
    }
    Some(acc)
}

/// Whether the bytes of `f` stand in `b` from `pos` on.
fn bytes_at(b: &Vec<u8>, pos: usize, f: &Vec<u8>) -> (r: bool)
    ensures
        r == occurs_at(b@, pos as int, f@),
{
    if f.len() > b.len() || pos > b.len() - f.len() {
        return false;
    }
    let mut i: usize = 0;
    while i < f.len()
        invariant
            pos + f.len() <= b.len(),
            i <= f@.len(),
            forall|j: int| 0 <= j < i ==> b@[pos + j] == f@[j],
        decreases f@.len() - i,
    {
        if b[pos + i] != f[i] {
            proof {
                assert(b@.subrange(pos as int, pos + f@.len())[i as int] != f@[i as int]);
            }
            return false;
        }
        i = i + 1;
    }
    proof {
        assert(b@.subrange(pos as int, pos + f@.len()) =~= f@);
    }
    true
}

/// A part of a frame that stands at `pos` stands at its own offset from `pos`.
proof fn lemma_occurs_within(b: Seq<u8>, pos: int, f: Seq<u8>, off: int, g: Seq<u8>)
    requires
        occurs_at(b, pos, f),
        0 <= off,
        off + g.len() <= f.len(),
        f.subrange(off, off + g.len()) == g,
    ensures
        occurs_at(b, pos + off, g),
{
    assert forall|i: int| 0 <= i < g.len() implies b[pos + off + i] == g[i] by {
        assert(b.subrange(pos, pos + f.len())[off + i] == f[off + i]);
        assert(f.subrange(off, off + g.len())[i] == f[off + i]);
    }
    assert(b.subrange(pos + off, pos + off + g.len()) =~= g);
}

/// The number whose digits start at `start`, when they are followed by a `\r`
/// and the number fits `u64`.
fn number_at(b: &Vec<u8>, start: usize) -> (r: Option<(u64, usize)>)
    requires
        start <= b@.len(),
    ensures
        r is Some ==> start <= (r->0).1 <= b@.len(),
        forall|n: nat|
            n <= u64::MAX && #[trigger] occurs_at(b@, start as int, decimal(n).push(13u8))
                ==> r == Some((n as u64, (start + decimal(n).len()) as usize)),
{
    let end = scan_digits(b, start);
    let r = match digits_to_u64(b, start, end) {
        Some(v) => Some((v, end)),
        None => None,
    };
    proof {
        assert forall|n: nat|
            n <= u64::MAX && #[trigger] occurs_at(b@, start as int, decimal(n).push(13u8))
            implies r == Some((n as u64, (start + decimal(n).len()) as usize)) by {
            lemma_decimal(n);
            let k = decimal(n).len() as int;
            let f = decimal(n).push(13u8);
            assert(b@.subrange(start as int, start + f.len())[k] == f[k]);
            assert(b@[start + k] == 13);
            assert forall|i: int| 0 <= i < k implies b@[start + i] == decimal(n)[i] by {
                assert(b@.subrange(start as int, start + f.len())[i] == f[i]);
            }
            if end < start + k {
                assert(b@[end as int] == decimal(n)[end - start]);
            }
            if end > start + k {
                assert(is_digit(b@[start + k]));
            }
            assert(b@.subrange(start as int, end as int) =~= decimal(n));
        }
    }
    r
}

/// The value of the integer frame at `pos`, if a frame of a value between
/// `i64::MIN` and `u64::MAX` stands there.
fn int_candidate(b: &Vec<u8>, pos: usize) -> (r: Option<i128>)
    requires
        pos < b.len(),
    ensures
        r is Some ==> i64::MIN <= r->0 <= u64::MAX,
        forall|w: int|
            i64::MIN <= w <= u64::MAX && #[trigger] occurs_at(b@, pos as int, int_frame(w))
                ==> r == Some(w as i128),
{
    let r = if pos + 1 < b.len() && b[pos + 1] == 45 {
        match number_at(b, pos + 2) {
            Some((m, _)) => if m <= 0x8000_0000_0000_0000u64 {
                Some(-(m as i128))
            } else {
                None
            },
            None => None,
        }
    } else {
        match number_at(b, pos + 1) {
            Some((m, _)) => Some(m as i128),
            None => None,
        }
    };
    proof {
        assert forall|w: int|
            i64::MIN <= w <= u64::MAX && #[trigger] occurs_at(b@, pos as int, int_frame(w))
            implies r == Some(w as i128) by {
            let f = int_frame(w);
            if w < 0 {
                let m = (-w) as nat;
                lemma_decimal(m);
                let g = decimal(m).push(13u8);
                assert(f.subrange(2, 2 + g.len() as int) =~= g);
                lemma_occurs_within(b@, pos as int, f, 2, g);
                assert(b@.subrange(pos as int, pos + f.len())[1] == f[1]);
            } else {
                let m = w as nat;
                lemma_decimal(m);
                let g = decimal(m).push(13u8);
                assert(f.subrange(1, 1 + g.len() as int) =~= g);
                lemma_occurs_within(b@, pos as int, f, 1, g);
                assert(b@.subrange(pos as int, pos + f.len())[1] == f[1]);
                assert(f[1] == decimal(m)[0]);
                assert(is_digit(decimal(m)[0]));
            }
        }
    }
    r
}

/// A copy of the bytes of `b` in `[from, to)`.
fn copy_range(b: &Vec<u8>, from: usize, to: usize) -> (r: Vec<u8>)
    requires
        from <= to <= b@.len(),
    ensures
        r@ == b@.subrange(from as int, to as int),
{
    let mut r: Vec<u8> = Vec::new();
    let mut i = from;
    while i < to
        invariant
            from <= i <= to <= b@.len(),
            r@ == b@.subrange(from as int, i as int),
        decreases to - i,
    {
        r.push(b[i]);
        i = i + 1;
        proof {
            assert(r@ =~= b@.subrange(from as int, i as int));
        }
    }
    r
}

/// The payload of the simple string frame at `pos`: the bytes up to the first
/// line break.
fn simple_candidate(b: &Vec<u8>, pos: usize) -> (r: Vec<u8>)
    requires
        pos < b.len(),
    ensures
        !has_line_break(r@),
        forall|p: Seq<u8>|
            !has_line_break(p) && #[trigger] occurs_at(b@, pos as int, simple_frame(p)) ==> r@ == p,
{
    let mut end = pos + 1;
    while end < b.len() && b[end] != 13 && b[end] != 10
        invariant
            pos < end <= b@.len(),
            forall|j: int| pos < j < end ==> b@[j] != 13 && b@[j] != 10,
        decreases b@.len() - end,
    {
        end = end + 1;
    }
    let r = copy_range(b, pos + 1, end);
    proof {
        assert forall|p: Seq<u8>|
            !has_line_break(p) && #[trigger] occurs_at(b@, pos as int, simple_frame(p))
            implies r@ == p by {
            let f = simple_frame(p);
            let k = p.len() as int;
            assert(b@.subrange(pos as int, pos + f.len())[k + 1] == f[k + 1]);
            assert forall|i: int| 0 <= i < k implies b@[pos + 1 + i] == p[i] by {
                assert(b@.subrange(pos as int, pos + f.len())[i + 1] == f[i + 1]);
            }
            if end < pos + 1 + k {
                assert(b@[end as int] == p[end - pos - 1]);
            }
            assert(b@.subrange(pos + 1, end as int) =~= p);
        }
    }
    r
}

/// The payload of the bulk string frame at `pos`: as many bytes as its header
/// declares, when the input holds them.
fn bulk_candidate(b: &Vec<u8>, pos: usize) -> (r: Option<Vec<u8>>)
    requires
        pos < b.len(),
    ensures
        forall|p: Seq<u8>| #[trigger] occurs_at(b@, pos as int, bulk_frame(p)) ==> r is Some && r->0@ == p,
{
    let r = match number_at(b, pos + 1) {
        Some((n, end)) => {
            if b.len() >= 2 && end <= b.len() - 2 && n <= (b.len() - 2 - end) as u64 {
                Some(copy_range(b, end + 2, end + 2 + n as usize))
            } else {
                None
            }
        },
        None => None,
    };
    proof {
        assert forall|p: Seq<u8>| #[trigger] occurs_at(b@, pos as int, bulk_frame(p))
            implies r is Some && r->0@ == p by {
            let f = bulk_frame(p);
            let n = p.len();
            lemma_decimal(n);
            let k = decimal(n).len() as int;
            let g = decimal(n).push(13u8);
            assert(f.subrange(1, 1 + g.len() as int) =~= g);
            lemma_occurs_within(b@, pos as int, f, 1, g);
            assert(f.subrange(k + 3, k + 3 + n) =~= p);
            lemma_occurs_within(b@, pos as int, f, k + 3, p);
        }
    }
    r
}

/// Whether the first frame of `rest` is a text, or the error when it is not.
pub open spec fn text_tag_error(rest: Seq<u8>) -> Option<Error> {
    if rest.len() == 0 {
        Some(Error::Eof)
    } else if !is_tag(rest[0]) {
        Some(Error::BadTag)
    } else if rest[0] != 43 && rest[0] != 36 {
        Some(Error::ShapeMismatch)
    } else {
        None
    }
}

/// Whether `a` and `b` hold the same bytes.
fn same_bytes(a: &[u8], b: &[u8]) -> (r: bool)
    ensures
        r == (a@ == b@),
{
    if a.len() != b.len() {
        return false;
    }
    let mut i: usize = 0;
    while i < a.len()
        invariant
            a@.len() == b@.len(),
            i <= a@.len(),
            forall|j: int| 0 <= j < i ==> a@[j] == b@[j],
        decreases a@.len() - i,
    {
        if a[i] != b[i] {
            return false;
        }
        i = i + 1;
    }
    proof {
        assert(a@ =~= b@);
    }
    true
}

/// The index of the first name whose UTF-8 bytes are `p`.
fn find_name(names: &[&str], p: &Vec<u8>) -> (r: Option<usize>)
    ensures
        match r {
            Some(i) => i < names@.len() && encode_utf8(names@[i as int]@) == p@,
            None => forall|i: int| 0 <= i < names@.len() ==> encode_utf8(#[trigger] names@[i]@) != p@,
        },
{
    let mut i: usize = 0;
    while i < names.len()
        invariant
            i <= names@.len(),
            forall|j: int| 0 <= j < i ==> encode_utf8(#[trigger] names@[j]@) != p@,
        decreases names@.len() - i,
    {
        if same_bytes(names[i].as_bytes(), p.as_slice()) {
            return Some(i);
        }
        i = i + 1;
    }
    None
}

/// Reading a frame from the rest of the input is reading it at the cursor.
proof fn lemma_begins_with_rest(b: Seq<u8>, pos: int, f: Seq<u8>)
    requires
        0 <= pos <= b.len(),
    ensures
        begins_with(b.subrange(pos, b.len() as int), f) <==> occurs_at(b, pos, f),
        occurs_at(b, pos, f) ==> b.subrange(pos, b.len() as int) == f + b.subrange(
            pos + f.len(),
            b.len() as int,
        ),
{
    if pos + f.len() <= b.len() {
        assert(b.subrange(pos, b.len() as int).subrange(0, f.len() as int) =~= b.subrange(
            pos,
            pos + f.len(),
        ));
    }
    if occurs_at(b, pos, f) {
        assert(b.subrange(pos, b.len() as int) =~= f + b.subrange(pos + f.len(), b.len() as int));
    }
}

/// Whether the first frame of `rest` opens with `expected`, or the error when it
/// does not: the input has ended, the byte opens no frame, or it opens another kind.
pub open spec fn tag_error(rest: Seq<u8>, expected: u8) -> Option<Error> {
    if rest.len() == 0 {
        Some(Error::Eof)
    } else if !is_tag(rest[0]) {
        Some(Error::BadTag)
    } else if rest[0] != expected {
        Some(Error::ShapeMismatch)
    } else {
        None
    }
}

/// A decoder that reads RESP frames from an input it owns, from a cursor on.
///
/// Each method reads the frames of one shape of the data model, as the caller
/// requests it. A method that fails leaves the cursor where it was.
pub struct Deserializer {
    input: Vec<u8>,
    pos: usize,
}

impl View for Deserializer {
    type V = Seq<u8>;

    /// The input that is still unread.
    closed spec fn view(&self) -> Seq<u8> {
        self.input@.subrange(self.pos as int, self.input@.len() as int)
    }
}

impl Deserializer {
    /// The cursor stands within the input.
    pub closed spec fn wf(&self) -> bool {
        self.pos <= self.input@.len()
    }

    /// A decoder at the start of `input`.
    pub fn new(input: Vec<u8>) -> (d: Deserializer)
        ensures
            d.wf(),
            d@ == input@,
    {
        let d = Deserializer { input, pos: 0 };
        proof {
            assert(d@ =~= input@);
        }
        d
    }

    /// The number of bytes not yet read.
    pub fn remaining(&self) -> (r: usize)
        requires
            self.wf(),
        ensures
            r == self@.len(),
    {
        self.input.len() - self.pos
    }

    /// Whether all of the input has been read.
    pub fn is_done(&self) -> (r: bool)
        requires
            self.wf(),
        ensures
            r == (self@.len() == 0),
    {
        self.pos == self.input.len()
    }

    /// The byte that opens the next frame, which tells its kind: `:` an integer,
    /// `+` a simple string, `$` a bulk string or the unit value, `*` an array,
    /// `-` an error. `Eof` at the end of the input, `BadTag` for any other byte.
    /// Nothing is consumed.
    pub fn peek_tag(&self) -> (r: Result<u8, Error>)
        requires
            self.wf(),
        ensures
            self@.len() == 0 ==> r == Err::<u8, Error>(Error::Eof),
            self@.len() > 0 && !is_tag(self@[0]) ==> r == Err::<u8, Error>(Error::BadTag),
            self@.len() > 0 && is_tag(self@[0]) ==> r == Ok::<u8, Error>(self@[0]),
    {
        if self.pos == self.input.len() {
            return Err(Error::Eof);
        }
        let c = self.input[self.pos];
        assert(self@[0] == c);
        if c == 43 || c == 58 || c == 36 || c == 42 || c == 45 {
            Ok(c)
        } else {
            Err(Error::BadTag)
        }
    }

    /// Checks the byte that opens the next frame.
    fn check_tag(&self, expected: u8) -> (r: Result<(), Error>)
        requires
            self.wf(),
        ensures
            match tag_error(self@, expected) {
                Some(e) => r == Err::<(), Error>(e),
                None => r is Ok && self.pos < self.input@.len() && self.input@[self.pos as int] == expected,
            },
    {
        if self.pos == self.input.len() {
            return Err(Error::Eof);
        }
        let c = self.input[self.pos];
        assert(self@[0] == c);
        if !(c == 43 || c == 58 || c == 36 || c == 42 || c == 45) {
            Err(Error::BadTag)
        } else if c != expected {
            Err(Error::ShapeMismatch)
        } else {
            Ok(())
        }
    }

    /// Moves the cursor over `f`, which stands at the cursor.
    fn advance(&mut self, f: &Vec<u8>)
        requires
            old(self).wf(),
            occurs_at(old(self).input@, old(self).pos as int, f@),
        ensures
            final(self).wf(),
            old(self)@ == f@ + final(self)@,
            final(self).input == old(self).input,
    {
        proof {
            lemma_begins_with_rest(self.input@, self.pos as int, f@);
        }
        // the input's length fits `usize`, and so does the new cursor
        let _n = self.input.len();
        self.pos = self.pos + f.len();
    }

    /// Reads an integer frame holding a value between `i64::MIN` and `u64::MAX`.
    fn read_int(&mut self) -> (r: Result<i128, Error>)
        requires
            old(self).wf(),
        ensures
            final(self).wf(),
            final(self).input == old(self).input,
            r is Ok ==> i64::MIN <= r->Ok_0 <= u64::MAX,
            match r {
                Ok(v) => old(self)@ == int_frame(v as int) + final(self)@,
                Err(_) => *final(self) == *old(self),
            },
            forall|w: int|
                i64::MIN <= w <= u64::MAX && #[trigger] begins_with(old(self)@, int_frame(w))
                    ==> r == Ok::<i128, Error>(w as i128),
            tag_error(old(self)@, 58u8) is Some ==> r == Err::<i128, Error>(tag_error(old(self)@, 58u8)->0),
            tag_error(old(self)@, 58u8) is None && r is Err ==> r == Err::<i128, Error>(Error::BadInteger),
    {
        match self.check_tag(58u8) {
            Err(e) => {
                proof {
                    assert forall|w: int| !#[trigger] begins_with(old(self)@, int_frame(w)) by {
                        if begins_with(old(self)@, int_frame(w)) {
                            assert(old(self)@.subrange(0, int_frame(w).len() as int)[0] == int_frame(w)[0]);
                        }
                    }
                }
                return Err(e);
            },
            Ok(()) => {},
        }
        proof {
            assert forall|w: int| #[trigger] begins_with(old(self)@, int_frame(w)) implies occurs_at(self.input@, self.pos as int, int_frame(w)) by {
                lemma_begins_with_rest(self.input@, self.pos as int, int_frame(w));
            }
        }
        match int_candidate(&self.input, self.pos) {
            None => Err(Error::BadInteger),
            Some(v) => {
                let mut expect: Vec<u8> = Vec::new();
                if v < 0 {
                    push_int_frame(&mut expect, v as i64);
                } else {
                    push_uint_frame(&mut expect, v as u64);
                }
                assert(expect@ =~= int_frame(v as int));
                if bytes_at(&self.input, self.pos, &expect) {
                    self.advance(&expect);
                    Ok(v)
                } else {
                    Err(Error::BadInteger)
                }
            },
        }
    }

    /// Reads a signed integer. Only the digits that the encoder writes are
    /// accepted: no leading zeros, no `+`, and no `-0`; any other digit run, such as
    /// `:007\r\n`, is `BadInteger` even when its value fits.
    pub fn read_i64(&mut self) -> (r: Result<i64, Error>)
        requires
            old(self).wf(),
        ensures
            final(self).wf(),
            match r {
                Ok(v) => old(self)@ == int_frame(v as int) + final(self)@,
                Err(_) => *final(self) == *old(self),
            },
            forall|w: i64| #[trigger] begins_with(old(self)@, int_frame(w as int)) ==> r == Ok::<i64, Error>(w),
            tag_error(old(self)@, 58u8) is Some ==> r == Err::<i64, Error>(tag_error(old(self)@, 58u8)->0),
            tag_error(old(self)@, 58u8) is None && r is Err ==> r == Err::<i64, Error>(Error::BadInteger),
    {
        let saved = self.pos;
        match self.read_int() {
            Ok(v) => {
                if v <= 0x7fff_ffff_ffff_ffffi128 {
                    Ok(v as i64)
                } else {
                    self.pos = saved;
                    Err(Error::BadInteger)
                }
            },
            Err(e) => Err(e),
        }
    }

    /// Reads an unsigned integer. Only the digits that the encoder writes are
    /// accepted: no leading zeros and no sign; any other digit run, such as
    /// `:007\r\n`, is `BadInteger` even when its value fits.
    pub fn read_u64(&mut self) -> (r: Result<u64, Error>)
        requires
            old(self).wf(),
        ensures
            final(self).wf(),
            match r {
                Ok(v) => old(self)@ == int_frame(v as int) + final(self)@,
                Err(_) => *final(self) == *old(self),
            },
            forall|w: u64| #[trigger] begins_with(old(self)@, int_frame(w as int)) ==> r == Ok::<u64, Error>(w),
            tag_error(old(self)@, 58u8) is Some ==> r == Err::<u64, Error>(tag_error(old(self)@, 58u8)->0),
            tag_error(old(self)@, 58u8) is None && r is Err ==> r == Err::<u64, Error>(Error::BadInteger),
    {
        let saved = self.pos;
        match self.read_int() {
            Ok(v) => {
                if v >= 0 {
                    Ok(v as u64)
                } else {
                    self.pos = saved;
                    Err(Error::BadInteger)
                }
            },
            Err(e) => Err(e),
        }
    }

    /// Reads a boolean: the integer 1 or 0.
    pub fn read_bool(&mut self) -> (r: Result<bool, Error>)
        requires
            old(self).wf(),
        ensures
            final(self).wf(),
            match r {
                Ok(v) => old(self)@ == bool_frame(v) + final(self)@,
                Err(_) => *final(self) == *old(self),
            },
            forall|w: bool| #[trigger] begins_with(old(self)@, bool_frame(w)) ==> r == Ok::<bool, Error>(w),
            tag_error(old(self)@, 58u8) is Some ==> r == Err::<bool, Error>(tag_error(old(self)@, 58u8)->0),
            tag_error(old(self)@, 58u8) is None && r is Err ==> r == Err::<bool, Error>(Error::BadInteger),
    {
        let saved = self.pos;
        match self.read_int() {
            Ok(v) => {
                if v == 1 {
                    Ok(true)
                } else if v == 0 {
                    Ok(false)
                } else {
                    self.pos = saved;
                    Err(Error::BadInteger)
                }
            },
            Err(e) => Err(e),
        }
    }

    /// The payload and the whole frame of the simple or bulk string at the cursor.
    fn peek_bytes(&self) -> (r: Result<(Vec<u8>, Vec<u8>), Error>)
        requires
            self.wf(),
        ensures
            match r {
                Ok((x, f)) => occurs_at(self.input@, self.pos as int, f@) && ((f@ == simple_frame(x@)
                    && !has_line_break(x@)) || f@ == bulk_frame(x@)),
                Err(_) => true,
            },
            forall|p: Seq<u8>|
                !has_line_break(p) && #[trigger] begins_with(self@, simple_frame(p))
                    ==> r is Ok && (r->Ok_0).0@ == p,
            forall|p: Seq<u8>| #[trigger] begins_with(self@, bulk_frame(p)) ==> r is Ok && (r->Ok_0).0@ == p,
            text_tag_error(self@) is Some ==> r == Err::<(Vec<u8>, Vec<u8>), Error>(text_tag_error(self@)->0),
            text_tag_error(self@) is None && r is Err ==> r == Err::<(Vec<u8>, Vec<u8>), Error>(Error::BadFrame),
    {
        if self.pos == self.input.len() {
            return Err(Error::Eof);
        }
        let c = self.input[self.pos];
        assert(self@[0] == c);
        proof {
            assert forall|p: Seq<u8>| #[trigger] begins_with(self@, simple_frame(p)) implies occurs_at(self.input@, self.pos as int, simple_frame(p)) && c == 43 by {
                lemma_begins_with_rest(self.input@, self.pos as int, simple_frame(p));
                assert(self@.subrange(0, simple_frame(p).len() as int)[0] == simple_frame(p)[0]);
            }
            assert forall|p: Seq<u8>| #[trigger] begins_with(self@, bulk_frame(p)) implies occurs_at(self.input@, self.pos as int, bulk_frame(p)) && c == 36 by {
                lemma_begins_with_rest(self.input@, self.pos as int, bulk_frame(p));
                assert(self@.subrange(0, bulk_frame(p).len() as int)[0] == bulk_frame(p)[0]);
            }
        }
        if c == 43 {
            let p = simple_candidate(&self.input, self.pos);
            let mut expect: Vec<u8> = Vec::new();
            push_simple_frame(&mut expect, p.as_slice());
            if bytes_at(&self.input, self.pos, &expect) {
                Ok((p, expect))
            } else {
                Err(Error::BadFrame)
            }
        } else if c == 36 {
            match bulk_candidate(&self.input, self.pos) {
                Some(p) => {
                    let mut expect: Vec<u8> = Vec::new();
                    push_bulk_frame(&mut expect, p.as_slice());
                    if bytes_at(&self.input, self.pos, &expect) {
                        Ok((p, expect))
                    } else {
                        Err(Error::BadFrame)
                    }
                },
                None => Err(Error::BadFrame),
            }
        } else if !(c == 58 || c == 42 || c == 45) {
            Err(Error::BadTag)
        } else {
            Err(Error::ShapeMismatch)
        }
    }

    /// Reads the bytes of a simple string or a bulk string.
    pub fn read_bytes(&mut self) -> (r: Result<Vec<u8>, Error>)
        requires
            old(self).wf(),
        ensures
            final(self).wf(),
            match r {
                Ok(x) => (old(self)@ == simple_frame(x@) + final(self)@ && !has_line_break(x@))
                    || old(self)@ == bulk_frame(x@) + final(self)@,
                Err(_) => *final(self) == *old(self),
            },
            forall|p: Seq<u8>|
                !has_line_break(p) && #[trigger] begins_with(old(self)@, simple_frame(p))
                    ==> r is Ok && r->Ok_0@ == p,
            forall|p: Seq<u8>| #[trigger] begins_with(old(self)@, bulk_frame(p)) ==> r is Ok && r->Ok_0@ == p,
            text_tag_error(old(self)@) is Some ==> r == Err::<Vec<u8>, Error>(text_tag_error(old(self)@)->0),
            text_tag_error(old(self)@) is None && r is Err ==> r == Err::<Vec<u8>, Error>(Error::BadFrame),
    {
        match self.peek_bytes() {
            Ok((p, f)) => {
                self.advance(&f);
                Ok(p)
            },
            Err(e) => Err(e),
        }
    }

    /// Reads a text: the bytes of a simple string or a bulk string, which must be
    /// well-formed UTF-8.
    pub fn read_str(&mut self) -> (r: Result<String, Error>)
        requires
            old(self).wf(),
        ensures
            final(self).wf(),
            match r {
                Ok(s) => (old(self)@ == simple_frame(encode_utf8(s@)) + final(self)@
                    && !has_line_break(encode_utf8(s@)))
                    || old(self)@ == bulk_frame(encode_utf8(s@)) + final(self)@,
                Err(_) => *final(self) == *old(self),
            },
            forall|t: Seq<char>|
                !has_line_break(encode_utf8(t)) && #[trigger] begins_with(old(self)@, simple_frame(encode_utf8(t)))
                    ==> r is Ok && r->Ok_0@ == t,
            forall|t: Seq<char>| #[trigger] begins_with(old(self)@, bulk_frame(encode_utf8(t))) ==> r is Ok && r->Ok_0@ == t,
            forall|p: Seq<u8>|
                !valid_utf8(p) && #[trigger] begins_with(old(self)@, bulk_frame(p))
                    ==> r == Err::<String, Error>(Error::Utf8),
            text_tag_error(old(self)@) is Some ==> r == Err::<String, Error>(text_tag_error(old(self)@)->0),
            text_tag_error(old(self)@) is None && r is Err ==> r == Err::<String, Error>(Error::BadFrame)
                || r == Err::<String, Error>(Error::Utf8),
    {
        broadcast use vstd::utf8::encode_utf8_decode_utf8, vstd::utf8::decode_utf8_encode_utf8, vstd::utf8::encode_utf8_valid_utf8;
        match self.peek_bytes() {
            Ok((p, f)) => {
                match string_from_utf8(p) {
                    Some(s) => {
                        self.advance(&f);
                        Ok(s)
                    },
                    None => Err(Error::Utf8),
                }
            },
            Err(e) => Err(e),
        }
    }

    /// Reads the unit value: the null bulk string.
    pub fn read_unit(&mut self) -> (r: Result<(), Error>)
        requires
            old(self).wf(),
        ensures
            final(self).wf(),
            r is Ok <==> begins_with(old(self)@, null_frame()),
            r is Ok ==> old(self)@ == null_frame() + final(self)@,
            r is Err ==> *final(self) == *old(self),
            old(self)@.len() == 0 ==> r == Err::<(), Error>(Error::Eof),
            old(self)@.len() > 0 && !is_tag(old(self)@[0]) ==> r == Err::<(), Error>(Error::BadTag),
            old(self)@.len() > 0 && is_tag(old(self)@[0]) && r is Err ==> r == Err::<(), Error>(Error::ShapeMismatch),
    {
        if self.pos == self.input.len() {
            return Err(Error::Eof);
        }
        let c = self.input[self.pos];
        assert(old(self)@[0] == c);
        let mut expect: Vec<u8> = Vec::new();
        expect.push(36u8);
        expect.push(45u8);
        expect.push(49u8);
        expect.push(13u8);
        expect.push(10u8);
        assert(expect@ =~= null_frame());
        proof {
            lemma_begins_with_rest(self.input@, self.pos as int, null_frame());
        }
        if bytes_at(&self.input, self.pos, &expect) {
            self.advance(&expect);
            Ok(())
        } else if !(c == 43 || c == 58 || c == 36 || c == 42 || c == 45) {
            Err(Error::BadTag)
        } else {
            Err(Error::ShapeMismatch)
        }
    }

    /// The element count and the whole header of the array header at the cursor.
    fn peek_array_len(&self) -> (r: Result<(usize, Vec<u8>), Error>)
        requires
            self.wf(),
        ensures
            match r {
                Ok((n, f)) => occurs_at(self.input@, self.pos as int, f@) && f@ == array_header(n as nat)
                    && 3 * n <= self@.len() - f@.len(),
                Err(_) => true,
            },
            forall|n: nat|
                n <= u64::MAX && #[trigger] begins_with(self@, array_header(n))
                    ==> if 3 * n <= self@.len() - array_header(n).len() {
                        r is Ok && (r->Ok_0).0 == n
                    } else {
                        r == Err::<(usize, Vec<u8>), Error>(Error::Truncated)
                    },
            tag_error(self@, 42u8) is Some ==> r == Err::<(usize, Vec<u8>), Error>(tag_error(self@, 42u8)->0),
            tag_error(self@, 42u8) is None && r is Err ==> r == Err::<(usize, Vec<u8>), Error>(Error::BadFrame)
                || r == Err::<(usize, Vec<u8>), Error>(Error::Truncated),
    {
        match self.check_tag(42u8) {
            Err(e) => {
                proof {
                    assert forall|n: nat| !#[trigger] begins_with(self@, array_header(n)) by {
                        if begins_with(self@, array_header(n)) {
                            assert(self@.subrange(0, array_header(n).len() as int)[0] == array_header(n)[0]);
                        }
                    }
                }
                return Err(e);
            },
            Ok(()) => {},
        }
        // the input's length fits `usize`, and so does the cursor after the tag
        let _len = self.input.len();
        let cand = number_at(&self.input, self.pos + 1);
        proof {
            assert forall|n: nat| n <= u64::MAX && #[trigger] begins_with(self@, array_header(n)) implies
                occurs_at(self.input@, self.pos as int, array_header(n))
                && cand == Some((n as u64, (self.pos + 1 + decimal(n).len()) as usize)) by {
                lemma_begins_with_rest(self.input@, self.pos as int, array_header(n));
                lemma_decimal(n);
                let f = array_header(n);
                let g = decimal(n).push(13u8);
                assert(f.subrange(1, 1 + g.len() as int) =~= g);
                lemma_occurs_within(self.input@, self.pos as int, f, 1, g);
            }
        }
        match cand {
            None => Err(Error::BadFrame),
            Some((n, end)) => {
                let mut expect: Vec<u8> = Vec::new();
                push_array_header(&mut expect, n);
                if !bytes_at(&self.input, self.pos, &expect) {
                    return Err(Error::BadFrame);
                }
                if n > ((self.input.len() - self.pos - expect.len()) / 3) as u64 {
                    return Err(Error::Truncated);
                }
                Ok((n as usize, expect))
            },
        }
    }
    /// Reads an array header and returns its element count.
    ///
    /// The header itself is checked against a lower bound: a count that the rest
    /// of the input could not hold, at three bytes for the shortest frame, is
    /// `Truncated` at once. A count that passes this bound but still exceeds the
    /// elements that follow is caught when the missing elements are read: every
    /// read on an exhausted input fails with `Eof`, and no read looks past the end
    /// of the input.
    pub fn read_array_len(&mut self) -> (r: Result<usize, Error>)
        requires
            old(self).wf(),
        ensures
            final(self).wf(),
            match r {
                Ok(n) => old(self)@ == array_header(n as nat) + final(self)@ && 3 * n <= final(self)@.len(),
                Err(_) => *final(self) == *old(self),
            },
            forall|n: nat|
                n <= u64::MAX && #[trigger] begins_with(old(self)@, array_header(n))
                    ==> if 3 * n <= old(self)@.len() - array_header(n).len() {
                        r == Ok::<usize, Error>(n as usize)
                    } else {
                        r == Err::<usize, Error>(Error::Truncated)
                    },
            tag_error(old(self)@, 42u8) is Some ==> r == Err::<usize, Error>(tag_error(old(self)@, 42u8)->0),
            tag_error(old(self)@, 42u8) is None && r is Err ==> r == Err::<usize, Error>(Error::BadFrame)
                || r == Err::<usize, Error>(Error::Truncated),
    {
        match self.peek_array_len() {
            Ok((n, f)) => {
                self.advance(&f);
                Ok(n)
            },
            Err(e) => Err(e),
        }
    }

    /// Reads an optional's array: `false` for an empty one (absent), `true` for one
    /// of one element (present), whose value the caller reads next.
    pub fn read_option(&mut self) -> (r: Result<bool, Error>)
        requires
            old(self).wf(),
        ensures
            final(self).wf(),
            match r {
                Ok(present) => old(self)@ == array_header(if present { 1 } else { 0 }) + final(self)@,
                Err(_) => *final(self) == *old(self),
            },
            begins_with(old(self)@, none_frame()) ==> r == Ok::<bool, Error>(false),
            begins_with(old(self)@, array_header(1)) && 3 <= old(self)@.len() - array_header(1).len()
                ==> r == Ok::<bool, Error>(true),
            forall|n: nat|
                2 <= n <= u64::MAX && #[trigger] begins_with(old(self)@, array_header(n))
                    && 3 * n <= old(self)@.len() - array_header(n).len()
                    ==> r == Err::<bool, Error>(Error::BadOptional),
            tag_error(old(self)@, 42u8) is Some ==> r == Err::<bool, Error>(tag_error(old(self)@, 42u8)->0),
    {
        match self.peek_array_len() {
            Ok((n, f)) => {
                if n == 0 {
                    self.advance(&f);
                    Ok(false)
                } else if n == 1 {
                    self.advance(&f);
                    Ok(true)
                } else {
                    Err(Error::BadOptional)
                }
            },
            Err(e) => Err(e),
        }
    }

    /// Reads the array header of a tuple, a tuple struct, a record or a map entry,
    /// which must declare `len` elements.
    pub fn read_tuple(&mut self, len: usize) -> (r: Result<(), Error>)
        requires
            old(self).wf(),
        ensures
            final(self).wf(),
            r is Ok ==> old(self)@ == array_header(len as nat) + final(self)@,
            r is Err ==> *final(self) == *old(self),
            begins_with(old(self)@, array_header(len as nat)) && 3 * len <= old(self)@.len()
                - array_header(len as nat).len() ==> r is Ok,
            forall|n: nat|
                n != len && n <= u64::MAX && #[trigger] begins_with(old(self)@, array_header(n))
                    && 3 * n <= old(self)@.len() - array_header(n).len()
                    ==> r == Err::<(), Error>(Error::ArityMismatch),
            tag_error(old(self)@, 42u8) is Some ==> r == Err::<(), Error>(tag_error(old(self)@, 42u8)->0),
    {
        match self.peek_array_len() {
            Ok((n, f)) => {
                if n == len {
                    self.advance(&f);
                    Ok(())
                } else {
                    Err(Error::ArityMismatch)
                }
            },
            Err(e) => Err(e),
        }
    }

    /// Reads which variant of an enumeration comes next, among `names`: a variant
    /// without payload is its name as text, one with a payload is the array
    /// `[name, payload]`, whose payload the caller reads next. Returns the index of
    /// the first name that matches and whether a payload follows.
    pub fn read_variant(&mut self, names: &[&str]) -> (r: Result<(usize, bool), Error>)
        requires
            old(self).wf(),
        ensures
            final(self).wf(),
            match r {
                Ok((i, payload)) => i < names@.len() && {
                    let p = encode_utf8(names@[i as int]@);
                    let head = if payload { array_header(2) } else { Seq::<u8>::empty() };
                    (old(self)@ == head + simple_frame(p) + final(self)@ && !has_line_break(p))
                        || old(self)@ == head + bulk_frame(p) + final(self)@
                },
                Err(_) => *final(self) == *old(self),
            },
            forall|i: int|
                0 <= i < names@.len() && #[trigger] begins_with(old(self)@, text_frame(encode_utf8(names@[i]@)))
                    ==> r is Ok && !(r->Ok_0).1 && names@[(r->Ok_0).0 as int]@ == names@[i]@,
            forall|i: int|
                0 <= i < names@.len() && #[trigger] begins_with(old(self)@, variant_header(encode_utf8(names@[i]@)))
                    && 6 <= old(self)@.len() - array_header(2).len()
                    ==> r is Ok && (r->Ok_0).1 && names@[(r->Ok_0).0 as int]@ == names@[i]@,
            forall|p: Seq<u8>|
                #[trigger] begins_with(old(self)@, text_frame(p))
                    && (forall|i: int| 0 <= i < names@.len() ==> encode_utf8(#[trigger] names@[i]@) != p)
                    ==> r == Err::<(usize, bool), Error>(Error::UnknownVariant),
            forall|p: Seq<u8>|
                #[trigger] begins_with(old(self)@, variant_header(p)) && 6 <= old(self)@.len() - array_header(2).len()
                    && (forall|i: int| 0 <= i < names@.len() ==> encode_utf8(#[trigger] names@[i]@) != p)
                    ==> r == Err::<(usize, bool), Error>(Error::UnknownVariant),
            old(self)@.len() == 0 ==> r == Err::<(usize, bool), Error>(Error::Eof),
    {
        broadcast use vstd::utf8::encode_utf8_decode_utf8;
        if self.pos == self.input.len() {
            return Err(Error::Eof);
        }
        let c = self.input[self.pos];
        let ghost rest = old(self)@;
        proof {
            assert(rest[0] == c);
            assert forall|p: Seq<u8>| #[trigger] begins_with(rest, text_frame(p)) implies c == 43 || c == 36 by {
                lemma_first_byte(rest, text_frame(p));
            }
            assert forall|p: Seq<u8>| #[trigger] begins_with(rest, variant_header(p)) implies c == 42
                && begins_with(rest, array_header(2)) by {
                lemma_first_byte(rest, variant_header(p));
                lemma_begins_with_prefix(rest, array_header(2), text_frame(p));
            }
        }
        if c == 42 {
            let (n, f) = match self.peek_array_len() {
                Ok(x) => x,
                Err(e) => {
                    return Err(e);
                },
            };
            if n != 2 {
                return Err(Error::ArityMismatch);
            }
            let saved = self.pos;
            self.advance(&f);
            proof {
                assert forall|p: Seq<u8>| #[trigger] begins_with(rest, variant_header(p)) implies begins_with(self@, text_frame(p)) by {
                    lemma_begins_with_concat(rest, array_header(2), text_frame(p), self@);
                }
            }
            let (p, g) = match self.peek_bytes() {
                Ok(x) => x,
                Err(e) => {
                    self.pos = saved;
                    return Err(e);
                },
            };
            proof {
                assert forall|q: Seq<u8>| #[trigger] begins_with(rest, variant_header(q)) implies p@ == q by {
                    assert(begins_with(self@, text_frame(q)));
                    if has_line_break(q) {
                        assert(begins_with(self@, bulk_frame(q)));
                    } else {
                        assert(begins_with(self@, simple_frame(q)));
                    }
                }
            }
            match find_name(names, &p) {
                Some(i) => {
                    self.advance(&g);
                    proof {
                        assert forall|j: int| 0 <= j < names@.len() && #[trigger] begins_with(rest, variant_header(encode_utf8(names@[j]@)))
                            implies names@[i as int]@ == names@[j]@ by {
                            vstd::utf8::encode_utf8_decode_utf8(names@[i as int]@);
                            vstd::utf8::encode_utf8_decode_utf8(names@[j]@);
                        }
                        assert(rest == array_header(2) + (g@ + self@));
                        let pp = encode_utf8(names@[i as int]@);
                        if g@ == bulk_frame(pp) {
                            assert(rest =~= array_header(2) + bulk_frame(pp) + self@);
                        } else {
                            assert(rest =~= array_header(2) + simple_frame(pp) + self@);
                        }
                    }
                    Ok((i, true))
                },
                None => {
                    self.pos = saved;
                    Err(Error::UnknownVariant)
                },
            }
        } else {
            match self.peek_bytes() {
                Ok((p, g)) => {
                    proof {
                        assert forall|q: Seq<u8>| #[trigger] begins_with(rest, text_frame(q)) implies p@ == q by {
                            if has_line_break(q) {
                                assert(begins_with(self@, bulk_frame(q)));
                            } else {
                                assert(begins_with(self@, simple_frame(q)));
                            }
                        }
                    }
                    match find_name(names, &p) {
                        Some(i) => {
                            self.advance(&g);
                            proof {
                                assert forall|j: int| 0 <= j < names@.len() && #[trigger] begins_with(rest, text_frame(encode_utf8(names@[j]@)))
                                    implies names@[i as int]@ == names@[j]@ by {
                                    vstd::utf8::encode_utf8_decode_utf8(names@[i as int]@);
                                    vstd::utf8::encode_utf8_decode_utf8(names@[j]@);
                                }
                                let pp = encode_utf8(names@[i as int]@);
                                if g@ == bulk_frame(pp) {
                                    assert(rest =~= Seq::<u8>::empty() + bulk_frame(pp) + self@);
                                } else {
                                    assert(rest =~= Seq::<u8>::empty() + simple_frame(pp) + self@);
                                }
                            }
                            Ok((i, false))
                        },
                        None => Err(Error::UnknownVariant),
                    }
                },
                Err(e) => {
                    proof {
                        assert forall|q: Seq<u8>| !#[trigger] begins_with(rest, text_frame(q)) by {
                            if begins_with(rest, text_frame(q)) {
                                if has_line_break(q) {
                                    assert(begins_with(self@, bulk_frame(q)));
                                } else {
                                    assert(begins_with(self@, simple_frame(q)));
                                }
                            }
                        }
                    }
                    Err(e)
                },
            }
        }
    }
}

} // verus!
