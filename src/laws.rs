//! Laws that relate the encoder's frames to what the decoder reads back.
use vstd::prelude::*;
use vstd::utf8::{decode_utf8, encode_utf8, valid_utf8};
use crate::grammar::{
    array_header, bulk_frame, decimal, has_line_break, int_frame, is_digit, lemma_decimal,
    simple_frame, text_frame,
};

verus! {

/// Two numbers whose digits, each followed by `\r`, start the same bytes are equal.
proof fn lemma_digit_runs_agree(b: Seq<u8>, n: nat, m: nat)
    requires
        decimal(n).len() < b.len(),
        decimal(m).len() < b.len(),
        b.subrange(0, decimal(n).len() as int) == decimal(n),
        b.subrange(0, decimal(m).len() as int) == decimal(m),
        b[decimal(n).len() as int] == 13,
        b[decimal(m).len() as int] == 13,
    ensures
        n == m,
{
    lemma_decimal(n);
    lemma_decimal(m);
    let kn = decimal(n).len() as int;
    let km = decimal(m).len() as int;
    if kn < km {
        assert(b.subrange(0, km)[kn] == decimal(m)[kn]);
        assert(is_digit(decimal(m)[kn]));
    } else if km < kn {
        assert(b.subrange(0, kn)[km] == decimal(n)[km]);
        assert(is_digit(decimal(n)[km]));
    }
    assert(decimal(n) =~= decimal(m));
}

/// Integer frames decode uniquely: when the frames of `v` and of `w`, each
/// followed by further bytes, are the same bytes, then `v` and `w` are equal and
/// so are the bytes that follow. Reading back the frame of an integer thus
/// gives that integer, and encoding it again gives the same frame.
pub proof fn law_int_frame_unique(v: int, w: int, rest1: Seq<u8>, rest2: Seq<u8>)
    requires
        int_frame(v) + rest1 == int_frame(w) + rest2,
    ensures
        v == w,
        rest1 == rest2,
{
    let b = int_frame(v) + rest1;
    let fv = int_frame(v);
    let fw = int_frame(w);
    assert(b[1] == fv[1] && b[1] == fw[1]);
    lemma_decimal(if v < 0 { (-v) as nat } else { v as nat });
    lemma_decimal(if w < 0 { (-w) as nat } else { w as nat });
    if v < 0 {
        let n = (-v) as nat;
        assert(fv[1] == 45);
        assert(fw[1] == 45) by {
            if w >= 0 {
                assert(fw[1] == decimal(w as nat)[0]);
            }
        }
        let m = (-w) as nat;
        let s = b.subrange(2, b.len() as int);
        assert(s.subrange(0, decimal(n).len() as int) =~= decimal(n));
        assert(s.subrange(0, decimal(m).len() as int) =~= decimal(m));
        assert(s[decimal(n).len() as int] == fv[2 + decimal(n).len() as int]);
        assert(s[decimal(m).len() as int] == fw[2 + decimal(m).len() as int]);
        lemma_digit_runs_agree(s, n, m);
    } else {
        let n = v as nat;
        assert(fv[1] == decimal(n)[0]);
        assert(w >= 0) by {
            if w < 0 {
                assert(fw[1] == 45);
            }
        }
        let m = w as nat;
        let s = b.subrange(1, b.len() as int);
        assert(s.subrange(0, decimal(n).len() as int) =~= decimal(n));
        assert(s.subrange(0, decimal(m).len() as int) =~= decimal(m));
        assert(s[decimal(n).len() as int] == fv[1 + decimal(n).len() as int]);
        assert(s[decimal(m).len() as int] == fw[1 + decimal(m).len() as int]);
        lemma_digit_runs_agree(s, n, m);
    }
    assert(rest1 =~= b.subrange(fv.len() as int, b.len() as int));
    assert(rest2 =~= b.subrange(fw.len() as int, b.len() as int));
}

/// Text frames decode uniquely: when the frames of the texts `p` and `q`, each
/// followed by further bytes, are the same bytes, then `p` and `q` are equal and
/// so are the bytes that follow. Reading back the frame of a text thus gives that
/// text, and encoding it again gives the same frame.
pub proof fn law_text_frame_unique(p: Seq<u8>, q: Seq<u8>, rest1: Seq<u8>, rest2: Seq<u8>)
    requires
        text_frame(p) + rest1 == text_frame(q) + rest2,
    ensures
        p == q,
        rest1 == rest2,
{
    let b = text_frame(p) + rest1;
    let fp = text_frame(p);
    let fq = text_frame(q);
    assert(b[0] == fp[0] && b[0] == fq[0]);
    if has_line_break(p) != has_line_break(q) {
        assert(simple_frame(p)[0] != bulk_frame(q)[0]);
        assert(simple_frame(q)[0] != bulk_frame(p)[0]);
    } else if !has_line_break(p) {
        if p.len() < q.len() {
            assert(b[1 + p.len() as int] == fp[1 + p.len() as int]);
            assert(b[1 + p.len() as int] == fq[1 + p.len() as int]);
            assert(fq[1 + p.len() as int] == q[p.len() as int]);
        } else if q.len() < p.len() {
            assert(b[1 + q.len() as int] == fq[1 + q.len() as int]);
            assert(b[1 + q.len() as int] == fp[1 + q.len() as int]);
            assert(fp[1 + q.len() as int] == p[q.len() as int]);
        }
        assert forall|i: int| 0 <= i < p.len() implies p[i] == q[i] by {
            assert(b[1 + i] == fp[1 + i] && b[1 + i] == fq[1 + i]);
        }
        assert(p =~= q);
    } else {
        let n = p.len();
        let m = q.len();
        lemma_decimal(n);
        lemma_decimal(m);
        let s = b.subrange(1, b.len() as int);
        assert(s.subrange(0, decimal(n).len() as int) =~= decimal(n));
        assert(s.subrange(0, decimal(m).len() as int) =~= decimal(m));
        assert(s[decimal(n).len() as int] == fp[1 + decimal(n).len() as int]);
        assert(s[decimal(m).len() as int] == fq[1 + decimal(m).len() as int]);
        lemma_digit_runs_agree(s, n, m);
        let k = 3 + decimal(n).len() as int;
        assert forall|i: int| 0 <= i < p.len() implies p[i] == q[i] by {
            assert(b[k + i] == fp[k + i] && b[k + i] == fq[k + i]);
        }
        assert(p =~= q);
    }
    assert(rest1 =~= b.subrange(fp.len() as int, b.len() as int));
    assert(rest2 =~= b.subrange(fq.len() as int, b.len() as int));
}

/// Array headers decode uniquely: when the headers for `n` and for `m` elements,
/// each followed by further bytes, are the same bytes, then `n` and `m` are equal
/// and so are the bytes that follow.
pub proof fn law_array_header_unique(n: nat, m: nat, rest1: Seq<u8>, rest2: Seq<u8>)
    requires
        array_header(n) + rest1 == array_header(m) + rest2,
    ensures
        n == m,
        rest1 == rest2,
{
    let b = array_header(n) + rest1;
    let fn_ = array_header(n);
    let fm = array_header(m);
    lemma_decimal(n);
    lemma_decimal(m);
    let s = b.subrange(1, b.len() as int);
    assert(s.subrange(0, decimal(n).len() as int) =~= decimal(n));
    assert(s.subrange(0, decimal(m).len() as int) =~= decimal(m));
    assert(s[decimal(n).len() as int] == fn_[1 + decimal(n).len() as int]);
    assert(s[decimal(m).len() as int] == fm[1 + decimal(m).len() as int]);
    lemma_digit_runs_agree(s, n, m);
    assert(rest1 =~= b.subrange(fn_.len() as int, b.len() as int));
    assert(rest2 =~= b.subrange(fm.len() as int, b.len() as int));
}

/// A text's frame is a bulk string exactly when the text holds `\r` or `\n`, and
/// a simple string, never a bulk string, when it holds neither.
pub proof fn law_text_branching(b: Seq<u8>)
    ensures
        has_line_break(b) ==> text_frame(b) == bulk_frame(b),
        !has_line_break(b) ==> text_frame(b) == simple_frame(b) && text_frame(b) != bulk_frame(b),
{
    if !has_line_break(b) {
        assert(simple_frame(b)[0] != bulk_frame(b)[0]);
    }
}

/// The UTF-8 bytes of every text are well-formed and decode to that text, so a
/// text read back from its frame is the text that was written.
pub proof fn law_text_round_trip(t: Seq<char>)
    ensures
        valid_utf8(encode_utf8(t)),
        decode_utf8(encode_utf8(t)) == t,
{
    vstd::utf8::encode_utf8_valid_utf8(t);
    vstd::utf8::encode_utf8_decode_utf8(t);
}

} // verus!
