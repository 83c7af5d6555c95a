//! The laws the wire format obeys: encoding then decoding gives the frame
//! back; a strict prefix of an encoded frame is never taken for a frame or
//! for garbage; and feeding a stream in pieces yields the frames that
//! feeding it whole would.

use crate::frame::{
    crlf, dec_digits, dec_value_acc, digit_val, encode, is_digit, model_wf, parse_bulk_body,
    parse_elems, parse_frame, parse_item_at, parse_null, scan_int, scan_line, FrameModel, IntScan,
    LineScan, Parsed, CR, DIGIT_ONE, DIGIT_ZERO, LF, MINUS, TAG_ARRAY, TAG_BULK, TAG_ERROR,
    TAG_INTEGER, TAG_SIMPLE,
};
use vstd::prelude::*;

verus! {

proof fn lemma_scan_line_finds(b: Seq<u8>, i: int, e: int)
    requires
        0 <= i <= e,
        e + 2 <= b.len(),
        forall|j: int| i <= j < e ==> b[j] != CR && b[j] != LF,
        b[e] == CR,
        b[e + 1] == LF,
    ensures
        scan_line(b, i) == LineScan::Found(e),
    decreases e - i,
{
    if i < e {
        lemma_scan_line_finds(b, i + 1, e);
    }
}

proof fn lemma_dec_value_acc_lower(s: Seq<u8>, acc: nat)
    ensures
        dec_value_acc(s, acc) >= acc,
    decreases s.len(),
{
    if s.len() > 0 {
        let acc2 = (acc * 10 + digit_val(s[0])) as nat;
        assert(acc * 10 >= acc) by (nonlinear_arith);
        lemma_dec_value_acc_lower(s.drop_first(), acc2);
    }
}

proof fn lemma_scan_int_reads(b: Seq<u8>, i: int, e: int, acc: u64)
    requires
        0 <= i <= e,
        e + 2 <= b.len(),
        forall|j: int| i <= j < e ==> is_digit(b[j]),
        b[e] == CR,
        b[e + 1] == LF,
        dec_value_acc(b.subrange(i, e), acc as nat) <= u64::MAX,
    ensures
        scan_int(b, i, acc) == IntScan::Found(
            dec_value_acc(b.subrange(i, e), acc as nat) as u64,
            e,
        ),
    decreases e - i,
{
    if i == e {
        assert(b.subrange(i, e) =~= Seq::<u8>::empty());
    } else {
        let s = b.subrange(i, e);
        assert(s[0] == b[i]);
        assert(is_digit(b[i]));
        let acc2 = (acc * 10 + digit_val(b[i])) as nat;
        assert(s.drop_first() =~= b.subrange(i + 1, e));
        assert(dec_value_acc(s, acc as nat) == dec_value_acc(b.subrange(i + 1, e), acc2));
        lemma_dec_value_acc_lower(b.subrange(i + 1, e), acc2);
        lemma_scan_int_reads(b, i + 1, e, acc2 as u64);
    }
}

proof fn lemma_dec_digits_digits(n: nat)
    ensures
        dec_digits(n).len() >= 1,
        forall|i: int| 0 <= i < dec_digits(n).len() ==> is_digit(#[trigger] dec_digits(n)[i]),
    decreases n,
{
    if n < 10 {
    } else {
        lemma_dec_digits_digits(n / 10);
        let dd = dec_digits(n / 10);
        let d = (DIGIT_ZERO + n % 10) as u8;
        assert forall|i: int| 0 <= i < dd.push(d).len() implies is_digit(
            #[trigger] dd.push(d)[i],
        ) by {
            if i < dd.len() {
                assert(dd.push(d)[i] == dd[i]);
            } else {
                assert(dd.push(d)[i] == d);
            }
        }
    }
}

proof fn lemma_dec_value_push(s: Seq<u8>, d: u8, acc: nat)
    ensures
        dec_value_acc(s.push(d), acc) == dec_value_acc(s, acc) * 10 + digit_val(d),
    decreases s.len(),
{
    if s.len() == 0 {
        assert(s.push(d).len() == 1);
        assert(s.push(d)[0] == d);
        assert(s.push(d).drop_first() =~= Seq::<u8>::empty());
        assert(dec_value_acc(s.push(d), acc) == dec_value_acc(
            Seq::<u8>::empty(),
            (acc * 10 + digit_val(d)) as nat,
        ));
    } else {
        let acc2 = (acc * 10 + digit_val(s[0])) as nat;
        assert(s.push(d)[0] == s[0]);
        assert(s.push(d).drop_first() =~= s.drop_first().push(d));
        assert(dec_value_acc(s, acc) == dec_value_acc(s.drop_first(), acc2));
        assert(dec_value_acc(s.push(d), acc) == dec_value_acc(s.drop_first().push(d), acc2));
        lemma_dec_value_push(s.drop_first(), d, acc2);
    }
}

proof fn lemma_dec_digits_value(n: nat)
    ensures
        dec_value_acc(dec_digits(n), 0) == n,
    decreases n,
{
    if n < 10 {
        assert(dec_digits(n).len() == 1);
        assert(dec_digits(n)[0] == (DIGIT_ZERO + n) as u8);
        assert(dec_digits(n).drop_first() =~= Seq::<u8>::empty());
        assert(digit_val((DIGIT_ZERO + n) as u8) == n);
        assert(dec_value_acc(dec_digits(n), 0) == dec_value_acc(Seq::<u8>::empty(), n));
    } else {
        lemma_dec_digits_value(n / 10);
        lemma_dec_value_push(dec_digits(n / 10), (DIGIT_ZERO + n % 10) as u8, 0);
        assert(digit_val((DIGIT_ZERO + n % 10) as u8) == n % 10);
        vstd::arithmetic::div_mod::lemma_fundamental_div_mod(n as int, 10);
    }
}

proof fn lemma_scan_line_incomplete(b: Seq<u8>, i: int)
    requires
        0 <= i <= b.len(),
        forall|j: int| i <= j < b.len() ==> b[j] != LF && (b[j] == CR ==> j == b.len() - 1),
    ensures
        scan_line(b, i) == LineScan::Incomplete,
    decreases b.len() - i,
{
    if i < b.len() && b[i] != CR {
        lemma_scan_line_incomplete(b, i + 1);
    }
}

proof fn lemma_dec_value_concat(s1: Seq<u8>, s2: Seq<u8>, acc: nat)
    ensures
        dec_value_acc(s1 + s2, acc) == dec_value_acc(s2, dec_value_acc(s1, acc)),
    decreases s1.len(),
{
    if s1.len() == 0 {
        assert(s1 + s2 =~= s2);
    } else {
        let acc2 = (acc * 10 + digit_val(s1[0])) as nat;
        assert((s1 + s2)[0] == s1[0]);
        assert((s1 + s2).drop_first() =~= s1.drop_first() + s2);
        lemma_dec_value_concat(s1.drop_first(), s2, acc2);
    }
}

/// Scanning a digit run that the buffer cuts short, or cuts right after its
/// CR, reports it incomplete. The digits run over `[i, m)`; `m` is the
/// buffer's end or one before it, with the CR standing there.
proof fn lemma_scan_int_incomplete(b: Seq<u8>, i: int, m: int, acc: u64)
    requires
        0 <= i <= m <= b.len(),
        b.len() - m <= 1,
        forall|j: int| i <= j < m ==> is_digit(b[j]),
        m < b.len() ==> b[m] == CR,
        dec_value_acc(b.subrange(i, m), acc as nat) <= u64::MAX,
    ensures
        scan_int(b, i, acc) == IntScan::Incomplete,
    decreases m - i,
{
    if i == m {
    } else {
        let s = b.subrange(i, m);
        assert(s[0] == b[i]);
        let acc2 = (acc * 10 + digit_val(b[i])) as nat;
        assert(s.drop_first() =~= b.subrange(i + 1, m));
        assert(dec_value_acc(s, acc as nat) == dec_value_acc(b.subrange(i + 1, m), acc2));
        lemma_dec_value_acc_lower(b.subrange(i + 1, m), acc2);
        lemma_scan_int_incomplete(b, i + 1, m, acc2 as u64);
    }
}

/// A strict prefix of an encoded frame is never taken for a complete frame,
/// and never for garbage: the decoder always asks for more bytes, whatever
/// the cut. This holds for every encodable model, which is every variant but
/// the array; for flat arrays see `lemma_array_prefix_incomplete`.
pub proof fn lemma_prefix_incomplete(fm: FrameModel, i: int)
    requires
        model_wf(fm),
        !(fm is Array),
        0 <= i < encode(fm).len(),
    ensures
        parse_frame(encode(fm).take(i)) is Incomplete,
{
    let b = encode(fm);
    let t = b.take(i);
    assert(t.subrange(0, t.len() as int) =~= encode(fm).take(t.len() - 0));
    lemma_item_prefix_at(t, 0, fm);
    if i > 0 {
        assert(t[0] == b[0]);
        match fm {
            FrameModel::Simple(_) => {
                assert(b[0] == TAG_SIMPLE);
            },
            FrameModel::Error(_) => {
                assert(b[0] == TAG_ERROR);
            },
            FrameModel::Integer(_) => {
                assert(b[0] == TAG_INTEGER);
            },
            FrameModel::Null => {
                assert(b[0] == TAG_BULK);
            },
            FrameModel::Bulk(_) => {
                assert(b[0] == TAG_BULK);
            },
            FrameModel::Array(_) => {
            },
        }
    }
}

/// Decoding an encoded frame gives the frame back, whole: the round trip
/// holds for every encodable model, which is every variant but the array.
pub proof fn lemma_round_trip(fm: FrameModel)
    requires
        model_wf(fm),
        !(fm is Array),
    ensures
        parse_frame(encode(fm)) == Parsed::Done(fm, encode(fm).len() as int),
{
    let b = encode(fm);
    assert(b.subrange(0, b.len() as int) =~= b);
    lemma_item_at(b, 0, fm);
    match fm {
        FrameModel::Simple(_) => {
            assert(b[0] == TAG_SIMPLE);
        },
        FrameModel::Error(_) => {
            assert(b[0] == TAG_ERROR);
        },
        FrameModel::Integer(_) => {
            assert(b[0] == TAG_INTEGER);
        },
        FrameModel::Null => {
            assert(b[0] == TAG_BULK);
        },
        FrameModel::Bulk(_) => {
            assert(b[0] == TAG_BULK);
        },
        FrameModel::Array(_) => {
        },
    }
}

/// An encodable non-array model whose encoding stands at `i` in `b` decodes
/// right there, to itself, whatever bytes follow it.
proof fn lemma_item_at(b: Seq<u8>, i: int, fm: FrameModel)
    requires
        model_wf(fm),
        !(fm is Array),
        0 <= i,
        i + encode(fm).len() <= b.len(),
        b.subrange(i, i + encode(fm).len() as int) == encode(fm),
    ensures
        parse_item_at(b, i) == Parsed::Done(fm, i + encode(fm).len() as int),
{
    let enc = encode(fm);
    let n = enc.len() as int;
    assert forall|p: int| i <= p < i + n implies b[p] == enc[p - i] by {
        assert(b.subrange(i, i + n)[p - i] == enc[p - i]);
    }
    match fm {
        FrameModel::Simple(s) => {
            let e = i + 1 + s.len() as int;
            assert(b[i] == TAG_SIMPLE);
            assert(forall|p: int| i + 1 <= p < e ==> #[trigger] b[p] == s[p - i - 1]);
            assert(b[e] == CR && b[e + 1] == LF);
            lemma_scan_line_finds(b, i + 1, e);
            assert(b.subrange(i + 1, e) =~= s);
        },
        FrameModel::Error(s) => {
            let e = i + 1 + s.len() as int;
            assert(b[i] == TAG_ERROR);
            assert(forall|p: int| i + 1 <= p < e ==> #[trigger] b[p] == s[p - i - 1]);
            assert(b[e] == CR && b[e + 1] == LF);
            lemma_scan_line_finds(b, i + 1, e);
            assert(b.subrange(i + 1, e) =~= s);
        },
        FrameModel::Integer(v) => {
            let dd = dec_digits(v as nat);
            lemma_dec_digits_digits(v as nat);
            lemma_dec_digits_value(v as nat);
            let k = dd.len() as int;
            let e = i + 1 + k;
            assert(b[i] == TAG_INTEGER);
            assert(forall|p: int| i + 1 <= p < e ==> #[trigger] b[p] == dd[p - i - 1]);
            assert(forall|p: int| i + 1 <= p < e ==> is_digit(#[trigger] b[p]));
            assert(b[e] == CR && b[e + 1] == LF);
            assert(b.subrange(i + 1, e) =~= dd);
            lemma_scan_int_reads(b, i + 1, e, 0);
            assert(is_digit(b[i + 1]));
        },
        FrameModel::Null => {
            assert(b[i] == TAG_BULK && b[i + 1] == MINUS && b[i + 2] == DIGIT_ONE && b[i + 3]
                == CR && b[i + 4] == LF);
            assert(parse_null(b, i) == Parsed::Done(FrameModel::Null, i + 5));
        },
        FrameModel::Bulk(p) => {
            let dd = dec_digits(p.len());
            lemma_dec_digits_digits(p.len());
            lemma_dec_digits_value(p.len());
            let k = dd.len() as int;
            let e = i + 1 + k;
            let start = e + 2;
            let plen = p.len() as int;
            assert(b[i] == TAG_BULK);
            assert(forall|p2: int| i + 1 <= p2 < e ==> #[trigger] b[p2] == dd[p2 - i - 1]);
            assert(forall|p2: int| i + 1 <= p2 < e ==> is_digit(#[trigger] b[p2]));
            assert(b[e] == CR && b[e + 1] == LF);
            assert(b.subrange(i + 1, e) =~= dd);
            lemma_scan_int_reads(b, i + 1, e, 0);
            assert(is_digit(b[i + 1]));
            assert(b[i + 1] != MINUS);
            assert(forall|p2: int| start <= p2 < start + plen ==> #[trigger] b[p2] == p[p2
                - start]);
            assert(b[start + plen] == CR && b[start + plen + 1] == LF);
            assert(b.subrange(start, start + plen) =~= p);
            assert(parse_bulk_body(b, plen, e) == Parsed::Done(
                FrameModel::Bulk(p),
                start + plen + 2,
            ));
        },
        FrameModel::Array(_) => {
        },
    }
}

/// The encoding of consecutive elements, one after the other.
pub open spec fn encode_elems(es: Seq<FrameModel>) -> Seq<u8>
    decreases es.len(),
{
    if es.len() == 0 {
        Seq::empty()
    } else {
        encode(es[0]) + encode_elems(es.drop_first())
    }
}

/// The encoding of a flat array: the count line, then each element.
pub open spec fn encode_array(es: Seq<FrameModel>) -> Seq<u8> {
    seq![TAG_ARRAY] + dec_digits(es.len()) + crlf() + encode_elems(es)
}

/// Elements a flat array can carry: encodable, none an array itself.
pub open spec fn elems_wf(es: Seq<FrameModel>) -> bool {
    forall|j: int| 0 <= j < es.len() ==> model_wf(#[trigger] es[j]) && !(es[j] is Array)
}

proof fn lemma_elems_at(b: Seq<u8>, i: int, es: Seq<FrameModel>)
    requires
        elems_wf(es),
        0 <= i,
        i + encode_elems(es).len() <= b.len(),
        b.subrange(i, i + encode_elems(es).len() as int) == encode_elems(es),
    ensures
        parse_elems(b, i, es.len() as int) == Parsed::Done(
            FrameModel::Array(es),
            i + encode_elems(es).len() as int,
        ),
    decreases es.len(),
{
    if es.len() == 0 {
        assert(es =~= Seq::<FrameModel>::empty());
    } else {
        let e0 = es[0];
        let rest = es.drop_first();
        let enc0 = encode(e0);
        let encr = encode_elems(rest);
        let n0 = enc0.len() as int;
        let total = n0 + encr.len() as int;
        assert(encode_elems(es) == enc0 + encr);
        assert forall|p: int| i <= p < i + total implies b[p] == (enc0 + encr)[p - i] by {
            assert(b.subrange(i, i + total)[p - i] == (enc0 + encr)[p - i]);
        }
        assert(b.subrange(i, i + n0) =~= enc0);
        lemma_item_at(b, i, e0);
        assert(b.subrange(i + n0, i + total) =~= encr);
        lemma_elems_at(b, i + n0, rest);
        assert(seq![e0] + rest =~= es);
    }
}

/// A flat array of encodable elements decodes from its own encoding back to
/// exactly those elements: the round trip extended to the command frames the
/// read path consumes.
pub proof fn lemma_array_round_trip(es: Seq<FrameModel>)
    requires
        elems_wf(es),
        es.len() <= u64::MAX,
    ensures
        parse_frame(encode_array(es)) == Parsed::Done(
            FrameModel::Array(es),
            encode_array(es).len() as int,
        ),
{
    let b = encode_array(es);
    let n = es.len();
    let dd = dec_digits(n);
    lemma_dec_digits_digits(n);
    lemma_dec_digits_value(n);
    let k = dd.len() as int;
    let e = 1 + k;
    let start = e + 2;
    assert(b.len() == k + 3 + encode_elems(es).len());
    assert(b[0] == TAG_ARRAY);
    assert(forall|j: int| 1 <= j < e ==> b[j] == dd[j - 1]);
    assert(forall|j: int| 1 <= j < e ==> is_digit(b[j]));
    assert(b[e] == CR && b[e + 1] == LF);
    assert(b.subrange(1, e) =~= dd);
    lemma_scan_int_reads(b, 1, e, 0);
    assert(is_digit(b[1]));
    assert(forall|j: int| 0 <= j < encode_elems(es).len() ==> b[start + j] == encode_elems(
        es,
    )[j]);
    assert(b.subrange(start, start + encode_elems(es).len() as int) =~= encode_elems(es));
    lemma_elems_at(b, start, es);
}

/// An encodable non-array model of which only a strict prefix stands at
/// `i`, running to the buffer's very end, decodes as incomplete.
proof fn lemma_item_prefix_at(b: Seq<u8>, i: int, fm: FrameModel)
    requires
        model_wf(fm),
        !(fm is Array),
        0 <= i <= b.len(),
        b.len() < i + encode(fm).len(),
        b.subrange(i, b.len() as int) == encode(fm).take(b.len() - i),
    ensures
        parse_item_at(b, i) is Incomplete,
{
    let enc = encode(fm);
    let cut = b.len() - i;
    assert forall|p: int| i <= p < b.len() implies b[p] == enc[p - i] by {
        let k = p - i;
        assert(0 <= k < cut);
        assert(b.subrange(i, b.len() as int)[k] == b[i + k]);
        assert(encode(fm).take(b.len() - i)[k] == enc[k]);
        assert(i + k == p);
    }
    if cut == 0 {
    } else {
        match fm {
            FrameModel::Simple(s) => {
                assert(b[i] == TAG_SIMPLE);
                assert forall|j: int| i + 1 <= j < b.len() implies b[j] != LF && (b[j] == CR
                    ==> j == b.len() - 1) by {
                    if j - i < 1 + s.len() {
                        assert(enc[j - i] == s[j - i - 1]);
                    }
                }
                lemma_scan_line_incomplete(b, i + 1);
            },
            FrameModel::Error(s) => {
                assert(b[i] == TAG_ERROR);
                assert forall|j: int| i + 1 <= j < b.len() implies b[j] != LF && (b[j] == CR
                    ==> j == b.len() - 1) by {
                    if j - i < 1 + s.len() {
                        assert(enc[j - i] == s[j - i - 1]);
                    }
                }
                lemma_scan_line_incomplete(b, i + 1);
            },
            FrameModel::Integer(v) => {
                let dd = dec_digits(v as nat);
                lemma_dec_digits_digits(v as nat);
                lemma_dec_digits_value(v as nat);
                let k = dd.len() as int;
                assert(b[i] == TAG_INTEGER);
                if cut >= 2 {
                    assert(b[i + 1] == dd[0]);
                    assert(is_digit(b[i + 1]));
                    let m = if cut <= 1 + k {
                        b.len() as int
                    } else {
                        i + 1 + k
                    };
                    assert(forall|j: int| i + 1 <= j < m ==> #[trigger] b[j] == dd[j - i - 1]);
                    assert(b.subrange(i + 1, m) =~= dd.subrange(0, m - i - 1));
                    assert(dd =~= dd.subrange(0, m - i - 1) + dd.subrange(m - i - 1, k));
                    lemma_dec_value_concat(
                        dd.subrange(0, m - i - 1),
                        dd.subrange(m - i - 1, k),
                        0,
                    );
                    lemma_dec_value_acc_lower(
                        dd.subrange(m - i - 1, k),
                        dec_value_acc(dd.subrange(0, m - i - 1), 0),
                    );
                    lemma_scan_int_incomplete(b, i + 1, m, 0);
                }
            },
            FrameModel::Null => {
                assert(b[i] == TAG_BULK);
                if cut >= 2 {
                    assert(b[i + 1] == MINUS);
                    assert(cut >= 3 ==> b[i + 2] == DIGIT_ONE);
                    assert(cut >= 4 ==> b[i + 3] == CR);
                    assert(parse_null(b, i) is Incomplete);
                }
            },
            FrameModel::Bulk(p) => {
                let dd = dec_digits(p.len());
                lemma_dec_digits_digits(p.len());
                lemma_dec_digits_value(p.len());
                let k = dd.len() as int;
                let plen = p.len() as int;
                assert(enc.len() == k + plen + 5);
                assert(b[i] == TAG_BULK);
                if cut >= 2 {
                    assert(b[i + 1] == dd[0]);
                    assert(is_digit(b[i + 1]));
                    assert(b[i + 1] != MINUS);
                    if cut <= 2 + k {
                        let m = if cut <= 1 + k {
                            b.len() as int
                        } else {
                            i + 1 + k
                        };
                        assert(forall|j: int| i + 1 <= j < m ==> #[trigger] b[j] == dd[j - i
                            - 1]);
                        assert(b.subrange(i + 1, m) =~= dd.subrange(0, m - i - 1));
                        assert(dd =~= dd.subrange(0, m - i - 1) + dd.subrange(m - i - 1, k));
                        lemma_dec_value_concat(
                            dd.subrange(0, m - i - 1),
                            dd.subrange(m - i - 1, k),
                            0,
                        );
                        lemma_dec_value_acc_lower(
                            dd.subrange(m - i - 1, k),
                            dec_value_acc(dd.subrange(0, m - i - 1), 0),
                        );
                        lemma_scan_int_incomplete(b, i + 1, m, 0);
                    } else {
                        let e = i + 1 + k;
                        assert(forall|j: int| i + 1 <= j < e ==> #[trigger] b[j] == dd[j - i
                            - 1]);
                        assert(forall|j: int| i + 1 <= j < e ==> is_digit(#[trigger] b[j]));
                        assert(b[e] == CR && b[e + 1] == LF);
                        assert(b.subrange(i + 1, e) =~= dd);
                        lemma_scan_int_reads(b, i + 1, e, 0);
                        let start = e + 2;
                        if b.len() > start + plen {
                            assert(b[start + plen] == enc[k + plen + 3]);
                            assert(enc[k + plen + 3] == CR);
                        }
                        assert(parse_bulk_body(b, plen, e) is Incomplete);
                    }
                }
            },
            FrameModel::Array(_) => {
            },
        }
    }
}

/// Elements of which the buffer holds a strict prefix, running to its very
/// end, decode as incomplete.
proof fn lemma_elems_prefix_at(b: Seq<u8>, i: int, es: Seq<FrameModel>)
    requires
        elems_wf(es),
        0 <= i <= b.len(),
        b.len() < i + encode_elems(es).len(),
        b.subrange(i, b.len() as int) == encode_elems(es).take(b.len() - i),
    ensures
        parse_elems(b, i, es.len() as int) is Incomplete,
    decreases es.len(),
{
    assert(es.len() > 0);
    let e0 = es[0];
    let rest = es.drop_first();
    let enc0 = encode(e0);
    let encr = encode_elems(rest);
    let n0 = enc0.len() as int;
    let cut = b.len() - i;
    assert(encode_elems(es) == enc0 + encr);
    assert forall|p: int| i <= p < b.len() implies b[p] == (enc0 + encr)[p - i] by {
        assert(b.subrange(i, b.len() as int)[p - i] == encode_elems(es).take(cut)[p - i]);
    }
    if cut < n0 {
        assert(b.subrange(i, b.len() as int) =~= enc0.take(cut));
        lemma_item_prefix_at(b, i, e0);
    } else {
        assert(b.subrange(i, i + n0) =~= enc0);
        lemma_item_at(b, i, e0);
        assert(b.subrange(i + n0, b.len() as int) =~= encr.take(cut - n0));
        lemma_elems_prefix_at(b, i + n0, rest);
    }
}

/// A strict prefix of an encoded flat array - a cut anywhere in the count
/// line or among the elements - decodes as incomplete, never as a frame and
/// never as garbage.
pub proof fn lemma_array_prefix_incomplete(es: Seq<FrameModel>, i: int)
    requires
        elems_wf(es),
        es.len() <= u64::MAX,
        0 <= i < encode_array(es).len(),
    ensures
        parse_frame(encode_array(es).take(i)) is Incomplete,
{
    let b = encode_array(es);
    let t = b.take(i);
    let dd = dec_digits(es.len());
    lemma_dec_digits_digits(es.len());
    lemma_dec_digits_value(es.len());
    let k = dd.len() as int;
    let h = 3 + k;
    assert(t.len() == i);
    assert(forall|j: int| 0 <= j < i ==> t[j] == b[j]);
    if i == 0 {
    } else {
        assert(t[0] == TAG_ARRAY);
        if i >= 2 {
            assert(t[1] == dd[0]);
            assert(is_digit(t[1]));
            if i <= 2 + k {
                let m = if i <= 1 + k {
                    i
                } else {
                    1 + k
                };
                assert(forall|j: int| 1 <= j < m ==> #[trigger] t[j] == dd[j - 1]);
                assert(t.subrange(1, m) =~= dd.subrange(0, m - 1));
                assert(dd =~= dd.subrange(0, m - 1) + dd.subrange(m - 1, k));
                lemma_dec_value_concat(dd.subrange(0, m - 1), dd.subrange(m - 1, k), 0);
                lemma_dec_value_acc_lower(
                    dd.subrange(m - 1, k),
                    dec_value_acc(dd.subrange(0, m - 1), 0),
                );
                lemma_scan_int_incomplete(t, 1, m, 0);
            } else {
                let e = 1 + k;
                assert(forall|j: int| 1 <= j < e ==> #[trigger] t[j] == dd[j - 1]);
                assert(forall|j: int| 1 <= j < e ==> is_digit(#[trigger] t[j]));
                assert(t[e] == CR && t[e + 1] == LF);
                assert(t.subrange(1, e) =~= dd);
                lemma_scan_int_reads(t, 1, e, 0);
                assert(t.subrange(h, t.len() as int) =~= encode_elems(es).take(i - h));
                lemma_elems_prefix_at(t, h, es);
            }
        }
    }
}

proof fn lemma_scan_line_found_bounds(b: Seq<u8>, i: int)
    requires
        0 <= i <= b.len(),
    ensures
        scan_line(b, i) matches LineScan::Found(e) ==> i <= e && e + 2 <= b.len() && b[e] == CR
            && b[e + 1] == LF && (forall|j: int| i <= j < e ==> b[j] != CR && b[j] != LF),
    decreases b.len() - i,
{
    if i < b.len() && b[i] != CR && b[i] != LF {
        lemma_scan_line_found_bounds(b, i + 1);
    }
}

proof fn lemma_scan_int_found_bounds(b: Seq<u8>, i: int, acc: u64)
    requires
        0 <= i <= b.len(),
    ensures
        scan_int(b, i, acc) matches IntScan::Found(v, e) ==> i <= e && e + 2 <= b.len() && b[e]
            == CR && b[e + 1] == LF && (forall|j: int| i <= j < e ==> is_digit(b[j])),
    decreases b.len() - i,
{
    if i < b.len() && is_digit(b[i]) {
        if acc * 10 + digit_val(b[i]) <= u64::MAX {
            lemma_scan_int_found_bounds(b, i + 1, (acc * 10 + digit_val(b[i])) as u64);
        }
    }
}

proof fn lemma_scan_line_extend(b: Seq<u8>, ext: Seq<u8>, i: int)
    requires
        0 <= i <= b.len(),
    ensures
        scan_line(b, i) matches LineScan::Found(e) ==> scan_line(b + ext, i) == LineScan::Found(
            e,
        ),
        scan_line(b, i) is Malformed ==> scan_line(b + ext, i) is Malformed,
    decreases b.len() - i,
{
    let c = b + ext;
    if i < b.len() {
        assert(c[i] == b[i]);
        if b[i] == CR {
            if i + 1 < b.len() {
                assert(c[i + 1] == b[i + 1]);
            }
        } else if b[i] != LF {
            lemma_scan_line_extend(b, ext, i + 1);
        }
    }
}

proof fn lemma_scan_int_extend(b: Seq<u8>, ext: Seq<u8>, i: int, acc: u64)
    requires
        0 <= i <= b.len(),
    ensures
        scan_int(b, i, acc) matches IntScan::Found(v, e) ==> scan_int(b + ext, i, acc)
            == IntScan::Found(v, e),
        scan_int(b, i, acc) is Malformed ==> scan_int(b + ext, i, acc) is Malformed,
    decreases b.len() - i,
{
    let c = b + ext;
    if i < b.len() {
        assert(c[i] == b[i]);
        if is_digit(b[i]) {
            if acc * 10 + digit_val(b[i]) <= u64::MAX {
                lemma_scan_int_extend(b, ext, i + 1, (acc * 10 + digit_val(b[i])) as u64);
            }
        } else if b[i] == CR {
            if i + 1 < b.len() {
                assert(c[i + 1] == b[i + 1]);
            }
        }
    }
}

proof fn lemma_parse_item_bounds(b: Seq<u8>, pos: int)
    ensures
        parse_item_at(b, pos) matches Parsed::Done(fm, end) ==> pos < end <= b.len(),
{
    if 0 <= pos < b.len() {
        lemma_scan_line_found_bounds(b, pos + 1);
        lemma_scan_int_found_bounds(b, pos + 1, 0);
    }
}

proof fn lemma_parse_item_extend(b: Seq<u8>, ext: Seq<u8>, pos: int)
    requires
        0 <= pos,
    ensures
        parse_item_at(b, pos) matches Parsed::Done(fm, end) ==> parse_item_at(b + ext, pos)
            == Parsed::Done(fm, end),
        parse_item_at(b, pos) is Malformed ==> parse_item_at(b + ext, pos) is Malformed,
{
    let c = b + ext;
    assert(forall|j: int| 0 <= j < b.len() ==> c[j] == b[j]);
    if pos < b.len() {
        lemma_scan_line_extend(b, ext, pos + 1);
        lemma_scan_line_found_bounds(b, pos + 1);
        lemma_scan_int_extend(b, ext, pos + 1, 0);
        lemma_scan_int_found_bounds(b, pos + 1, 0);
        if b[pos] == TAG_SIMPLE || b[pos] == TAG_ERROR {
            match scan_line(b, pos + 1) {
                LineScan::Found(e) => {
                    assert(c.subrange(pos + 1, e) =~= b.subrange(pos + 1, e));
                },
                _ => {},
            }
        } else if b[pos] == TAG_BULK {
            if pos + 1 < b.len() && b[pos + 1] != MINUS && is_digit(b[pos + 1]) {
                match scan_int(b, pos + 1, 0) {
                    IntScan::Found(len, e) => {
                        let start = e + 2;
                        let plen = len as int;
                        if b.len() >= start + plen + 2 {
                            assert(c.subrange(start, start + plen) =~= b.subrange(
                                start,
                                start + plen,
                            ));
                        }
                    },
                    _ => {},
                }
            }
        }
    }
}

proof fn lemma_parse_elems_bounds(b: Seq<u8>, i: int, n: int)
    requires
        0 <= i <= b.len(),
    ensures
        parse_elems(b, i, n) matches Parsed::Done(fm, end) ==> i <= end <= b.len(),
    decreases n,
{
    if n > 0 {
        lemma_parse_item_bounds(b, i);
        match parse_item_at(b, i) {
            Parsed::Done(_, end0) => {
                lemma_parse_elems_bounds(b, end0, n - 1);
            },
            _ => {},
        }
    }
}

proof fn lemma_parse_elems_extend(b: Seq<u8>, ext: Seq<u8>, i: int, n: int)
    requires
        0 <= i,
    ensures
        parse_elems(b, i, n) matches Parsed::Done(fm, end) ==> parse_elems(b + ext, i, n)
            == Parsed::Done(fm, end),
        parse_elems(b, i, n) is Malformed ==> parse_elems(b + ext, i, n) is Malformed,
    decreases n,
{
    if n > 0 {
        lemma_parse_item_extend(b, ext, i);
        lemma_parse_item_bounds(b, i);
        match parse_item_at(b, i) {
            Parsed::Done(_, end0) => {
                lemma_parse_elems_extend(b, ext, end0, n - 1);
            },
            _ => {},
        }
    }
}

/// A buffer that already holds a complete frame at its front keeps exactly
/// that frame, with the same boundary, however many bytes arrive after it;
/// and bytes that cannot begin a frame stay bad. Only "more bytes needed"
/// can change with more input.
pub proof fn lemma_parse_frame_extend(b: Seq<u8>, ext: Seq<u8>)
    ensures
        parse_frame(b) matches Parsed::Done(fm, len) ==> parse_frame(b + ext) == Parsed::Done(
            fm,
            len,
        ),
        parse_frame(b) is Malformed ==> parse_frame(b + ext) is Malformed,
{
    let c = b + ext;
    if b.len() > 0 {
        assert(c[0] == b[0]);
        if b[0] == TAG_ARRAY {
            if b.len() > 1 {
                assert(c[1] == b[1]);
                lemma_scan_int_extend(b, ext, 1, 0);
                lemma_scan_int_found_bounds(b, 1, 0);
                match scan_int(b, 1, 0) {
                    IntScan::Found(n, e) => {
                        lemma_parse_elems_extend(b, ext, e + 2, n as int);
                    },
                    _ => {},
                }
            }
        } else {
            lemma_parse_item_extend(b, ext, 0);
        }
    }
}

/// A successful decode consumes at least one byte and no more than the
/// buffer holds.
pub proof fn lemma_parse_frame_len(b: Seq<u8>)
    ensures
        parse_frame(b) matches Parsed::Done(fm, len) ==> 1 <= len <= b.len(),
{
    if b.len() > 0 {
        lemma_parse_item_bounds(b, 0);
        if b[0] == TAG_ARRAY && b.len() > 1 {
            lemma_scan_int_found_bounds(b, 1, 0);
            match scan_int(b, 1, 0) {
                IntScan::Found(n, e) => {
                    lemma_parse_elems_bounds(b, e + 2, n as int);
                },
                _ => {},
            }
        }
    }
}

/// Every frame the buffer yields when drained greedily from the front, in
/// order.
pub open spec fn frames_of(b: Seq<u8>) -> Seq<FrameModel>
    decreases b.len(),
{
    match parse_frame(b) {
        Parsed::Done(fm, len) => if 1 <= len <= b.len() {
            seq![fm] + frames_of(b.skip(len))
        } else {
            seq![fm]
        },
        _ => Seq::empty(),
    }
}

/// What remains of the buffer once it is drained greedily from the front.
pub open spec fn leftover(b: Seq<u8>) -> Seq<u8>
    decreases b.len(),
{
    match parse_frame(b) {
        Parsed::Done(_, len) => if 1 <= len <= b.len() {
            leftover(b.skip(len))
        } else {
            b
        },
        _ => b,
    }
}

/// Feeding a stream in two pieces yields the frames that feeding it whole
/// would: draining `b` first and then draining what is left of `b` followed
/// by `ext` gives exactly the frames of `b + ext`, and the same remainder.
/// Applied chunk by chunk, a stream cut into arbitrary pieces - one byte at
/// a time included - yields the same frames in the same order as the whole
/// stream at once.
pub proof fn lemma_chunked_feed(b: Seq<u8>, ext: Seq<u8>)
    ensures
        frames_of(b + ext) == frames_of(b) + frames_of(leftover(b) + ext),
        leftover(b + ext) == leftover(leftover(b) + ext),
    decreases b.len(),
{
    lemma_parse_frame_len(b);
    lemma_parse_frame_extend(b, ext);
    match parse_frame(b) {
        Parsed::Done(fm, len) => {
            assert((b + ext).skip(len) =~= b.skip(len) + ext);
            lemma_chunked_feed(b.skip(len), ext);
            assert(frames_of(b + ext) == seq![fm] + frames_of(b.skip(len) + ext));
            assert(frames_of(b) == seq![fm] + frames_of(b.skip(len)));
            assert(leftover(b) == leftover(b.skip(len)));
            assert(seq![fm] + (frames_of(b.skip(len)) + frames_of(leftover(b.skip(len)) + ext))
                =~= (seq![fm] + frames_of(b.skip(len))) + frames_of(leftover(b.skip(len)) + ext));
        },
        Parsed::Incomplete => {
            assert(leftover(b) == b);
            assert(frames_of(b) == Seq::<FrameModel>::empty());
            assert(Seq::<FrameModel>::empty() + frames_of(b + ext) =~= frames_of(b + ext));
        },
        Parsed::Malformed => {
            assert(leftover(b) == b);
            assert(frames_of(b) == Seq::<FrameModel>::empty());
            assert(Seq::<FrameModel>::empty() + frames_of(b + ext) =~= frames_of(b + ext));
        },
    }
}

} // verus!
