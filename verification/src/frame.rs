//! The wire format: frames, their encoding, and the decoder.
//!
//! A frame starts with a one-byte tag: `+` simple line, `-` error line,
//! `:` decimal integer line, `$` bulk payload (or the fixed null literal
//! `$-1\r\n`), `*` array of frames. Lines end with CRLF.

use vstd::prelude::*;

verus! {

/// Carriage return.
pub const CR: u8 = 13;
/// Line feed.
pub const LF: u8 = 10;

/// One protocol message.
#[derive(Debug, PartialEq)]
pub enum Frame {
    Simple(Vec<u8>),
    Error(Vec<u8>),
    Integer(u64),
    Null,
    Bulk(Vec<u8>),
    Array(Vec<Frame>),
}

/// The mathematical model of a frame: byte sequences instead of vectors.
pub enum FrameModel {
    Simple(Seq<u8>),
    Error(Seq<u8>),
    Integer(u64),
    Null,
    Bulk(Seq<u8>),
    Array(Seq<FrameModel>),
}

/// The model of a non-array frame. Arrays hold only non-array frames here,
/// so this covers every element of an array.
pub open spec fn item_model(f: Frame) -> FrameModel {
    match f {
        Frame::Simple(s) => FrameModel::Simple(s@),
        Frame::Error(s) => FrameModel::Error(s@),
        Frame::Integer(v) => FrameModel::Integer(v),
        Frame::Null => FrameModel::Null,
        Frame::Bulk(p) => FrameModel::Bulk(p@),
        Frame::Array(_) => FrameModel::Null,
    }
}

/// The models of a sequence of frames, element by element.
pub open spec fn items_model(s: Seq<Frame>) -> Seq<FrameModel> {
    Seq::new(s.len(), |i: int| item_model(s[i]))
}

/// The model of a frame, arrays included (one level deep: the decoder never
/// produces nested arrays).
pub open spec fn frame_model(f: Frame) -> FrameModel {
    match f {
        Frame::Array(elems) => FrameModel::Array(items_model(elems@)),
        _ => item_model(f),
    }
}

/// Frame tag bytes.
pub const TAG_SIMPLE: u8 = 43;
pub const TAG_ERROR: u8 = 45;
pub const TAG_INTEGER: u8 = 58;
pub const TAG_BULK: u8 = 36;
pub const TAG_ARRAY: u8 = 42;
pub const DIGIT_ZERO: u8 = 48;
pub const DIGIT_NINE: u8 = 57;
pub const MINUS: u8 = 45;
pub const DIGIT_ONE: u8 = 49;

pub open spec fn is_digit(b: u8) -> bool {
    DIGIT_ZERO <= b <= DIGIT_NINE
}

pub open spec fn digit_val(b: u8) -> nat {
    (b - DIGIT_ZERO) as nat
}

/// Bytes allowed inside a simple or error line: anything but CR and LF.
pub open spec fn line_ok(s: Seq<u8>) -> bool {
    forall|i: int| 0 <= i < s.len() ==> s[i] != CR && s[i] != LF
}

/// Result of scanning for a CRLF-terminated line.
pub enum LineScan {
    /// The line's bytes run up to (excluding) this index, where CRLF stands.
    Found(int),
    Incomplete,
    Malformed,
}

/// Result of scanning a decimal integer followed by CRLF.
pub enum IntScan {
    /// The value, and the index of the terminating CR.
    Found(u64, int),
    Incomplete,
    Malformed,
}

/// Outcome of decoding one frame from the front of a buffer.
pub enum Parsed {
    /// The frame, and how many bytes of the buffer it occupies.
    Done(FrameModel, int),
    Incomplete,
    Malformed,
}

/// Scan `b` from index `i` for the first CRLF. A stray LF, or a CR followed
/// by anything but LF, cannot begin a valid line.
pub open spec fn scan_line(b: Seq<u8>, i: int) -> LineScan
    decreases b.len() - i,
{
    if i < 0 || i > b.len() {
        LineScan::Malformed
    } else if i == b.len() {
        LineScan::Incomplete
    } else if b[i] == CR {
        if i + 1 == b.len() {
            LineScan::Incomplete
        } else if b[i + 1] == LF {
            LineScan::Found(i)
        } else {
            LineScan::Malformed
        }
    } else if b[i] == LF {
        LineScan::Malformed
    } else {
        scan_line(b, i + 1)
    }
}

/// Scan `b` from index `i` for decimal digits terminated by CRLF, folding the
/// digits into `acc`. A value that does not fit in 64 bits is malformed.
pub open spec fn scan_int(b: Seq<u8>, i: int, acc: u64) -> IntScan
    decreases b.len() - i,
{
    if i < 0 || i > b.len() {
        IntScan::Malformed
    } else if i == b.len() {
        IntScan::Incomplete
    } else if is_digit(b[i]) {
        if acc * 10 + digit_val(b[i]) > u64::MAX {
            IntScan::Malformed
        } else {
            scan_int(b, i + 1, (acc * 10 + digit_val(b[i])) as u64)
        }
    } else if b[i] == CR {
        if i + 1 == b.len() {
            IntScan::Incomplete
        } else if b[i + 1] == LF {
            IntScan::Found(acc, i)
        } else {
            IntScan::Malformed
        }
    } else {
        IntScan::Malformed
    }
}

/// Decode one non-array frame of `b` starting at index `pos`. An array tag
/// is malformed here: arrays do not nest. On success the second component is
/// the index just past the frame.
pub open spec fn parse_item_at(b: Seq<u8>, pos: int) -> Parsed {
    if pos < 0 {
        Parsed::Malformed
    } else if pos >= b.len() {
        Parsed::Incomplete
    } else if b[pos] == TAG_SIMPLE {
        match scan_line(b, pos + 1) {
            LineScan::Found(e) => Parsed::Done(FrameModel::Simple(b.subrange(pos + 1, e)), e + 2),
            LineScan::Incomplete => Parsed::Incomplete,
            LineScan::Malformed => Parsed::Malformed,
        }
    } else if b[pos] == TAG_ERROR {
        match scan_line(b, pos + 1) {
            LineScan::Found(e) => Parsed::Done(FrameModel::Error(b.subrange(pos + 1, e)), e + 2),
            LineScan::Incomplete => Parsed::Incomplete,
            LineScan::Malformed => Parsed::Malformed,
        }
    } else if b[pos] == TAG_INTEGER {
        if pos + 1 == b.len() {
            Parsed::Incomplete
        } else if !is_digit(b[pos + 1]) {
            Parsed::Malformed
        } else {
            match scan_int(b, pos + 1, 0) {
                IntScan::Found(v, e) => Parsed::Done(FrameModel::Integer(v), e + 2),
                IntScan::Incomplete => Parsed::Incomplete,
                IntScan::Malformed => Parsed::Malformed,
            }
        }
    } else if b[pos] == TAG_BULK {
        if pos + 1 == b.len() {
            Parsed::Incomplete
        } else if b[pos + 1] == MINUS {
            parse_null(b, pos)
        } else if !is_digit(b[pos + 1]) {
            Parsed::Malformed
        } else {
            match scan_int(b, pos + 1, 0) {
                IntScan::Found(len, e) => parse_bulk_body(b, len as int, e),
                IntScan::Incomplete => Parsed::Incomplete,
                IntScan::Malformed => Parsed::Malformed,
            }
        }
    } else {
        Parsed::Malformed
    }
}

/// Decode the fixed null literal `$-1\r\n` standing at `pos`; the caller has
/// seen `$` at `pos` and `-` at `pos + 1`.
pub open spec fn parse_null(b: Seq<u8>, pos: int) -> Parsed {
    if b.len() > pos + 2 && b[pos + 2] != DIGIT_ONE {
        Parsed::Malformed
    } else if b.len() > pos + 3 && b[pos + 3] != CR {
        Parsed::Malformed
    } else if b.len() > pos + 4 && b[pos + 4] != LF {
        Parsed::Malformed
    } else if b.len() < pos + 5 {
        Parsed::Incomplete
    } else {
        Parsed::Done(FrameModel::Null, pos + 5)
    }
}

/// Decode a bulk payload of `len` bytes whose length line ends with the CR at
/// index `e`: the payload occupies `[e + 2, e + 2 + len)` and a CRLF follows.
pub open spec fn parse_bulk_body(b: Seq<u8>, len: int, e: int) -> Parsed {
    let start = e + 2;
    let need = start + len + 2;
    if b.len() > start + len && b[start + len] != CR {
        Parsed::Malformed
    } else if b.len() > start + len + 1 && b[start + len + 1] != LF {
        Parsed::Malformed
    } else if b.len() < need {
        Parsed::Incomplete
    } else {
        Parsed::Done(FrameModel::Bulk(b.subrange(start, start + len)), need)
    }
}

/// Decode `n` consecutive frames of `b` starting at index `i`; on success the
/// result is the array of their models and the index just past the last one.
pub open spec fn parse_elems(b: Seq<u8>, i: int, n: int) -> Parsed
    decreases n,
{
    if n <= 0 {
        Parsed::Done(FrameModel::Array(Seq::empty()), i)
    } else {
        match parse_item_at(b, i) {
            Parsed::Done(fm, end) => match parse_elems(b, end, n - 1) {
                Parsed::Done(rest, e) => match rest {
                    FrameModel::Array(s) => Parsed::Done(FrameModel::Array(seq![fm] + s), e),
                    _ => Parsed::Malformed,
                },
                Parsed::Incomplete => Parsed::Incomplete,
                Parsed::Malformed => Parsed::Malformed,
            },
            Parsed::Incomplete => Parsed::Incomplete,
            Parsed::Malformed => Parsed::Malformed,
        }
    }
}

/// Decode one frame, array or not, from the front of `b`. On success the
/// second component is the frame's length in bytes. This is the
/// specification that `check` and `parse` are held to.
pub open spec fn parse_frame(b: Seq<u8>) -> Parsed {
    if b.len() == 0 {
        Parsed::Incomplete
    } else if b[0] == TAG_ARRAY {
        if b.len() == 1 {
            Parsed::Incomplete
        } else if !is_digit(b[1]) {
            Parsed::Malformed
        } else {
            match scan_int(b, 1, 0) {
                IntScan::Found(n, e) => parse_elems(b, e + 2, n as int),
                IntScan::Incomplete => Parsed::Incomplete,
                IntScan::Malformed => Parsed::Malformed,
            }
        }
    } else {
        parse_item_at(b, 0)
    }
}

/// The model a successful decode yields.
pub open spec fn parsed_model(p: Parsed) -> FrameModel {
    match p {
        Parsed::Done(fm, _) => fm,
        _ => arbitrary(),
    }
}

/// The end index a successful decode yields.
pub open spec fn parsed_end(p: Parsed) -> int {
    match p {
        Parsed::Done(_, e) => e,
        _ => arbitrary(),
    }
}

/// The elements of an array model.
pub open spec fn array_elems(fm: FrameModel) -> Seq<FrameModel> {
    match fm {
        FrameModel::Array(s) => s,
        _ => arbitrary(),
    }
}

/// Same decode status, and the same end on success; the models may differ.
pub open spec fn same_shape(p: Parsed, q: Parsed) -> bool {
    match (p, q) {
        (Parsed::Done(_, e1), Parsed::Done(_, e2)) => e1 == e2,
        (Parsed::Incomplete, Parsed::Incomplete) => true,
        (Parsed::Malformed, Parsed::Malformed) => true,
        _ => false,
    }
}

/// A successful element decode always yields an array model.
pub proof fn lemma_parse_elems_array(b: Seq<u8>, i: int, n: int)
    ensures
        parse_elems(b, i, n) matches Parsed::Done(fm, _) ==> fm is Array,
    decreases n,
{
    if n > 0 {
        match parse_item_at(b, i) {
            Parsed::Done(_, end) => {
                lemma_parse_elems_array(b, end, n - 1);
            },
            _ => {},
        }
    }
}

/// The decoder's error signal: either more bytes are needed, or the buffer
/// cannot begin a valid frame.
#[derive(Debug, Clone, Copy, PartialEq, Eq, Structural)]
pub enum FrameError {
    Incomplete,
    Format,
}

enum ScanOut {
    Hit(usize),
    More,
    Bad,
}

enum DecOut {
    Hit(u64, usize),
    More,
    Bad,
}

/// Find the CRLF that ends the line starting at `start`.
fn find_line(buf: &[u8], start: usize) -> (r: ScanOut)
    requires
        start <= buf@.len(),
    ensures
        match r {
            ScanOut::Hit(e) => scan_line(buf@, start as int) == LineScan::Found(e as int)
                && start <= e && e + 2 <= buf@.len(),
            ScanOut::More => scan_line(buf@, start as int) == LineScan::Incomplete,
            ScanOut::Bad => scan_line(buf@, start as int) == LineScan::Malformed,
        },
{
    let mut i = start;
    loop
        invariant
            start <= i <= buf@.len(),
            scan_line(buf@, start as int) == scan_line(buf@, i as int),
        decreases buf@.len() - i,
    {
        if i == buf.len() {
            return ScanOut::More;
        }
        let b = *vstd::slice::slice_index_get(buf, i);
        if b == CR {
            if i + 1 == buf.len() {
                return ScanOut::More;
            }
            if *vstd::slice::slice_index_get(buf, i + 1) == LF {
                return ScanOut::Hit(i);
            }
            return ScanOut::Bad;
        }
        if b == LF {
            return ScanOut::Bad;
        }
        i = i + 1;
    }
}

/// Read the decimal line starting at `start`, up to its terminating CRLF.
fn read_decimal(buf: &[u8], start: usize) -> (r: DecOut)
    requires
        start <= buf@.len(),
    ensures
        match r {
            DecOut::Hit(v, e) => scan_int(buf@, start as int, 0) == IntScan::Found(v, e as int)
                && start <= e && e + 2 <= buf@.len(),
            DecOut::More => scan_int(buf@, start as int, 0) == IntScan::Incomplete,
            DecOut::Bad => scan_int(buf@, start as int, 0) == IntScan::Malformed,
        },
{
    let mut i = start;
    let mut acc: u64 = 0;
    loop
        invariant
            start <= i <= buf@.len(),
            scan_int(buf@, start as int, 0) == scan_int(buf@, i as int, acc),
        decreases buf@.len() - i,
    {
        if i == buf.len() {
            return DecOut::More;
        }
        let b = *vstd::slice::slice_index_get(buf, i);
        if DIGIT_ZERO <= b && b <= DIGIT_NINE {
            let d = (b - DIGIT_ZERO) as u64;
            let wide: u128 = (acc as u128) * 10 + (d as u128);
            if wide > u64::MAX as u128 {
                return DecOut::Bad;
            }
            acc = wide as u64;
            i = i + 1;
        } else if b == CR {
            if i + 1 == buf.len() {
                return DecOut::More;
            }
            if *vstd::slice::slice_index_get(buf, i + 1) == LF {
                return DecOut::Hit(acc, i);
            }
            return DecOut::Bad;
        } else {
            return DecOut::Bad;
        }
    }
}

/// Report whether one non-array frame stands complete at `pos`, and where it
/// ends.
fn check_item(buf: &[u8], pos: usize) -> (r: Result<usize, FrameError>)
    requires
        pos <= buf@.len(),
    ensures
        match r {
            Ok(end) => parse_item_at(buf@, pos as int) matches Parsed::Done(_, e)
                && e == end as int && pos < end <= buf@.len(),
            Err(FrameError::Incomplete) => parse_item_at(buf@, pos as int) is Incomplete,
            Err(FrameError::Format) => parse_item_at(buf@, pos as int) is Malformed,
        },
{
    if pos == buf.len() {
        return Err(FrameError::Incomplete);
    }
    let tag = *vstd::slice::slice_index_get(buf, pos);
    if tag == TAG_SIMPLE || tag == TAG_ERROR {
        match find_line(buf, pos + 1) {
            ScanOut::Hit(e) => Ok(e + 2),
            ScanOut::More => Err(FrameError::Incomplete),
            ScanOut::Bad => Err(FrameError::Format),
        }
    } else if tag == TAG_INTEGER {
        if pos + 1 == buf.len() {
            return Err(FrameError::Incomplete);
        }
        let b1 = *vstd::slice::slice_index_get(buf, pos + 1);
        if !(DIGIT_ZERO <= b1 && b1 <= DIGIT_NINE) {
            return Err(FrameError::Format);
        }
        match read_decimal(buf, pos + 1) {
            DecOut::Hit(_, e) => Ok(e + 2),
            DecOut::More => Err(FrameError::Incomplete),
            DecOut::Bad => Err(FrameError::Format),
        }
    } else if tag == TAG_BULK {
        if pos + 1 == buf.len() {
            return Err(FrameError::Incomplete);
        }
        let b1 = *vstd::slice::slice_index_get(buf, pos + 1);
        if b1 == MINUS {
            let rem = buf.len() - pos;
            if rem > 2 && *vstd::slice::slice_index_get(buf, pos + 2) != DIGIT_ONE {
                return Err(FrameError::Format);
            }
            if rem > 3 && *vstd::slice::slice_index_get(buf, pos + 3) != CR {
                return Err(FrameError::Format);
            }
            if rem > 4 && *vstd::slice::slice_index_get(buf, pos + 4) != LF {
                return Err(FrameError::Format);
            }
            if rem < 5 {
                return Err(FrameError::Incomplete);
            }
            Ok(pos + 5)
        } else if !(DIGIT_ZERO <= b1 && b1 <= DIGIT_NINE) {
            Err(FrameError::Format)
        } else {
            match read_decimal(buf, pos + 1) {
                DecOut::Hit(len, e) => {
                    let start = e + 2;
                    let rem = buf.len() - start;
                    if (len as u128) + 2 > (rem as u128) {
                        if (len as u128) < (rem as u128) {
                            let cr_at = start + (len as usize);
                            if *vstd::slice::slice_index_get(buf, cr_at) != CR {
                                return Err(FrameError::Format);
                            }
                        }
                        Err(FrameError::Incomplete)
                    } else {
                        let cr_at = start + (len as usize);
                        if *vstd::slice::slice_index_get(buf, cr_at) != CR {
                            return Err(FrameError::Format);
                        }
                        if *vstd::slice::slice_index_get(buf, cr_at + 1) != LF {
                            return Err(FrameError::Format);
                        }
                        Ok(cr_at + 2)
                    }
                },
                DecOut::More => Err(FrameError::Incomplete),
                DecOut::Bad => Err(FrameError::Format),
            }
        }
    } else {
        Err(FrameError::Format)
    }
}

/// Report whether one complete frame stands at the front of `buf`, and how
/// many bytes it occupies, without building the frame. `Incomplete` means
/// more bytes are needed; `Format` means no valid frame can start here.
pub fn check(buf: &[u8]) -> (r: Result<usize, FrameError>)
    ensures
        match r {
            Ok(n) => parse_frame(buf@) matches Parsed::Done(_, len)
                && len == n as int && n <= buf@.len(),
            Err(FrameError::Incomplete) => parse_frame(buf@) is Incomplete,
            Err(FrameError::Format) => parse_frame(buf@) is Malformed,
        },
{
    if buf.len() == 0 {
        return Err(FrameError::Incomplete);
    }
    let tag = *vstd::slice::slice_index_get(buf, 0);
    if tag != TAG_ARRAY {
        return check_item(buf, 0);
    }
    if buf.len() == 1 {
        return Err(FrameError::Incomplete);
    }
    let b1 = *vstd::slice::slice_index_get(buf, 1);
    if !(DIGIT_ZERO <= b1 && b1 <= DIGIT_NINE) {
        return Err(FrameError::Format);
    }
    match read_decimal(buf, 1) {
        DecOut::More => Err(FrameError::Incomplete),
        DecOut::Bad => Err(FrameError::Format),
        DecOut::Hit(n, e) => {
            let start = e + 2;
            let ghost whole = parse_elems(buf@, start as int, n as int);
            let mut pos = start;
            let mut j: u64 = 0;
            while j < n
                invariant
                    0 <= j <= n,
                    start <= pos <= buf@.len(),
                    parse_frame(buf@) == parse_elems(buf@, start as int, n as int),
                    whole == parse_elems(buf@, start as int, n as int),
                    same_shape(whole, parse_elems(buf@, pos as int, (n - j) as int)),
                decreases n - j,
            {
                proof {
                    lemma_parse_elems_array(buf@, pos as int, (n - j) as int);
                }
                match check_item(buf, pos) {
                    Ok(end) => {
                        proof {
                            lemma_parse_elems_array(buf@, end as int, (n - j - 1) as int);
                        }
                        pos = end;
                        j = j + 1;
                    },
                    Err(FrameError::Incomplete) => {
                        return Err(FrameError::Incomplete);
                    },
                    Err(FrameError::Format) => {
                        return Err(FrameError::Format);
                    },
                }
            }
            Ok(pos)
        },
    }
}

/// Build the non-array frame standing at `pos`; the caller has already seen
/// it complete. Returns the frame and the index just past it.
fn parse_item_exec(buf: &[u8], pos: usize) -> (r: (Frame, usize))
    requires
        pos <= buf@.len(),
        parse_item_at(buf@, pos as int) is Done,
    ensures
        parse_item_at(buf@, pos as int) matches Parsed::Done(fm, end)
            && item_model(r.0) == fm && r.1 == end && !(r.0 is Array)
            && pos < end <= buf@.len(),
{
    let _blen: usize = buf.len();
    proof {
        assert(pos < buf@.len());
    }
    let tag = *vstd::slice::slice_index_get(buf, pos);
    if tag == TAG_SIMPLE || tag == TAG_ERROR {
        match find_line(buf, pos + 1) {
            ScanOut::Hit(e) => {
                let text = vstd::slice::slice_to_vec(vstd::slice::slice_subrange(buf, pos + 1, e));
                if tag == TAG_SIMPLE {
                    (Frame::Simple(text), e + 2)
                } else {
                    (Frame::Error(text), e + 2)
                }
            },
            _ => {
                proof { assert(false); }
                vstd::pervasive::unreached()
            },
        }
    } else if tag == TAG_INTEGER {
        match read_decimal(buf, pos + 1) {
            DecOut::Hit(v, e) => (Frame::Integer(v), e + 2),
            _ => {
                proof { assert(false); }
                vstd::pervasive::unreached()
            },
        }
    } else {
        // TAG_BULK: the null literal or a counted payload.
        let b1 = *vstd::slice::slice_index_get(buf, pos + 1);
        if b1 == MINUS {
            (Frame::Null, pos + 5)
        } else {
            match read_decimal(buf, pos + 1) {
                DecOut::Hit(len, e) => {
                    proof {
                        assert(parse_bulk_body(buf@, len as int, e as int) is Done);
                        assert(buf@.len() >= e + 2 + len + 2);
                    }
                    let start = e + 2;
                    let lenu = len as usize;
                    let payload = vstd::slice::slice_to_vec(
                        vstd::slice::slice_subrange(buf, start, start + lenu),
                    );
                    (Frame::Bulk(payload), start + lenu + 2)
                },
                _ => {
                    proof { assert(false); }
                    vstd::pervasive::unreached()
                },
            }
        }
    }
}

/// Build the frame standing complete at the front of `buf`. The caller has
/// established completeness with `check`; the bytes are not re-validated.
pub fn parse(buf: &[u8]) -> (r: Frame)
    requires
        parse_frame(buf@) is Done,
    ensures
        parse_frame(buf@) matches Parsed::Done(fm, _) && frame_model(r) == fm,
{
    let _blen: usize = buf.len();
    let tag = *vstd::slice::slice_index_get(buf, 0);
    if tag != TAG_ARRAY {
        let (f, _) = parse_item_exec(buf, 0);
        proof {
            assert(frame_model(f) == item_model(f));
        }
        f
    } else {
        match read_decimal(buf, 1) {
            DecOut::Hit(n, e) => {
                let start = e + 2;
                let ghost whole = parse_elems(buf@, start as int, n as int);
                let ghost s = array_elems(parsed_model(whole));
                proof {
                    assert(parse_frame(buf@) == whole);
                    lemma_parse_elems_array(buf@, start as int, n as int);
                    assert(s.skip(0) =~= s);
                }
                let mut elems: Vec<Frame> = Vec::new();
                let mut pos = start;
                let mut j: u64 = 0;
                while j < n
                    invariant
                        0 <= j <= n,
                        j <= s.len(),
                        elems@.len() == j,
                        start <= pos <= buf@.len(),
                        whole == parse_elems(buf@, start as int, n as int),
                        whole is Done,
                        s == array_elems(parsed_model(whole)),
                        parse_elems(buf@, pos as int, (n - j) as int) == Parsed::Done(
                            FrameModel::Array(s.skip(j as int)),
                            parsed_end(whole),
                        ),
                        items_model(elems@) == s.take(j as int),
                    decreases n - j,
                {
                    proof {
                        // The element decode cannot have failed: the group
                        // decode succeeded.
                        if !(parse_item_at(buf@, pos as int) is Done) {
                            assert(false);
                        }
                    }
                    let (f, end) = parse_item_exec(buf, pos);
                    proof {
                        let m = (n - j) as int;
                        let t = s.skip(j as int);
                        match parse_item_at(buf@, pos as int) {
                            Parsed::Done(fm0, end0) => {
                                match parse_elems(buf@, end0, m - 1) {
                                    Parsed::Done(rest, e2) => {
                                        lemma_parse_elems_array(buf@, end0, m - 1);
                                        let s2 = array_elems(rest);
                                        assert(parse_elems(buf@, pos as int, m) == Parsed::Done(
                                            FrameModel::Array(seq![fm0] + s2),
                                            e2,
                                        ));
                                        assert(seq![fm0] + s2 == t);
                                        assert(t[0] == fm0);
                                        assert(s2 =~= t.skip(1));
                                        assert(t.skip(1) =~= s.skip(j as int + 1));
                                        assert(item_model(f) == s[j as int]);
                                        assert(items_model(elems@.push(f)) =~= s.take(
                                            j as int + 1,
                                        ));
                                    },
                                    _ => {
                                        assert(false);
                                    },
                                }
                            },
                            _ => {
                                assert(false);
                            },
                        }
                    }
                    elems.push(f);
                    pos = end;
                    j = j + 1;
                }
                proof {
                    assert(s.skip(n as int) =~= Seq::<FrameModel>::empty());
                    assert(s.len() == n);
                    assert(s.take(n as int) =~= s);
                }
                Frame::Array(elems)
            },
            _ => {
                proof { assert(false); }
                vstd::pervasive::unreached()
            },
        }
    }
}

/// The canonical decimal digits of `n`, most significant first.
pub open spec fn dec_digits(n: nat) -> Seq<u8>
    decreases n,
{
    if n < 10 {
        seq![(DIGIT_ZERO + n) as u8]
    } else {
        dec_digits(n / 10).push((DIGIT_ZERO + n % 10) as u8)
    }
}

/// The value of a digit string folded left to right onto `acc`, as the
/// scanner folds it.
pub open spec fn dec_value_acc(s: Seq<u8>, acc: nat) -> nat
    decreases s.len(),
{
    if s.len() == 0 {
        acc
    } else {
        dec_value_acc(s.drop_first(), acc * 10 + digit_val(s[0]))
    }
}

pub open spec fn crlf() -> Seq<u8> {
    seq![CR, LF]
}

/// The bytes a frame model encodes to. Arrays have no encoding here: the
/// writer refuses them.
pub open spec fn encode(fm: FrameModel) -> Seq<u8> {
    match fm {
        FrameModel::Simple(s) => seq![TAG_SIMPLE] + s + crlf(),
        FrameModel::Error(s) => seq![TAG_ERROR] + s + crlf(),
        FrameModel::Integer(v) => seq![TAG_INTEGER] + dec_digits(v as nat) + crlf(),
        FrameModel::Null => seq![TAG_BULK, MINUS, DIGIT_ONE, CR, LF],
        FrameModel::Bulk(p) => seq![TAG_BULK] + dec_digits(p.len()) + crlf() + p + crlf(),
        FrameModel::Array(_) => Seq::empty(),
    }
}

/// A model the writer can encode: lines free of CR and LF, bulk payloads
/// whose length fits the length line, and no array.
pub open spec fn model_wf(fm: FrameModel) -> bool {
    match fm {
        FrameModel::Simple(s) => line_ok(s),
        FrameModel::Error(s) => line_ok(s),
        FrameModel::Integer(_) => true,
        FrameModel::Null => true,
        FrameModel::Bulk(p) => p.len() <= u64::MAX,
        FrameModel::Array(_) => false,
    }
}

/// A frame the writer can encode.
pub open spec fn frame_wf(f: Frame) -> bool {
    model_wf(frame_model(f))
}

/// Append every byte of `data` to `out`.
fn push_all(out: &mut Vec<u8>, data: &[u8])
    ensures
        final(out)@ == old(out)@ + data@,
{
    let n: usize = data.len();
    let mut i: usize = 0;
    while i < n
        invariant
            i <= n,
            n == data@.len(),
            out@ == old(out)@ + data@.take(i as int),
        decreases n - i,
    {
        let b = *vstd::slice::slice_index_get(data, i);
        out.push(b);
        proof {
            assert((old(out)@ + data@.take(i as int)).push(b) =~= old(out)@ + data@.take(
                i as int + 1,
            ));
        }
        i = i + 1;
    }
    proof {
        assert(data@.take(n as int) =~= data@);
    }
}

/// Append the canonical decimal digits of `v` to `out`.
fn push_decimal(out: &mut Vec<u8>, v: u64)
    ensures
        final(out)@ == old(out)@ + dec_digits(v as nat),
{
    let mut tmp: Vec<u8> = Vec::new();
    let mut x: u64 = v;
    proof {
        assert(tmp@.reverse() =~= Seq::<u8>::empty());
    }
    while x >= 10
        invariant
            dec_digits(v as nat) == dec_digits(x as nat) + tmp@.reverse(),
        decreases x,
    {
        let d: u8 = DIGIT_ZERO + ((x % 10) as u8);
        proof {
            let ghost t2 = tmp@.push(d);
            assert(t2.reverse() =~= seq![d] + tmp@.reverse());
            assert(dec_digits((x / 10) as nat).push(d) =~= dec_digits((x / 10) as nat) + seq![d]);
            assert(dec_digits(x as nat) == dec_digits((x / 10) as nat).push(d));
            assert(dec_digits((x / 10) as nat) + (seq![d] + tmp@.reverse()) =~= (dec_digits(
                (x / 10) as nat,
            ) + seq![d]) + tmp@.reverse());
        }
        tmp.push(d);
        x = x / 10;
    }
    let d: u8 = DIGIT_ZERO + (x as u8);
    proof {
        let ghost t2 = tmp@.push(d);
        assert(t2.reverse() =~= seq![d] + tmp@.reverse());
        assert(dec_digits(x as nat) == seq![d]);
        assert(dec_digits(x as nat) + tmp@.reverse() =~= seq![d] + tmp@.reverse());
    }
    tmp.push(d);
    // `tmp` holds the digits least significant first; emit them reversed.
    let n: usize = tmp.len();
    let mut k: usize = 0;
    while k < n
        invariant
            k <= n,
            n == tmp@.len(),
            dec_digits(v as nat) == tmp@.reverse(),
            out@ == old(out)@ + tmp@.reverse().take(k as int),
        decreases n - k,
    {
        let b = tmp[n - 1 - k];
        proof {
            assert(tmp@.reverse()[k as int] == tmp@[n - 1 - k as int]);
            assert((old(out)@ + tmp@.reverse().take(k as int)).push(b) =~= old(out)@
                + tmp@.reverse().take(k as int + 1));
        }
        out.push(b);
        k = k + 1;
    }
    proof {
        assert(tmp@.reverse().take(n as int) =~= tmp@.reverse());
    }
}

/// Report whether `f` is a line free of CR and LF, a bulk payload whose
/// length the length line can carry, an integer, or null: exactly the frames
/// the writer encodes.
pub fn is_serializable(f: &Frame) -> (r: bool)
    ensures
        r == frame_wf(*f),
{
    match f {
        Frame::Simple(text) => line_free_of_crlf(text.as_slice()),
        Frame::Error(text) => line_free_of_crlf(text.as_slice()),
        Frame::Integer(_) => true,
        Frame::Null => true,
        Frame::Bulk(p) => (p.len() as u128) <= (u64::MAX as u128),
        Frame::Array(_) => false,
    }
}

/// Report whether `data` holds neither CR nor LF.
fn line_free_of_crlf(data: &[u8]) -> (r: bool)
    ensures
        r == line_ok(data@),
{
    let n: usize = data.len();
    let mut i: usize = 0;
    while i < n
        invariant
            i <= n,
            n == data@.len(),
            forall|j: int| 0 <= j < i ==> data@[j] != CR && data@[j] != LF,
        decreases n - i,
    {
        let b = *vstd::slice::slice_index_get(data, i);
        if b == CR || b == LF {
            return false;
        }
        i = i + 1;
    }
    true
}

/// Encode a frame to bytes, per the grammar. An array has no encoding: the
/// caller keeps arrays off the write path.
pub fn serialize(f: &Frame) -> (r: Vec<u8>)
    requires
        frame_wf(*f),
    ensures
        r@ == encode(frame_model(*f)),
{
    let mut out: Vec<u8> = Vec::new();
    match f {
        Frame::Simple(text) => {
            out.push(TAG_SIMPLE);
            push_all(&mut out, text.as_slice());
            out.push(CR);
            out.push(LF);
            proof {
                assert(out@ =~= seq![TAG_SIMPLE] + text@ + crlf());
            }
        },
        Frame::Error(text) => {
            out.push(TAG_ERROR);
            push_all(&mut out, text.as_slice());
            out.push(CR);
            out.push(LF);
            proof {
                assert(out@ =~= seq![TAG_ERROR] + text@ + crlf());
            }
        },
        Frame::Integer(v) => {
            out.push(TAG_INTEGER);
            push_decimal(&mut out, *v);
            out.push(CR);
            out.push(LF);
            proof {
                assert(out@ =~= seq![TAG_INTEGER] + dec_digits(*v as nat) + crlf());
            }
        },
        Frame::Null => {
            out.push(TAG_BULK);
            out.push(MINUS);
            out.push(DIGIT_ONE);
            out.push(CR);
            out.push(LF);
            proof {
                assert(out@ =~= seq![TAG_BULK, MINUS, DIGIT_ONE, CR, LF]);
            }
        },
        Frame::Bulk(p) => {
            out.push(TAG_BULK);
            push_decimal(&mut out, p.len() as u64);
            out.push(CR);
            out.push(LF);
            push_all(&mut out, p.as_slice());
            out.push(CR);
            out.push(LF);
            proof {
                assert(out@ =~= seq![TAG_BULK] + dec_digits(p@.len()) + crlf() + p@ + crlf());
            }
        },
        Frame::Array(_) => {
            proof {
                assert(false);
            }
            vstd::pervasive::unreached()
        },
    }
    out
}

} // verus!
