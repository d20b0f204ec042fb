use vstd::prelude::*;

verus! {

use vstd::utf8::decode_utf8;
use vstd::utf8::valid_utf8;
use vstd::slice::slice_index_get;
use vstd::slice::slice_subrange;
use vstd::slice::slice_to_vec;
use crate::error::DBError;
use crate::res::Val;
use crate::res::ValV;
use crate::res::bytes_to_string;

/// An ASCII decimal digit.
pub open spec fn is_digit(b: u8) -> bool {
    48 <= b <= 57
}

/// A nonempty run of ASCII decimal digits.
pub open spec fn is_digits(s: Seq<u8>) -> bool {
    s.len() >= 1 && forall|i: int| 0 <= i < s.len() ==> is_digit(#[trigger] s[i])
}

/// The value of a digit run, most significant digit first.
pub open spec fn digits_val(s: Seq<u8>) -> int
    decreases s.len(),
{
    if s.len() == 0 {
        0
    } else {
        digits_val(s.drop_last()) * 10 + (s.last() - 48)
    }
}

/// A decimal integer token: digits, optionally preceded by a minus sign.
pub open spec fn is_int_token(s: Seq<u8>) -> bool {
    if s.len() >= 1 && s[0] == 45 {
        is_digits(s.drop_first())
    } else {
        is_digits(s)
    }
}

/// The value of a decimal integer token.
pub open spec fn int_token_val(s: Seq<u8>) -> int {
    if s.len() >= 1 && s[0] == 45 {
        -digits_val(s.drop_first())
    } else {
        digits_val(s)
    }
}

/// Whether a mathematical integer is representable as an `i64`.
pub open spec fn fits_i64(i: int) -> bool {
    -9223372036854775808 <= i <= 9223372036854775807
}

/// The index of the first CRLF pair at or after `i`, if the buffer holds one.
pub open spec fn find_crlf(b: Seq<u8>, i: int) -> Option<int>
    decreases b.len() - i,
{
    if i < 0 || i + 2 > b.len() {
        None
    } else if b[i] == 13 && b[i + 1] == 10 {
        Some(i)
    } else {
        find_crlf(b, i + 1)
    }
}

/// A found CRLF lies at or after the start and within the buffer.
pub proof fn lemma_find_crlf_bounds(b: Seq<u8>, i: int)
    ensures
        find_crlf(b, i) matches Some(j) ==> i <= j && j + 2 <= b.len() && b[j] == 13 && b[j + 1]
            == 10,
    decreases b.len() - i,
{
    if 0 <= i && i + 2 <= b.len() && !(b[i] == 13 && b[i + 1] == 10) {
        lemma_find_crlf_bounds(b, i + 1);
    }
}

/// Digit values are nonnegative.
proof fn lemma_digits_val_nonneg(s: Seq<u8>)
    requires
        forall|i: int| 0 <= i < s.len() ==> is_digit(#[trigger] s[i]),
    ensures
        digits_val(s) >= 0,
    decreases s.len(),
{
    if s.len() > 0 {
        lemma_digits_val_nonneg(s.drop_last());
    }
}

/// Extending a digit run never shrinks its value.
proof fn lemma_digits_val_mono(s: Seq<u8>, i: int, j: int)
    requires
        0 <= i <= j <= s.len(),
        forall|k: int| 0 <= k < s.len() ==> is_digit(#[trigger] s[k]),
    ensures
        digits_val(s.subrange(0, j)) >= digits_val(s.subrange(0, i)),
    decreases j - i,
{
    if j > i {
        lemma_digits_val_mono(s, i, j - 1);
        assert(s.subrange(0, j).drop_last() =~= s.subrange(0, j - 1));
        assert(forall|k: int|
            0 <= k < s.subrange(0, j - 1).len() ==> is_digit(#[trigger] s.subrange(0, j - 1)[k]));
        lemma_digits_val_nonneg(s.subrange(0, j - 1));
    }
}

/// The outcome of decoding one value out of a byte sequence, read from
/// position `pos`: a complete value with its end position, a request for
/// more bytes, or a malformed frame.
#[verifier::ext_equal]
pub enum DecS {
    Done(ValV, int),
    More,
    Bad,
}

/// The outcome of decoding a run of consecutive values.
#[verifier::ext_equal]
pub enum DecL {
    LDone(Seq<ValV>, int),
    LMore,
    LBad,
}

/// What decoding one frame at `pos` yields. This is the specification the
/// executable decoder is proved against, and the reference for the
/// round-trip law.
pub open spec fn dec_msg(b: Seq<u8>, pos: int) -> DecS
    decreases b.len() - pos, 0int,
    via dec_msg_decreases
{
    if pos < 0 || pos >= b.len() {
        DecS::More
    } else if b[pos] == 43 || b[pos] == 45 {
        // '+' simple string, '-' error
        match find_crlf(b, pos + 1) {
            None => DecS::More,
            Some(j) => {
                let payload = b.subrange(pos + 1, j);
                if valid_utf8(payload) {
                    if b[pos] == 43 {
                        DecS::Done(ValV::SimpleString(decode_utf8(payload)), j + 2)
                    } else {
                        DecS::Done(ValV::Error(decode_utf8(payload)), j + 2)
                    }
                } else {
                    DecS::Bad
                }
            },
        }
    } else if b[pos] == 58 {
        // ':' integer
        match find_crlf(b, pos + 1) {
            None => DecS::More,
            Some(j) => {
                let tok = b.subrange(pos + 1, j);
                if is_int_token(tok) && fits_i64(int_token_val(tok)) {
                    DecS::Done(ValV::Int(int_token_val(tok)), j + 2)
                } else {
                    DecS::Bad
                }
            },
        }
    } else if b[pos] == 36 {
        // '$' bulk string
        match find_crlf(b, pos + 1) {
            None => DecS::More,
            Some(j) => {
                let tok = b.subrange(pos + 1, j);
                if !(is_int_token(tok) && fits_i64(int_token_val(tok))) {
                    DecS::Bad
                } else {
                    let n = int_token_val(tok);
                    if n == -1 {
                        DecS::Done(ValV::NullString, j + 2)
                    } else if n < 0 {
                        DecS::Bad
                    } else if b.len() < j + 2 + n + 2 {
                        DecS::More
                    } else if b[j + 2 + n] == 13 && b[j + 3 + n] == 10 {
                        let payload = b.subrange(j + 2, j + 2 + n);
                        if valid_utf8(payload) {
                            DecS::Done(ValV::BulkString(decode_utf8(payload)), j + 4 + n)
                        } else {
                            DecS::Bad
                        }
                    } else {
                        DecS::Bad
                    }
                }
            },
        }
    } else if b[pos] == 42 {
        // '*' array
        match find_crlf(b, pos + 1) {
            None => DecS::More,
            Some(j) => {
                let tok = b.subrange(pos + 1, j);
                if !(is_int_token(tok) && fits_i64(int_token_val(tok))) {
                    DecS::Bad
                } else {
                    let n = int_token_val(tok);
                    if n == -1 {
                        DecS::Done(ValV::NullArr, j + 2)
                    } else if n < 0 {
                        DecS::Bad
                    } else {
                        match dec_elems(b, j + 2, n) {
                            DecL::LDone(s, end) => DecS::Done(ValV::Arr(s), end),
                            DecL::LMore => DecS::More,
                            DecL::LBad => DecS::Bad,
                        }
                    }
                }
            },
        }
    } else {
        DecS::Bad
    }
}

/// What decoding `n` consecutive frames from `pos` yields.
pub open spec fn dec_elems(b: Seq<u8>, pos: int, n: int) -> DecL
    decreases b.len() - pos, 1int + (if n > 0 { n } else { 0int }),
{
    if n <= 0 {
        DecL::LDone(Seq::empty(), pos)
    } else {
        match dec_msg(b, pos) {
            DecS::Done(m, end) => if end <= pos || end > b.len() {
                DecL::LBad
            } else {
                match dec_elems(b, end, n - 1) {
                    DecL::LDone(s, e) => DecL::LDone(seq![m] + s, e),
                    DecL::LMore => DecL::LMore,
                    DecL::LBad => DecL::LBad,
                }
            },
            DecS::More => DecL::LMore,
            DecS::Bad => DecL::LBad,
        }
    }
}

#[via_fn]
proof fn dec_msg_decreases(b: Seq<u8>, pos: int) {
    lemma_find_crlf_bounds(b, pos + 1);
}

/// The outcome of decoding the front of a buffer: one complete value and
/// the number of bytes it occupied, a request for more bytes, or a
/// malformed frame.
pub enum Parsed {
    Complete(Val, usize),
    Incomplete,
    Malformed,
}

/// The executable result agrees with the specification decoder.
pub open spec fn parse_result_matches(b: Seq<u8>, pos: int, r: Parsed) -> bool {
    match dec_msg(b, pos) {
        DecS::Done(m, end) => r matches Parsed::Complete(v, e) && v@ == m && e as int == end && pos
            < end <= b.len(),
        DecS::More => r is Incomplete,
        DecS::Bad => r is Malformed,
    }
}

/// Scans for the first CRLF pair at or after `from`; returns the index of
/// its carriage return.
pub fn read_until_crlf(buf: &[u8], from: usize) -> (r: Option<usize>)
    ensures
        match r {
            Some(j) => find_crlf(buf@, from as int) == Some(j as int) && from <= j && j + 2
                <= buf@.len() && buf@[j as int] == 13 && buf@[j as int + 1] == 10,
            None => find_crlf(buf@, from as int) is None,
        },
{
    let n = buf.len();
    if n < 2 || from >= n - 1 {
        return None;
    }
    let mut i = from;
    while i + 1 < n
        invariant
            n == buf@.len(),
            n >= 2,
            from <= i < n,
            find_crlf(buf@, from as int) == find_crlf(buf@, i as int),
        decreases n - i,
    {
        let a = *slice_index_get(buf, i);
        let c = *slice_index_get(buf, i + 1);
        if a == 13 && c == 10 {
            proof {
                lemma_find_crlf_bounds(buf@, from as int);
            }
            return Some(i);
        }
        i = i + 1;
    }
    None
}

/// Parses a whole byte run as a decimal integer, minus sign allowed.
/// Succeeds exactly on well-formed tokens whose value fits an `i64`.
pub fn parse_int(buf: &[u8]) -> (r: Result<i64, DBError>)
    ensures
        r is Ok <==> (is_int_token(buf@) && fits_i64(int_token_val(buf@))),
        r matches Ok(v) ==> v as int == int_token_val(buf@),
        r is Err ==> r == Err::<i64, DBError>(DBError::ParseError),
{
    let n = buf.len();
    let neg = n > 0 && *slice_index_get(buf, 0) == 45;
    let start: usize = if neg { 1 } else { 0 };
    let ghost ds: Seq<u8> = if neg {
        buf@.drop_first()
    } else {
        buf@
    };
    proof {
        assert(neg ==> ds =~= buf@.subrange(1, n as int));
        assert(!neg ==> ds =~= buf@.subrange(0, n as int));
    }
    if start >= n {
        return Err(DBError::ParseError);
    }
    // limit is |i64::MIN| for a negative token, i64::MAX otherwise;
    // lim10 and lim1 are its leading digits and its last digit.
    let lim10: u64 = 922337203685477580;
    let lim1: u64 = if neg {
        8
    } else {
        7
    };
    let ghost limit: int = if neg {
        9223372036854775808
    } else {
        9223372036854775807
    };
    let mut acc: u64 = 0;
    let mut i: usize = start;
    while i < n
        invariant
            n == buf@.len(),
            n >= 1,
            neg == (buf@[0] == 45),
            start <= i <= n,
            start == (if neg {
                1int
            } else {
                0int
            }),
            neg ==> ds =~= buf@.subrange(1, n as int),
            !neg ==> ds =~= buf@.subrange(0, n as int),
            lim10 == 922337203685477580,
            limit == 10 * lim10 + lim1,
            lim1 == (if neg {
                8u64
            } else {
                7u64
            }),
            forall|k: int| 0 <= k < i - start ==> is_digit(#[trigger] ds[k]),
            acc as int == digits_val(ds.subrange(0, i - start)),
            acc as int <= limit,
        decreases n - i,
    {
        let b = *slice_index_get(buf, i);
        if !(48 <= b && b <= 57) {
            proof {
                assert(ds[i - start] == b);
                assert(!is_digits(ds));
            }
            return Err(DBError::ParseError);
        }
        let d = (b - 48) as u64;
        if acc > lim10 || (acc == lim10 && d > lim1) {
            // the next digit would push the value past the i64 range
            proof {
                let pre = ds.subrange(0, i + 1 - start);
                assert(pre.drop_last() =~= ds.subrange(0, i - start));
                assert(ds[i - start] == b);
                assert(digits_val(pre) == acc * 10 + d);
                assert(digits_val(pre) > limit);
                if is_int_token(buf@) && fits_i64(int_token_val(buf@)) {
                    assert(is_digits(ds));
                    lemma_digits_val_mono(ds, i + 1 - start, ds.len() as int);
                    assert(ds.subrange(0, ds.len() as int) =~= ds);
                    assert(digits_val(ds) > limit);
                    if neg {
                        assert(buf@.drop_first() =~= ds);
                        assert(int_token_val(buf@) == -digits_val(ds));
                    } else {
                        assert(buf@ =~= ds);
                        assert(int_token_val(buf@) == digits_val(ds));
                    }
                    assert(false);
                }
            }
            return Err(DBError::ParseError);
        }
        proof {
            let pre = ds.subrange(0, i + 1 - start);
            assert(pre.drop_last() =~= ds.subrange(0, i - start));
            assert(ds[i - start] == b);
        }
        acc = acc * 10 + d;
        i = i + 1;
    }
    proof {
        assert(ds.subrange(0, ds.len() as int) =~= ds);
        assert(is_digits(ds));
        assert(acc as int == digits_val(ds));
    }
    if neg {
        if acc >= 9223372036854775808 {
            return Ok(i64::MIN);
        }
        Ok(-(acc as i64))
    } else {
        Ok(acc as i64)
    }
}

/// Parses a simple string or an error line: everything up to the CRLF.
fn parse_line_string(buf: &[u8], pos: usize) -> (r: Parsed)
    requires
        pos < buf@.len(),
        buf@[pos as int] == 43 || buf@[pos as int] == 45,
    ensures
        parse_result_matches(buf@, pos as int, r),
{
    let n = buf.len();
    let t = *slice_index_get(buf, pos);
    match read_until_crlf(buf, pos + 1) {
        None => Parsed::Incomplete,
        Some(j) => {
            let payload = slice_to_vec(slice_subrange(buf, pos + 1, j));
            match bytes_to_string(payload) {
                Some(s) => {
                    if t == 43 {
                        Parsed::Complete(Val::SimpleString(s), j + 2)
                    } else {
                        Parsed::Complete(Val::Error(s), j + 2)
                    }
                },
                None => Parsed::Malformed,
            }
        },
    }
}

/// Parses an integer line.
fn parse_int_line(buf: &[u8], pos: usize) -> (r: Parsed)
    requires
        pos < buf@.len(),
        buf@[pos as int] == 58,
    ensures
        parse_result_matches(buf@, pos as int, r),
{
    let n = buf.len();
    match read_until_crlf(buf, pos + 1) {
        None => Parsed::Incomplete,
        Some(j) => {
            let tok = slice_subrange(buf, pos + 1, j);
            match parse_int(tok) {
                Ok(v) => Parsed::Complete(Val::Int(v), j + 2),
                Err(_) => Parsed::Malformed,
            }
        },
    }
}

/// Parses a bulk string: a decimal length line, that many payload bytes,
/// and a closing CRLF. A buffer that ends before the payload and its
/// closing CRLF are all present is incomplete, not malformed.
fn parse_bulk_string(buf: &[u8], pos: usize) -> (r: Parsed)
    requires
        pos < buf@.len(),
        buf@[pos as int] == 36,
    ensures
        parse_result_matches(buf@, pos as int, r),
{
    let n = buf.len();
    match read_until_crlf(buf, pos + 1) {
        None => Parsed::Incomplete,
        Some(j) => {
            let tok = slice_subrange(buf, pos + 1, j);
            match parse_int(tok) {
                Err(_) => Parsed::Malformed,
                Ok(v) => {
                    if v == -1 {
                        Parsed::Complete(Val::NullString(), j + 2)
                    } else if v < 0 {
                        Parsed::Malformed
                    } else {
                        let remaining = buf.len() - (j + 2);
                        if (v as u64) + 2 > remaining as u64 {
                            Parsed::Incomplete
                        } else {
                            let len = v as usize;
                            if *slice_index_get(buf, j + 2 + len) == 13 && *slice_index_get(
                                buf,
                                j + 3 + len,
                            ) == 10 {
                                let payload = slice_to_vec(slice_subrange(buf, j + 2, j + 2 + len));
                                match bytes_to_string(payload) {
                                    Some(s) => Parsed::Complete(Val::BulkString(s), j + 4 + len),
                                    None => Parsed::Malformed,
                                }
                            } else {
                                Parsed::Malformed
                            }
                        }
                    }
                },
            }
        },
    }
}

/// Parses an array: a decimal count line followed by that many frames.
fn parse_array(buf: &[u8], pos: usize) -> (r: Parsed)
    requires
        pos < buf@.len(),
        buf@[pos as int] == 42,
    ensures
        parse_result_matches(buf@, pos as int, r),
    decreases buf@.len() - pos, 0int,
{
    let nb = buf.len();
    match read_until_crlf(buf, pos + 1) {
        None => Parsed::Incomplete,
        Some(j) => {
            let tok = slice_subrange(buf, pos + 1, j);
            match parse_int(tok) {
                Err(_) => Parsed::Malformed,
                Ok(v) => {
                    if v == -1 {
                        Parsed::Complete(Val::NullArr(), j + 2)
                    } else if v < 0 {
                        Parsed::Malformed
                    } else {
                        let ghost hstart: int = j + 2;
                        let n: i64 = v;
                        let mut items: Vec<Val> = Vec::new();
                        let ghost mut ms: Seq<ValV> = Seq::empty();
                        let mut cur: usize = j + 2;
                        let mut k: i64 = 0;
                        while k < n
                            invariant
                                0 <= k <= n,
                                hstart == j + 2,
                                pos < hstart <= cur <= buf@.len(),
                                dec_msg(buf@, pos as int) == (match dec_elems(
                                    buf@,
                                    hstart,
                                    n as int,
                                ) {
                                    DecL::LDone(s, e) => DecS::Done(ValV::Arr(s), e),
                                    DecL::LMore => DecS::More,
                                    DecL::LBad => DecS::Bad,
                                }),
                                ms.len() == items@.len(),
                                forall|i: int|
                                    0 <= i < ms.len() ==> ms[i] == (#[trigger] items@[i])@,
                                dec_elems(buf@, hstart, n as int) == prepend(
                                    ms,
                                    dec_elems(buf@, cur as int, (n - k) as int),
                                ),
                            decreases n - k,
                        {
                            match parse_at(buf, cur) {
                                Parsed::Complete(item, end) => {
                                    proof {
                                        let stepped = dec_elems(buf@, end as int, (n - k - 1) as int);
                                        assert(dec_elems(buf@, cur as int, (n - k) as int)
                                            == prepend_one(item@, stepped));
                                        lemma_prepend_assoc(ms, item@, stepped);
                                        ms = ms.push(item@);
                                    }
                                    items.push(item);
                                    cur = end;
                                    k = k + 1;
                                },
                                Parsed::Incomplete => {
                                    return Parsed::Incomplete;
                                },
                                Parsed::Malformed => {
                                    return Parsed::Malformed;
                                },
                            }
                        }
                        proof {
                            assert(dec_elems(buf@, cur as int, 0) == DecL::LDone(
                                Seq::empty(),
                                cur as int,
                            ));
                            assert(ms + Seq::<ValV>::empty() =~= ms);
                            assert(dec_elems(buf@, hstart, n as int) == DecL::LDone(
                                ms,
                                cur as int,
                            ));
                        }
                        let out = Val::Arr(items);
                        proof {
                            assert(out@ matches ValV::Arr(got) && got =~= ms);
                            assert(out@ =~~= ValV::Arr(ms));
                        }
                        Parsed::Complete(out, cur)
                    }
                },
            }
        },
    }
}

/// Glues a prefix of already-decoded elements onto a list outcome.
pub open spec fn prepend(s: Seq<ValV>, r: DecL) -> DecL {
    match r {
        DecL::LDone(t, e) => DecL::LDone(s + t, e),
        DecL::LMore => DecL::LMore,
        DecL::LBad => DecL::LBad,
    }
}

/// Glues one decoded element onto a list outcome.
pub open spec fn prepend_one(m: ValV, r: DecL) -> DecL {
    match r {
        DecL::LDone(t, e) => DecL::LDone(seq![m] + t, e),
        DecL::LMore => DecL::LMore,
        DecL::LBad => DecL::LBad,
    }
}

proof fn lemma_prepend_assoc(s: Seq<ValV>, m: ValV, r: DecL)
    ensures
        prepend(s, prepend_one(m, r)) == prepend(s.push(m), r),
{
    match r {
        DecL::LDone(t, e) => {
            assert(s + (seq![m] + t) =~= s.push(m) + t);
            assert(prepend(s, prepend_one(m, r)) =~~= prepend(s.push(m), r));
        },
        _ => {},
    }
}

/// Parses one frame starting at `pos`, dispatching on the type byte.
pub fn parse_at(buf: &[u8], pos: usize) -> (r: Parsed)
    requires
        pos <= buf@.len(),
    ensures
        parse_result_matches(buf@, pos as int, r),
    decreases buf@.len() - pos, 1int,
{
    if pos >= buf.len() {
        return Parsed::Incomplete;
    }
    let t = *slice_index_get(buf, pos);
    if t == 43 || t == 45 {
        parse_line_string(buf, pos)
    } else if t == 58 {
        parse_int_line(buf, pos)
    } else if t == 36 {
        parse_bulk_string(buf, pos)
    } else if t == 42 {
        parse_array(buf, pos)
    } else {
        Parsed::Malformed
    }
}

/// Decodes the first frame of the buffer: a complete value and the bytes
/// it consumed, a request for more bytes, or a malformed-frame verdict.
pub fn decode(buf: &[u8]) -> (r: Parsed)
    ensures
        parse_result_matches(buf@, 0, r),
{
    parse_at(buf, 0)
}

/// Decodes the first frame of the buffer, collapsing "needs more bytes"
/// and "malformed" into a parse failure.
pub fn parse_message(buf: &[u8]) -> (r: Result<(Val, usize), DBError>)
    ensures
        match dec_msg(buf@, 0) {
            DecS::Done(m, end) => r matches Ok((v, e)) && v@ == m && e as int == end && 0 < end
                <= buf@.len(),
            DecS::More => r == Err::<(Val, usize), DBError>(DBError::ParseError),
            DecS::Bad => r == Err::<(Val, usize), DBError>(DBError::ParseError),
        },
{
    match decode(buf) {
        Parsed::Complete(v, e) => Ok((v, e)),
        Parsed::Incomplete => Err(DBError::ParseError),
        Parsed::Malformed => Err(DBError::ParseError),
    }
}

/// The text a value bears, if it is a text-bearing variant.
pub open spec fn str_of(m: ValV) -> Option<Seq<char>> {
    match m {
        ValV::BulkString(s) => Some(s),
        ValV::SimpleString(s) => Some(s),
        _ => None,
    }
}

/// The shape a request must have: an array of text-bearing values, the
/// command name in front.
pub open spec fn command_shape_ok(m: ValV) -> bool {
    m matches ValV::Arr(items) && items.len() >= 1 && (forall|i: int|
        0 <= i < items.len() ==> (#[trigger] str_of(items[i])) is Some)
}

/// A run of decoded frames has exactly the asked-for count of values, and
/// every frame took at least one byte.
pub proof fn lemma_dec_elems_count(b: Seq<u8>, pos: int, n: int)
    requires
        n >= 0,
        0 <= pos <= b.len(),
    ensures
        dec_elems(b, pos, n) matches DecL::LDone(s, e) ==> s.len() == n && pos <= e <= b.len() && n
            <= e - pos,
    decreases n,
{
    if n > 0 {
        match dec_msg(b, pos) {
            DecS::Done(m, end) => {
                if pos < end <= b.len() {
                    lemma_dec_elems_count(b, end, n - 1);
                }
            },
            _ => {},
        }
    }
}

/// A decoded array holds no more elements than the bytes it was read from.
pub proof fn lemma_dec_msg_arr_len(b: Seq<u8>, pos: int)
    ensures
        match dec_msg(b, pos) {
            DecS::Done(m, end) => match m {
                ValV::Arr(s) => s.len() <= end - pos && end <= b.len(),
                _ => true,
            },
            _ => true,
        },
{
    if 0 <= pos < b.len() && b[pos] == 42 {
        lemma_find_crlf_bounds(b, pos + 1);
        match find_crlf(b, pos + 1) {
            Some(j) => {
                let tok = b.subrange(pos + 1, j);
                if is_int_token(tok) && fits_i64(int_token_val(tok)) && int_token_val(tok) >= 0 {
                    lemma_dec_elems_count(b, j + 2, int_token_val(tok));
                }
            },
            None => {},
        }
    }
}

/// Takes the text out of a bulk string; every other variant is refused.
pub fn unpack_bulk_string(value: Val) -> (r: Result<String, DBError>)
    ensures
        r matches Ok(s) ==> value@ == ValV::BulkString(s@),
        r is Ok <==> value@ is BulkString,
        r is Err ==> r == Err::<String, DBError>(DBError::ParseError),
{
    match value {
        Val::BulkString(s) => Ok(s),
        _ => Err(DBError::ParseError),
    }
}

/// Translates a decoded request into its command name and arguments.
/// Exactly the well-shaped requests are accepted; the name and every
/// argument are the texts the request carries, in order.
pub fn parse_command(value: Val) -> (r: Result<(String, Vec<String>), DBError>)
    ensures
        r is Ok <==> command_shape_ok(value@),
        r matches Ok(p) ==> ({
            let items = value@->Arr_0;
            &&& p.0@ == str_of(items[0]).unwrap()
            &&& p.1.deep_view().len() == items.len() - 1
            &&& forall|i: int|
                0 <= i < items.len() - 1 ==> #[trigger] p.1.deep_view()[i] == str_of(
                    items[i + 1],
                ).unwrap()
        }),
        r is Err ==> r == Err::<(String, Vec<String>), DBError>(DBError::InvalidArg),
{
    let ghost m = value@;
    match value {
        Val::Arr(arr) => {
            let ghost items = m->Arr_0;
            proof {
                assert(m == ValV::Arr(items));
                assert(items.len() == arr@.len());
                assert(forall|i: int| 0 <= i < items.len() ==> items[i] == (#[trigger] arr@[i])@);
            }
            if arr.len() == 0 {
                return Err(DBError::InvalidArg);
            }
            let name: String = match &arr[0] {
                Val::BulkString(s) => s.clone(),
                Val::SimpleString(s) => s.clone(),
                _ => {
                    proof {
                        assert(items[0] == arr@[0]@);
                        assert(str_of(items[0]) is None);
                    }
                    return Err(DBError::InvalidArg);
                },
            };
            let n = arr.len();
            let mut args: Vec<String> = Vec::new();
            let mut i: usize = 1;
            while i < n
                invariant
                    m == value@,
                    m == ValV::Arr(items),
                    n == arr@.len(),
                    items.len() == arr@.len(),
                    forall|k: int| 0 <= k < items.len() ==> items[k] == (#[trigger] arr@[k])@,
                    1 <= i <= n,
                    args.deep_view().len() == i - 1,
                    forall|k: int|
                        0 <= k < i - 1 ==> #[trigger] args.deep_view()[k] == str_of(
                            items[k + 1],
                        ).unwrap(),
                    forall|k: int| 0 <= k < i ==> (#[trigger] str_of(items[k])) is Some,
                    name@ == str_of(items[0]).unwrap(),
                decreases n - i,
            {
                match &arr[i] {
                    Val::BulkString(s) => {
                        let ghost prev = args.deep_view();
                        args.push(s.clone());
                        proof {
                            assert(items[i as int] == arr@[i as int]@);
                            assert(args.deep_view()[i - 1] == str_of(items[i as int]).unwrap());
                            assert(forall|k: int|
                                0 <= k < prev.len() ==> #[trigger] args.deep_view()[k] == prev[k]);
                        }
                    },
                    Val::SimpleString(s) => {
                        let ghost prev = args.deep_view();
                        args.push(s.clone());
                        proof {
                            assert(items[i as int] == arr@[i as int]@);
                            assert(args.deep_view()[i - 1] == str_of(items[i as int]).unwrap());
                            assert(forall|k: int|
                                0 <= k < prev.len() ==> #[trigger] args.deep_view()[k] == prev[k]);
                        }
                    },
                    _ => {
                        proof {
                            assert(items[i as int] == arr@[i as int]@);
                            assert(str_of(items[i as int]) is None);
                        }
                        return Err(DBError::InvalidArg);
                    },
                }
                i = i + 1;
            }
            Ok((name, args))
        },
        _ => Err(DBError::InvalidArg),
    }
}

} // verus!
