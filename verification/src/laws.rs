use vstd::prelude::*;

verus! {

use vstd::utf8::encode_utf8;
use vstd::utf8::encode_scalar;
use vstd::utf8::char_is_scalar;
use vstd::seq::group_seq_axioms;
use crate::cmds::get_map;
use crate::cmds::get_reply;
use crate::content::ContentV;
use crate::content::fresh_content;
use crate::parser::DecL;
use crate::parser::DecS;
use crate::parser::dec_elems;
use crate::parser::dec_msg;
use crate::parser::digits_val;
use crate::parser::find_crlf;
use crate::parser::fits_i64;
use crate::parser::int_token_val;
use crate::parser::is_digits;
use crate::parser::is_int_token;
use crate::res::ValV;
use crate::res::crlf;
use crate::res::dec_i;
use crate::res::dec_u;
use crate::res::enc;
use crate::res::enc_list;
use crate::res::lemma_enc_list_peel;

/// Text in which no carriage return is immediately followed by a line
/// feed: such a pair would read as the protocol's own line terminator.
pub open spec fn no_crlf_pair(s: Seq<char>) -> bool {
    forall|i: int|
        0 <= i < s.len() - 1 ==> !((#[trigger] s[i]) as u32 == 13 && s[i + 1] as u32 == 10)
}

/// The values whose encodings decode back to themselves: simple strings
/// and errors carry no line terminator of their own, integers are
/// representable, and lengths are representable. Every value the decoder
/// itself can produce satisfies this.
pub open spec fn wf_val(v: ValV) -> bool
    decreases v, 0int,
{
    match v {
        ValV::NullString => true,
        ValV::NullArr => true,
        ValV::SimpleString(s) => no_crlf_pair(s),
        ValV::Error(s) => no_crlf_pair(s),
        ValV::Int(i) => fits_i64(i),
        ValV::BulkString(s) => encode_utf8(s).len() <= i64::MAX,
        ValV::Arr(items) => items.len() <= i64::MAX && wf_list(items, 0),
    }
}

/// Well-formedness of the elements of `items` from index `i` on.
pub open spec fn wf_list(items: Seq<ValV>, i: int) -> bool
    decreases items, items.len() - i,
{
    if i < 0 || i >= items.len() {
        true
    } else {
        wf_val(items[i]) && wf_list(items, i + 1)
    }
}

/// Within one scalar's encoding no CRLF pair can occur: a one-byte
/// encoding is too short for a pair, and every byte of a longer encoding
/// lies above the ASCII range.
proof fn lemma_scalar_bytes_no_crlf_pair(c: u32)
    requires
        vstd::utf8::is_scalar(c),
    ensures
        forall|k: int|
            0 <= k < encode_scalar(c).len() - 1 ==> !((#[trigger] encode_scalar(c)[k]) == 13
                && encode_scalar(c)[k + 1] == 10),
{
    if vstd::utf8::has_width_1_encoding(c) {
        assert(encode_scalar(c).len() == 1);
    } else {
        assert forall|k: int|
            0 <= k < encode_scalar(c).len() - 1 implies !((#[trigger] encode_scalar(c)[k]) == 13
            && encode_scalar(c)[k + 1] == 10) by {
            assert((0x80u8 | ((c & 0x3F) as u8)) >= 0x80) by (bit_vector);
            assert((0x80u8 | (((c >> 6) & 0x3F) as u8)) >= 0x80) by (bit_vector);
            assert((0x80u8 | (((c >> 12) & 0x3F) as u8)) >= 0x80) by (bit_vector);
            assert((0xC0u8 | (((c >> 6) & 0x1F) as u8)) >= 0x80) by (bit_vector);
            assert((0xE0u8 | (((c >> 12) & 0x0F) as u8)) >= 0x80) by (bit_vector);
            assert((0xF0u8 | (((c >> 18) & 0x7) as u8)) >= 0x80) by (bit_vector);
        }
    }
}

/// The byte 13 encodes only the carriage-return character, and the byte
/// 10 only the line feed: every other character's encoding keeps clear of
/// both, its multi-byte encodings entirely above the ASCII range.
proof fn lemma_scalar_head_low(c: u32, x: u8)
    requires
        vstd::utf8::is_scalar(c),
        x == encode_scalar(c)[0],
        x < 0x80,
    ensures
        c == x,
        encode_scalar(c).len() == 1,
{
    if vstd::utf8::has_width_1_encoding(c) {
        assert(((c & 0x7F) as u8) as u32 == c) by (bit_vector)
            requires
                c < 0x80,
        ;
    } else if vstd::utf8::has_width_2_encoding(c) {
        assert((0xC0u8 | (((c >> 6) & 0x1F) as u8)) >= 0x80) by (bit_vector);
    } else if vstd::utf8::has_width_3_encoding(c) {
        assert((0xE0u8 | (((c >> 12) & 0x0F) as u8)) >= 0x80) by (bit_vector);
    } else {
        assert((0xF0u8 | (((c >> 18) & 0x7) as u8)) >= 0x80) by (bit_vector);
    }
}

/// Every byte of a multi-byte encoding lies above the ASCII range.
proof fn lemma_scalar_multi_high(c: u32)
    requires
        vstd::utf8::is_scalar(c),
        encode_scalar(c).len() > 1,
    ensures
        forall|k: int| 0 <= k < encode_scalar(c).len() ==> (#[trigger] encode_scalar(c)[k]) >= 0x80,
{
    assert forall|k: int|
        0 <= k < encode_scalar(c).len() implies (#[trigger] encode_scalar(c)[k]) >= 0x80 by {
        assert((0x80u8 | ((c & 0x3F) as u8)) >= 0x80) by (bit_vector);
        assert((0x80u8 | (((c >> 6) & 0x3F) as u8)) >= 0x80) by (bit_vector);
        assert((0x80u8 | (((c >> 12) & 0x3F) as u8)) >= 0x80) by (bit_vector);
        assert((0xC0u8 | (((c >> 6) & 0x1F) as u8)) >= 0x80) by (bit_vector);
        assert((0xE0u8 | (((c >> 12) & 0x0F) as u8)) >= 0x80) by (bit_vector);
        assert((0xF0u8 | (((c >> 18) & 0x7) as u8)) >= 0x80) by (bit_vector);
    }
}

/// The encoding of text free of CRLF pairs holds no 13-byte immediately
/// followed by a 10-byte.
proof fn lemma_no_crlf_bytes(s: Seq<char>)
    requires
        no_crlf_pair(s),
    ensures
        forall|k: int|
            0 <= k < encode_utf8(s).len() - 1 ==> !((#[trigger] encode_utf8(s)[k]) == 13
                && encode_utf8(s)[k + 1] == 10),
    decreases s.len(),
{
    broadcast use group_seq_axioms;

    if s.len() > 0 {
        let c = s[0] as u32;
        char_is_scalar(s[0]);
        lemma_scalar_bytes_no_crlf_pair(c);
        assert(no_crlf_pair(s.drop_first()));
        lemma_no_crlf_bytes(s.drop_first());
        let head = encode_scalar(c);
        let tail = encode_utf8(s.drop_first());
        assert(encode_utf8(s) == head + tail);
        assert forall|k: int|
            0 <= k < encode_utf8(s).len() - 1 implies !((#[trigger] encode_utf8(s)[k]) == 13
            && encode_utf8(s)[k + 1] == 10) by {
            let e = encode_utf8(s);
            if k + 1 < head.len() {
                assert(e[k] == head[k] && e[k + 1] == head[k + 1]);
            } else if k == head.len() - 1 {
                assert(e[k] == head[k] && e[k + 1] == tail[0]);
                if e[k] == 13 && e[k + 1] == 10 {
                    // a 13 at the end of the head means the head is the
                    // one-byte encoding of the carriage return itself
                    if head.len() > 1 {
                        lemma_scalar_multi_high(c);
                        assert(head[k] >= 0x80);
                    }
                    assert(head.len() == 1 && k == 0);
                    lemma_scalar_head_low(c, 13);
                    assert(s.drop_first().len() > 0);
                    let c1 = s.drop_first()[0] as u32;
                    char_is_scalar(s.drop_first()[0]);
                    assert(tail == encode_scalar(c1) + encode_utf8(s.drop_first().drop_first()));
                    assert(tail[0] == encode_scalar(c1)[0]);
                    lemma_scalar_head_low(c1, 10);
                    assert(s[0] as u32 == 13 && s[1] as u32 == 10);
                }
            } else {
                assert(e[k] == tail[k - head.len()] && e[k + 1] == tail[k + 1 - head.len()]);
            }
        }
    }
}

/// Where the first CRLF pair lies: no pair starts before `j`, and at `j`
/// the pair stands.
proof fn lemma_find_crlf_from(b: Seq<u8>, start: int, j: int)
    requires
        0 <= start <= j,
        j + 2 <= b.len(),
        forall|k: int| start <= k < j ==> !((#[trigger] b[k]) == 13 && b[k + 1] == 10),
        b[j] == 13,
        b[j + 1] == 10,
    ensures
        find_crlf(b, start) == Some(j),
    decreases j - start,
{
    if start < j {
        lemma_find_crlf_from(b, start + 1, j);
    }
}

/// A subrange equation, read pointwise.
proof fn lemma_seg(b: Seq<u8>, pos: int, e: Seq<u8>)
    requires
        0 <= pos,
        pos + e.len() <= b.len(),
        b.subrange(pos, pos + e.len()) == e,
    ensures
        forall|k: int| 0 <= k < e.len() ==> b[pos + k] == #[trigger] e[k],
{
    assert forall|k: int| 0 <= k < e.len() implies b[pos + k] == #[trigger] e[k] by {
        assert(b.subrange(pos, pos + e.len())[k] == b[pos + k]);
    }
}

/// The canonical digits of a number are digits and read back as it.
proof fn lemma_dec_u_val(n: nat)
    ensures
        is_digits(dec_u(n)),
        digits_val(dec_u(n)) == n,
    decreases n,
{
    crate::res::lemma_dec_u_digits(n);
    assert(digits_val(Seq::<u8>::empty()) == 0);
    if n < 10 {
        assert(dec_u(n).drop_last() =~= Seq::<u8>::empty());
        assert(dec_u(n).last() == (48 + n) as u8);
    } else {
        lemma_dec_u_val(n / 10);
        assert(dec_u(n).drop_last() =~= dec_u(n / 10));
        assert(dec_u(n).last() == (48 + n % 10) as u8);
    }
}

/// The canonical rendering of an integer is a well-formed token that
/// reads back as the integer, and holds no line-terminator byte.
proof fn lemma_dec_i_token(i: int)
    requires
        fits_i64(i),
    ensures
        is_int_token(dec_i(i)),
        int_token_val(dec_i(i)) == i,
        forall|k: int|
            0 <= k < dec_i(i).len() ==> (#[trigger] dec_i(i)[k]) != 13 && dec_i(i)[k] != 10,
{
    broadcast use group_seq_axioms;

    crate::res::lemma_dec_i_ascii(i);
    if i < 0 {
        lemma_dec_u_val((-i) as nat);
        crate::res::lemma_dec_u_digits((-i) as nat);
        assert(dec_i(i)[0] == 45);
        assert(dec_i(i).drop_first() =~= dec_u((-i) as nat));
        assert forall|k: int|
            0 <= k < dec_i(i).len() implies (#[trigger] dec_i(i)[k]) != 13 && dec_i(i)[k]
            != 10 by {
            if k >= 1 {
                assert(dec_i(i)[k] == dec_u((-i) as nat)[k - 1]);
            }
        }
    } else {
        lemma_dec_u_val(i as nat);
        crate::res::lemma_dec_u_digits(i as nat);
        assert(dec_i(i) == dec_u(i as nat));
        assert(48 <= dec_i(i)[0] <= 57);
    }
}

/// Round trip, stated over the wire: wherever the encoding of a
/// well-formed value stands in a buffer, decoding from its first byte
/// yields exactly that value and consumes exactly its encoding.
#[verifier::rlimit(100)]
pub proof fn lemma_round_trip_at(v: ValV, b: Seq<u8>, pos: int)
    requires
        wf_val(v),
        0 <= pos,
        pos + enc(v).len() <= b.len(),
        b.subrange(pos, pos + enc(v).len()) == enc(v),
    ensures
        dec_msg(b, pos) == DecS::Done(v, pos + enc(v).len()),
    decreases v, 0int,
{
    broadcast use group_seq_axioms;
    broadcast use vstd::utf8::encode_utf8_valid_utf8;
    broadcast use vstd::utf8::encode_utf8_decode_utf8;

    let e = enc(v);
    match v {
        ValV::NullString => {
            let hdr = seq![36u8, 45u8, 49u8] + crlf();
            assert(e == hdr);
            lemma_seg(b, pos, hdr);
            assert(hdr[0] == 36 && hdr[1] == 45 && hdr[2] == 49 && hdr[3] == 13 && hdr[4] == 10);
            assert(b[pos] == 36 && b[pos + 1] == 45 && b[pos + 2] == 49 && b[pos + 3] == 13 && b[
                pos + 4
            ] == 10);
            lemma_find_crlf_from(b, pos + 1, pos + 3);
            let tok = b.subrange(pos + 1, pos + 3);
            assert(tok =~= seq![45u8, 49u8]);
            assert(tok.drop_first() =~= seq![49u8]);
            assert(seq![49u8].drop_last() =~= Seq::<u8>::empty());
            assert(digits_val(Seq::<u8>::empty()) == 0);
            assert(digits_val(tok.drop_first()) == 1);
            assert(int_token_val(tok) == -1);
            assert(dec_msg(b, pos) == DecS::Done(ValV::NullString, pos + 5));
        },
        ValV::NullArr => {
            let hdr = seq![42u8, 45u8, 49u8] + crlf();
            assert(e == hdr);
            lemma_seg(b, pos, hdr);
            assert(hdr[0] == 42 && hdr[1] == 45 && hdr[2] == 49 && hdr[3] == 13 && hdr[4] == 10);
            assert(b[pos] == 42 && b[pos + 1] == 45 && b[pos + 2] == 49 && b[pos + 3] == 13 && b[
                pos + 4
            ] == 10);
            lemma_find_crlf_from(b, pos + 1, pos + 3);
            let tok = b.subrange(pos + 1, pos + 3);
            assert(tok =~= seq![45u8, 49u8]);
            assert(tok.drop_first() =~= seq![49u8]);
            assert(seq![49u8].drop_last() =~= Seq::<u8>::empty());
            assert(digits_val(Seq::<u8>::empty()) == 0);
            assert(digits_val(tok.drop_first()) == 1);
            assert(int_token_val(tok) == -1);
            assert(dec_msg(b, pos) == DecS::Done(ValV::NullArr, pos + 5));
        },
        ValV::SimpleString(s) => {
            let es = encode_utf8(s);
            let cat = seq![43u8] + es + crlf();
            assert(e == cat);
            lemma_seg(b, pos, cat);
            lemma_no_crlf_bytes(s);
            let j = pos + 1 + es.len() as int;
            assert(cat[0] == 43);
            assert(forall|k: int| 0 <= k < es.len() ==> #[trigger] cat[1 + k] == es[k]);
            assert(cat[1 + es.len() as int] == 13 && cat[2 + es.len() as int] == 10);
            assert(b[pos] == 43);
            assert forall|k: int| pos + 1 <= k < j implies #[trigger] b[k] == es[k - pos - 1] by {
                assert(b[pos + (k - pos)] == cat[k - pos]);
                assert(cat[1 + (k - pos - 1)] == es[k - pos - 1]);
            }
            assert(b[pos + (1 + es.len() as int)] == cat[1 + es.len() as int]);
            assert(b[j] == 13);
            assert forall|k: int|
                pos + 1 <= k < j implies !((#[trigger] b[k]) == 13 && b[k + 1] == 10) by {
                if k < j - 1 {
                    assert(b[k] == es[k - pos - 1] && b[k + 1] == es[k - pos]);
                } else {
                    assert(b[k + 1] == 13);
                }
            }
            lemma_find_crlf_from(b, pos + 1, j);
            assert forall|k: int| 0 <= k < es.len() implies b.subrange(pos + 1, j)[k] == es[k] by {
                assert(b[pos + (1 + k)] == cat[1 + k]);
            }
            assert(b.subrange(pos + 1, j) =~= es);
            assert(vstd::utf8::decode_utf8(es) == s);
            assert(dec_msg(b, pos) == DecS::Done(ValV::SimpleString(s), j + 2));
        },
        ValV::Error(s) => {
            let es = encode_utf8(s);
            let cat = seq![45u8] + es + crlf();
            assert(e == cat);
            lemma_seg(b, pos, cat);
            lemma_no_crlf_bytes(s);
            let j = pos + 1 + es.len() as int;
            assert(cat[0] == 45);
            assert(forall|k: int| 0 <= k < es.len() ==> #[trigger] cat[1 + k] == es[k]);
            assert(cat[1 + es.len() as int] == 13 && cat[2 + es.len() as int] == 10);
            assert(b[pos] == 45);
            assert forall|k: int| pos + 1 <= k < j implies #[trigger] b[k] == es[k - pos - 1] by {
                assert(b[pos + (k - pos)] == cat[k - pos]);
                assert(cat[1 + (k - pos - 1)] == es[k - pos - 1]);
            }
            assert(b[pos + (1 + es.len() as int)] == cat[1 + es.len() as int]);
            assert(b[j] == 13);
            assert forall|k: int|
                pos + 1 <= k < j implies !((#[trigger] b[k]) == 13 && b[k + 1] == 10) by {
                if k < j - 1 {
                    assert(b[k] == es[k - pos - 1] && b[k + 1] == es[k - pos]);
                } else {
                    assert(b[k + 1] == 13);
                }
            }
            lemma_find_crlf_from(b, pos + 1, j);
            assert forall|k: int| 0 <= k < es.len() implies b.subrange(pos + 1, j)[k] == es[k] by {
                assert(b[pos + (1 + k)] == cat[1 + k]);
            }
            assert(b.subrange(pos + 1, j) =~= es);
            assert(vstd::utf8::decode_utf8(es) == s);
            assert(dec_msg(b, pos) == DecS::Done(ValV::Error(s), j + 2));
        },
        ValV::Int(i) => {
            let d = dec_i(i);
            let cat = seq![58u8] + d + crlf();
            assert(e == cat);
            lemma_seg(b, pos, cat);
            lemma_dec_i_token(i);
            let j = pos + 1 + d.len() as int;
            assert(cat[0] == 58);
            assert(forall|k: int| 0 <= k < d.len() ==> #[trigger] cat[1 + k] == d[k]);
            assert(cat[1 + d.len() as int] == 13 && cat[2 + d.len() as int] == 10);
            assert(b[pos] == 58);
            assert forall|k: int| pos + 1 <= k < j implies #[trigger] b[k] == d[k - pos - 1] by {
                assert(b[pos + (k - pos)] == cat[k - pos]);
                assert(cat[1 + (k - pos - 1)] == d[k - pos - 1]);
            }
            lemma_find_crlf_from(b, pos + 1, j);
            assert forall|k: int| 0 <= k < d.len() implies b.subrange(pos + 1, j)[k] == d[k] by {
                assert(b[pos + (1 + k)] == cat[1 + k]);
            }
            assert(b.subrange(pos + 1, j) =~= d);
            assert(dec_msg(b, pos) == DecS::Done(ValV::Int(i), j + 2));
        },
        ValV::BulkString(s) => {
            let es = encode_utf8(s);
            let ln = es.len() as int;
            let d = dec_u(es.len());
            let cat = seq![36u8] + d + crlf() + es + crlf();
            assert(e == cat);
            lemma_seg(b, pos, cat);
            lemma_dec_u_val(es.len());
            crate::res::lemma_dec_u_digits(es.len());
            let j = pos + 1 + d.len() as int;
            assert(cat[0] == 36);
            assert(forall|k: int| 0 <= k < d.len() ==> #[trigger] cat[1 + k] == d[k]);
            assert(cat[1 + d.len() as int] == 13 && cat[2 + d.len() as int] == 10);
            assert(forall|k: int|
                0 <= k < ln ==> #[trigger] cat[3 + d.len() as int + k] == es[k]);
            assert(cat[3 + d.len() as int + ln] == 13 && cat[4 + d.len() as int + ln] == 10);
            assert(b[pos] == 36);
            assert forall|k: int| pos + 1 <= k < j implies #[trigger] b[k] == d[k - pos - 1] by {
                assert(b[pos + (k - pos)] == cat[k - pos]);
                assert(cat[1 + (k - pos - 1)] == d[k - pos - 1]);
            }
            lemma_find_crlf_from(b, pos + 1, j);
            let tok = b.subrange(pos + 1, j);
            assert forall|k: int| 0 <= k < d.len() implies tok[k] == d[k] by {
                assert(b[pos + (1 + k)] == cat[1 + k]);
            }
            assert(tok =~= d);
            assert(int_token_val(tok) == ln);
            assert forall|k: int|
                0 <= k < ln implies b.subrange(j + 2, j + 2 + ln)[k] == es[k] by {
                assert(b[pos + (3 + d.len() + k)] == cat[3 + d.len() as int + k]);
            }
            assert(b.subrange(j + 2, j + 2 + ln) =~= es);
            assert(b[pos + (3 + d.len() as int + ln)] == cat[3 + d.len() as int + ln]);
            assert(b[pos + (4 + d.len() as int + ln)] == cat[4 + d.len() as int + ln]);
            assert(b[j + 2 + ln] == 13 && b[j + 3 + ln] == 10);
            assert(vstd::utf8::decode_utf8(es) == s);
            assert(dec_msg(b, pos) == DecS::Done(ValV::BulkString(s), j + 4 + ln));
            assert(j + 4 + ln == pos + e.len());
        },
        ValV::Arr(items) => {
            let n = items.len();
            let d = dec_u(n);
            let el = enc_list(items, 0);
            let cat = seq![42u8] + d + crlf() + el;
            assert(e == cat);
            lemma_seg(b, pos, cat);
            lemma_dec_u_val(n);
            crate::res::lemma_dec_u_digits(n);
            let j = pos + 1 + d.len() as int;
            assert(cat[0] == 42);
            assert(forall|k: int| 0 <= k < d.len() ==> #[trigger] cat[1 + k] == d[k]);
            assert(cat[1 + d.len() as int] == 13 && cat[2 + d.len() as int] == 10);
            assert(forall|k: int|
                0 <= k < el.len() ==> #[trigger] cat[3 + d.len() as int + k] == el[k]);
            assert(b[pos] == 42);
            assert forall|k: int| pos + 1 <= k < j implies #[trigger] b[k] == d[k - pos - 1] by {
                assert(b[pos + (k - pos)] == cat[k - pos]);
                assert(cat[1 + (k - pos - 1)] == d[k - pos - 1]);
            }
            lemma_find_crlf_from(b, pos + 1, j);
            let tok = b.subrange(pos + 1, j);
            assert forall|k: int| 0 <= k < d.len() implies tok[k] == d[k] by {
                assert(b[pos + (1 + k)] == cat[1 + k]);
            }
            assert(tok =~= d);
            assert(int_token_val(tok) == n);
            assert forall|k: int|
                0 <= k < el.len() implies b.subrange(j + 2, j + 2 + el.len())[k] == el[k] by {
                assert(b[pos + (3 + d.len() + k)] == cat[3 + d.len() as int + k]);
            }
            assert(b.subrange(j + 2, j + 2 + el.len()) =~= el);
            assert(decreases_to!(v => v->Arr_0));
            lemma_round_trip_list(items, b, j + 2, 0);
            assert(items.skip(0) =~= items);
            assert(dec_elems(b, j + 2, n as int) == DecL::LDone(items, j + 2 + el.len()));
            assert(dec_msg(b, pos) == DecS::Done(ValV::Arr(items), j + 2 + el.len()));
            assert(j + 2 + el.len() == pos + e.len());
        },
    }
}

/// Round trip for a run of elements: wherever the concatenated encodings
/// of the elements from index `i` on stand in a buffer, decoding that many
/// frames yields exactly those elements.
pub proof fn lemma_round_trip_list(items: Seq<ValV>, b: Seq<u8>, pos: int, i: int)
    requires
        wf_list(items, i),
        0 <= i <= items.len(),
        0 <= pos,
        pos + enc_list(items, i).len() <= b.len(),
        b.subrange(pos, pos + enc_list(items, i).len()) == enc_list(items, i),
    ensures
        dec_elems(b, pos, items.len() - i) == DecL::LDone(
            items.skip(i),
            pos + enc_list(items, i).len(),
        ),
    decreases items, items.len() - i,
{
    broadcast use group_seq_axioms;

    if i == items.len() {
        assert(items.skip(i) =~= Seq::<ValV>::empty());
        assert(dec_elems(b, pos, 0) == DecL::LDone(Seq::<ValV>::empty(), pos));
        assert(DecL::LDone(Seq::<ValV>::empty(), pos) =~~= DecL::LDone(
            items.skip(i),
            pos + enc_list(items, i).len(),
        ));
    } else {
        lemma_enc_list_peel(items, i);
        let e0 = enc(items[i]);
        let rest = enc_list(items, i + 1);
        let cat = e0 + rest;
        assert(enc_list(items, i) == cat);
        lemma_seg(b, pos, cat);
        assert forall|k: int|
            0 <= k < e0.len() implies b.subrange(pos, pos + e0.len())[k] == e0[k] by {
            assert(b[pos + k] == cat[k]);
        }
        assert(b.subrange(pos, pos + e0.len()) =~= e0);
        lemma_round_trip_at(items[i], b, pos);
        crate::res::lemma_enc_len_pos(items[i]);
        let mid = pos + e0.len() as int;
        assert forall|k: int|
            0 <= k < rest.len() implies b.subrange(mid, mid + rest.len())[k] == rest[k] by {
            assert(b[pos + (e0.len() + k)] == cat[e0.len() + k]);
        }
        assert(b.subrange(mid, mid + rest.len()) =~= rest);
        lemma_round_trip_list(items, b, mid, i + 1);
        assert(seq![items[i]] + items.skip(i + 1) =~= items.skip(i));
        assert(dec_elems(b, pos, items.len() - i) =~~= DecL::LDone(
            items.skip(i),
            pos + enc_list(items, i).len(),
        ));
    }
}

/// Round trip: decoding the encoding of any well-formed value gives the
/// value back and consumes exactly the encoding's length.
pub proof fn lemma_round_trip(v: ValV)
    requires
        wf_val(v),
    ensures
        dec_msg(enc(v), 0) == DecS::Done(v, enc(v).len() as int),
{
    assert(enc(v).subrange(0, enc(v).len() as int) =~= enc(v));
    lemma_round_trip_at(v, enc(v), 0);
}

/// A record written with a zero time-to-live never expires: a lookup at
/// any later moment returns the stored text and leaves the store alone.
pub proof fn lemma_set_zero_ttl_then_get(
    m: Map<Seq<char>, ContentV>,
    k: Seq<char>,
    v: Seq<char>,
    now: int,
    later: int,
)
    ensures
        get_reply(m.insert(k, fresh_content(k, v, 0, now)), k, later) == ValV::BulkString(v),
        get_map(m.insert(k, fresh_content(k, v, 0, now)), k, later) == m.insert(
            k,
            fresh_content(k, v, 0, now),
        ),
{
}

/// A record written with a positive time-to-live is served as long as the
/// time passed since the write does not exceed the time-to-live.
pub proof fn lemma_get_within_ttl(
    m: Map<Seq<char>, ContentV>,
    k: Seq<char>,
    v: Seq<char>,
    ttl: int,
    now: int,
    later: int,
)
    requires
        0 < ttl,
        later <= i64::MAX,
        now <= later,
        later - now <= ttl,
    ensures
        get_reply(m.insert(k, fresh_content(k, v, ttl, now)), k, later) == ValV::BulkString(v),
        get_map(m.insert(k, fresh_content(k, v, ttl, now)), k, later) == m.insert(
            k,
            fresh_content(k, v, ttl, now),
        ),
{
}

/// Once the time passed since the write exceeds the time-to-live, the
/// record is gone: the lookup reports absence and evicts it.
pub proof fn lemma_get_after_ttl(
    m: Map<Seq<char>, ContentV>,
    k: Seq<char>,
    v: Seq<char>,
    ttl: int,
    now: int,
    later: int,
)
    requires
        0 < ttl <= i64::MAX,
        now + ttl <= i64::MAX,
        later > now + ttl,
    ensures
        get_reply(m.insert(k, fresh_content(k, v, ttl, now)), k, later) == ValV::NullString,
        get_map(m.insert(k, fresh_content(k, v, ttl, now)), k, later) == m.insert(
            k,
            fresh_content(k, v, ttl, now),
        ).remove(k),
{
}

/// After a key is removed, a lookup of it finds nothing, at any time.
pub proof fn lemma_del_then_get(m: Map<Seq<char>, ContentV>, k: Seq<char>, now: int)
    ensures
        !m.remove(k).contains_key(k),
        get_reply(m.remove(k), k, now) == ValV::NullString,
        get_map(m.remove(k), k, now) == m.remove(k),
{
}

/// A bulk string whose declared length runs past the buffered bytes is
/// incomplete, not malformed: the decoder asks for more bytes and
/// consumes nothing.
pub proof fn lemma_truncated_bulk(b: Seq<u8>, j: int)
    requires
        b.len() >= 1,
        b[0] == 36,
        find_crlf(b, 1) == Some(j),
        is_int_token(b.subrange(1, j)),
        fits_i64(int_token_val(b.subrange(1, j))),
        int_token_val(b.subrange(1, j)) >= 0,
        b.len() < j + 2 + int_token_val(b.subrange(1, j)) + 2,
    ensures
        dec_msg(b, 0) == DecS::More,
{
    crate::parser::lemma_find_crlf_bounds(b, 1);
}

} // verus!
