use vstd::prelude::*;

verus! {

use vstd::utf8::encode_utf8;
use vstd::utf8::decode_utf8;
use vstd::utf8::valid_utf8;
use vstd::string::StrSliceExecFns;

/// One protocol-level value: the tagged union of everything the wire
/// protocol can carry.
#[derive(Debug)]
pub enum Val {
    NullString(),
    NullArr(),
    SimpleString(String),
    BulkString(String),
    Arr(Vec<Val>),
    Error(String),
    Int(i64),
}

/// The mathematical model of a [`Val`]: text as character sequences,
/// integers unbounded, arrays as sequences of models.
#[verifier::ext_equal]
pub enum ValV {
    NullString,
    NullArr,
    SimpleString(Seq<char>),
    BulkString(Seq<char>),
    Arr(Seq<ValV>),
    Error(Seq<char>),
    Int(int),
}

/// The deep model of a value.
pub open spec fn deep(v: Val) -> ValV
    decreases v,
    via deep_decreases
{
    match v {
        Val::NullString() => ValV::NullString,
        Val::NullArr() => ValV::NullArr,
        Val::SimpleString(s) => ValV::SimpleString(s@),
        Val::BulkString(s) => ValV::BulkString(s@),
        Val::Arr(items) => ValV::Arr(
            Seq::new(
                items@.len(),
                |i: int|
                    if 0 <= i < items@.len() {
                        deep(items@[i])
                    } else {
                        ValV::NullString
                    },
            ),
        ),
        Val::Error(s) => ValV::Error(s@),
        Val::Int(i) => ValV::Int(i as int),
    }
}

#[via_fn]
proof fn deep_decreases(v: Val) {
    match v {
        Val::Arr(items) => {
            assert forall|i: int| 0 <= i < items@.len() implies decreases_to!(
                v => items@[i]) by {
                broadcast use vstd::std_specs::vec::axiom_vec_index_decreases;

                assert(decreases_to!(v => v->Arr_0));
                assert(decreases_to!(v->Arr_0 => (v->Arr_0)[i]));
                assert((v->Arr_0)[i] == items@[i]);
                assert(decreases_to!(v => items@[i]));
            }
        },
        _ => {},
    }
}

impl View for Val {
    type V = ValV;

    open spec fn view(&self) -> ValV {
        deep(*self)
    }
}

/// Canonical decimal digits of a nonnegative integer, as ASCII bytes.
pub open spec fn dec_u(n: nat) -> Seq<u8>
    decreases n,
{
    if n < 10 {
        seq![(48 + n) as u8]
    } else {
        dec_u(n / 10) + seq![(48 + n % 10) as u8]
    }
}

/// Canonical decimal rendering of an integer, sign included.
pub open spec fn dec_i(i: int) -> Seq<u8> {
    if i < 0 {
        seq![45u8] + dec_u((-i) as nat)
    } else {
        dec_u(i as nat)
    }
}

/// The two-byte line terminator: carriage return, line feed.
pub open spec fn crlf() -> Seq<u8> {
    seq![13u8, 10u8]
}

/// The byte encoding of one value, exactly as it goes on the wire.
pub open spec fn enc(v: ValV) -> Seq<u8>
    decreases v, 0int,
{
    match v {
        ValV::NullString => seq![36u8, 45u8, 49u8] + crlf(),
        ValV::NullArr => seq![42u8, 45u8, 49u8] + crlf(),
        ValV::SimpleString(s) => seq![43u8] + encode_utf8(s) + crlf(),
        ValV::Error(s) => seq![45u8] + encode_utf8(s) + crlf(),
        ValV::Int(i) => seq![58u8] + dec_i(i) + crlf(),
        ValV::BulkString(s) => seq![36u8] + dec_u(encode_utf8(s).len()) + crlf() + encode_utf8(s)
            + crlf(),
        ValV::Arr(items) => seq![42u8] + dec_u(items.len()) + crlf() + enc_list(items, 0),
    }
}

/// The concatenated encodings of the elements of `items` from index `i` on.
pub open spec fn enc_list(items: Seq<ValV>, i: int) -> Seq<u8>
    decreases items, items.len() - i,
{
    if i < 0 || i >= items.len() {
        Seq::empty()
    } else {
        enc(items[i]) + enc_list(items, i + 1)
    }
}

/// Every encoding starts with its type byte, so it is never empty.
pub proof fn lemma_enc_len_pos(v: ValV)
    ensures
        enc(v).len() >= 1,
{
}

/// Appends the canonical decimal digits of `n` to `out`.
fn push_u64_dec(out: &mut Vec<u8>, n: u64)
    ensures
        final(out)@ == old(out)@ + dec_u(n as nat),
    decreases n,
{
    if n < 10 {
        out.push((48 + n) as u8);
        assert(out@ =~= old(out)@ + dec_u(n as nat));
    } else {
        push_u64_dec(out, n / 10);
        out.push((48 + (n % 10)) as u8);
        assert(out@ =~= old(out)@ + dec_u(n as nat));
    }
}

/// Appends the canonical decimal rendering of `i`, sign included.
fn push_i64_dec(out: &mut Vec<u8>, i: i64)
    ensures
        final(out)@ == old(out)@ + dec_i(i as int),
{
    if i < 0 {
        out.push(45u8);
        let m: u64 = (-(i + 1)) as u64 + 1;
        assert(m as nat == -(i as int));
        push_u64_dec(out, m);
        assert(out@ =~= old(out)@ + dec_i(i as int));
    } else {
        push_u64_dec(out, i as u64);
        assert(out@ =~= old(out)@ + dec_i(i as int));
    }
}

/// Appends the line terminator.
fn push_crlf(out: &mut Vec<u8>)
    ensures
        final(out)@ == old(out)@ + crlf(),
{
    out.push(13u8);
    out.push(10u8);
    assert(out@ =~= old(out)@ + crlf());
}

/// Appends the full byte encoding of `v` to `out`.
pub fn push_enc(out: &mut Vec<u8>, v: &Val)
    ensures
        final(out)@ == old(out)@ + enc(v@),
    decreases v,
{
    match v {
        Val::NullString() => {
            out.push(36u8);
            out.push(45u8);
            out.push(49u8);
            push_crlf(out);
            assert(out@ =~= old(out)@ + enc(v@));
        },
        Val::NullArr() => {
            out.push(42u8);
            out.push(45u8);
            out.push(49u8);
            push_crlf(out);
            assert(out@ =~= old(out)@ + enc(v@));
        },
        Val::SimpleString(s) => {
            out.push(43u8);
            let mut bs = s.as_str().as_bytes_vec();
            out.append(&mut bs);
            push_crlf(out);
            assert(out@ =~= old(out)@ + enc(v@));
        },
        Val::Error(s) => {
            out.push(45u8);
            let mut bs = s.as_str().as_bytes_vec();
            out.append(&mut bs);
            push_crlf(out);
            assert(out@ =~= old(out)@ + enc(v@));
        },
        Val::Int(i) => {
            out.push(58u8);
            push_i64_dec(out, *i);
            push_crlf(out);
            assert(out@ =~= old(out)@ + enc(v@));
        },
        Val::BulkString(s) => {
            out.push(36u8);
            let mut bs = s.as_str().as_bytes_vec();
            push_u64_dec(out, bs.len() as u64);
            push_crlf(out);
            out.append(&mut bs);
            push_crlf(out);
            assert(out@ =~= old(out)@ + enc(v@));
        },
        Val::Arr(items) => {
            out.push(42u8);
            push_u64_dec(out, items.len() as u64);
            push_crlf(out);
            let ghost base = out@;
            let ghost vv = *v;
            let ghost models = (v@)->Arr_0;
            proof {
                assert(v@ == ValV::Arr(models));
            }
            let n = items.len();
            let mut j: usize = 0;
            while j < n
                invariant
                    n == items@.len(),
                    vv == Val::Arr(*items),
                    *v == Val::Arr(*items),
                    models == (vv@)->Arr_0,
                    models.len() == items@.len(),
                    forall|i: int| 0 <= i < models.len() ==> models[i] == (#[trigger] items@[i])@,
                    j <= n,
                    out@ + enc_list(models, j as int) =~= base + enc_list(models, 0),
                decreases n - j,
            {
                proof {
                    broadcast use vstd::std_specs::vec::axiom_vec_index_decreases;

                    assert(decreases_to!(vv => vv->Arr_0));
                    assert(vv->Arr_0 == *items);
                    assert(decreases_to!(vv->Arr_0 => (vv->Arr_0)[j as int]));
                    assert((vv->Arr_0)[j as int] == items@[j as int]);
                }
                push_enc(out, &items[j]);
                proof {
                    lemma_enc_list_peel(models, j as int);
                    assert(models[j as int] == items@[j as int]@);
                    assert(out@ + enc_list(models, (j + 1) as int) =~= base + enc_list(
                        models,
                        0,
                    ));
                }
                j = j + 1;
            }
            proof {
                assert(enc_list(models, n as int).len() == 0);
                assert(out@ + enc_list(models, n as int) =~= out@);
                assert(out@ =~= base + enc_list(models, 0));
                assert(v@ == ValV::Arr(models));
                assert(out@ =~= old(out)@ + enc(v@));
            }
        },
    }
}

/// Peeling one element off the front of an element-list encoding:
/// what stands before the tail is the encoding of the elements already done.
pub proof fn lemma_enc_list_peel(items: Seq<ValV>, i: int)
    requires
        0 <= i < items.len(),
    ensures
        enc_list(items, i) == enc(items[i]) + enc_list(items, i + 1),
        enc_list(items, i).len() >= enc_list(items, i + 1).len(),
{
}

impl Val {
    /// Encodes this value into its exact wire bytes. Encoding is total:
    /// it succeeds for every variant.
    pub fn serialize_bytes(&self) -> (r: Vec<u8>)
        ensures
            r@ == enc(self@),
    {
        let mut out: Vec<u8> = Vec::new();
        push_enc(&mut out, self);
        out
    }
}

/// Relies on String::from_utf8: it succeeds exactly on the valid UTF-8
/// byte sequences, and decodes such bytes to the characters they encode.
#[verifier::external_body]
pub(crate) fn bytes_to_string(v: Vec<u8>) -> (r: Option<String>)
    ensures
        r is Some <==> valid_utf8(v@),
        r matches Some(s) ==> s@ == decode_utf8(v@),
{
    String::from_utf8(v).ok()
}

/// A sequence of ASCII bytes is valid UTF-8.
pub proof fn lemma_ascii_valid_utf8(s: Seq<u8>)
    requires
        forall|i: int| 0 <= i < s.len() ==> #[trigger] s[i] < 128,
    ensures
        valid_utf8(s),
{
    assert(s.subrange(0, 0) =~= Seq::<u8>::empty());
    assert(valid_utf8(Seq::<u8>::empty()));
    assert(forall|i: int|
        0 <= i < s.len() ==> vstd::utf8::is_leading_byte_width_1(#[trigger] s[i]));
    vstd::utf8::partial_valid_utf8_extend_ascii_block(s, 0, s.len() as int);
    assert(s.subrange(0, s.len() as int) =~= s);
}

/// The digits of a number are ASCII digit bytes.
pub proof fn lemma_dec_u_digits(n: nat)
    ensures
        forall|i: int| 0 <= i < dec_u(n).len() ==> 48 <= #[trigger] dec_u(n)[i] <= 57,
    decreases n,
{
    if n < 10 {
        assert(dec_u(n)[0] == (48 + n) as u8);
    } else {
        lemma_dec_u_digits(n / 10);
        let a = dec_u(n / 10);
        let t = seq![(48 + n % 10) as u8];
        assert(dec_u(n) == a + t);
        assert forall|i: int| 0 <= i < dec_u(n).len() implies 48 <= #[trigger] dec_u(n)[i]
            <= 57 by {
            if i < a.len() {
                assert(dec_u(n)[i] == a[i]);
            } else {
                assert(dec_u(n)[i] == t[i - a.len()]);
            }
        }
    }
}

/// The rendering of an integer is ASCII throughout.
pub proof fn lemma_dec_i_ascii(i: int)
    ensures
        forall|k: int| 0 <= k < dec_i(i).len() ==> #[trigger] dec_i(i)[k] < 128,
{
    if i < 0 {
        lemma_dec_u_digits((-i) as nat);
    } else {
        lemma_dec_u_digits(i as nat);
    }
}

/// The byte encoding of any value is valid UTF-8: its framing is ASCII and
/// its payloads are the UTF-8 encodings of the value's own text.
pub proof fn lemma_enc_valid_utf8(v: ValV)
    ensures
        valid_utf8(enc(v)),
    decreases v, 0int,
{
    broadcast use vstd::utf8::encode_utf8_valid_utf8;

    match v {
        ValV::NullString => {
            lemma_ascii_valid_utf8(enc(v));
        },
        ValV::NullArr => {
            lemma_ascii_valid_utf8(enc(v));
        },
        ValV::Int(i) => {
            lemma_dec_i_ascii(i);
            lemma_ascii_valid_utf8(enc(v));
        },
        ValV::SimpleString(s) => {
            lemma_ascii_valid_utf8(seq![43u8]);
            vstd::utf8::valid_utf8_concat(seq![43u8], encode_utf8(s));
            lemma_ascii_valid_utf8(crlf());
            vstd::utf8::valid_utf8_concat(seq![43u8] + encode_utf8(s), crlf());
        },
        ValV::Error(s) => {
            lemma_ascii_valid_utf8(seq![45u8]);
            vstd::utf8::valid_utf8_concat(seq![45u8], encode_utf8(s));
            lemma_ascii_valid_utf8(crlf());
            vstd::utf8::valid_utf8_concat(seq![45u8] + encode_utf8(s), crlf());
        },
        ValV::BulkString(s) => {
            let header = seq![36u8] + dec_u(encode_utf8(s).len()) + crlf();
            lemma_dec_u_digits(encode_utf8(s).len());
            lemma_ascii_valid_utf8(header);
            vstd::utf8::valid_utf8_concat(header, encode_utf8(s));
            lemma_ascii_valid_utf8(crlf());
            vstd::utf8::valid_utf8_concat(header + encode_utf8(s), crlf());
            assert(enc(v) =~= header + encode_utf8(s) + crlf());
        },
        ValV::Arr(items) => {
            let header = seq![42u8] + dec_u(items.len()) + crlf();
            lemma_dec_u_digits(items.len());
            lemma_ascii_valid_utf8(header);
            lemma_enc_list_valid_utf8(items, 0);
            vstd::utf8::valid_utf8_concat(header, enc_list(items, 0));
            assert(enc(v) =~= header + enc_list(items, 0));
        },
    }
}

/// The concatenated element encodings are valid UTF-8.
pub proof fn lemma_enc_list_valid_utf8(items: Seq<ValV>, i: int)
    ensures
        valid_utf8(enc_list(items, i)),
    decreases items, items.len() - i,
{
    broadcast use vstd::seq::group_seq_axioms;

    if i < 0 || i >= items.len() {
        assert(valid_utf8(Seq::<u8>::empty()));
    } else {
        lemma_enc_valid_utf8(items[i]);
        lemma_enc_list_valid_utf8(items, i + 1);
        vstd::utf8::valid_utf8_concat(enc(items[i]), enc_list(items, i + 1));
    }
}

impl Val {
    /// Encodes this value into its exact wire bytes, as text. Encoding is
    /// total and deterministic: it succeeds for every variant.
    pub fn serialize(self) -> (r: String)
        ensures
            encode_utf8(r@) == enc(self@),
            r@ == decode_utf8(enc(self@)),
    {
        let bytes = self.serialize_bytes();
        proof {
            lemma_enc_valid_utf8(self@);
            vstd::utf8::decode_utf8_encode_utf8(enc(self@));
        }
        match bytes_to_string(bytes) {
            Some(s) => s,
            None => {
                proof {
                    assert(false);
                }
                String::new()
            },
        }
    }
}

} // verus!
