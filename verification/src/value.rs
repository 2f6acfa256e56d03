use vstd::prelude::*;
use vstd::utf8::encode_utf8;

use crate::grammar::{
    crlf, dec_digits, int_line, BYTE_F, BYTE_MINUS, BYTE_ONE, BYTE_T, CR, LF, TAG_ARRAY,
    TAG_BOOLEAN, TAG_BULK, TAG_ERROR, TAG_INTEGER, TAG_NULL, TAG_SIMPLE,
};

verus! {

/// The mathematical model of a RESP value: one variant per token kind of the
/// wire grammar, with arrays nesting recursively. Contracts are stated over
/// this type; `RespValue` is its executable counterpart.
pub enum RespData {
    SimpleString(Seq<char>),
    ErrorLine(Seq<char>),
    Integer(i64),
    Boolean(bool),
    Null,
    BulkString(Option<Seq<u8>>),
    Array(Option<Seq<RespData>>),
}

/// A tagged union over the RESP token kinds, offered as a convenience value
/// type for round trips. `None` in `BulkString` and `Array` is the absent
/// (null) state, distinct from a present empty payload.
#[derive(Debug, PartialEq)]
pub enum RespValue {
    SimpleString(String),
    ErrorLine(String),
    Integer(i64),
    Boolean(bool),
    Null,
    BulkString(Option<Vec<u8>>),
    Array(Option<Vec<RespValue>>),
}

pub open spec fn view_value(v: RespValue) -> RespData
    decreases v,
{
    match v {
        RespValue::SimpleString(s) => RespData::SimpleString(s@),
        RespValue::ErrorLine(s) => RespData::ErrorLine(s@),
        RespValue::Integer(i) => RespData::Integer(i),
        RespValue::Boolean(b) => RespData::Boolean(b),
        RespValue::Null => RespData::Null,
        RespValue::BulkString(o) => match o {
            Option::None => RespData::BulkString(Option::None),
            Option::Some(b) => RespData::BulkString(Option::Some(b@)),
        },
        RespValue::Array(o) => match o {
            Option::None => RespData::Array(Option::None),
            Option::Some(a) => RespData::Array(Option::Some(view_elems(a@))),
        },
    }
}

pub open spec fn view_elems(s: Seq<RespValue>) -> Seq<RespData>
    decreases s,
{
    if s.len() == 0 {
        Seq::empty()
    } else {
        seq![view_value(s[0])] + view_elems(s.drop_first())
    }
}

impl View for RespValue {
    type V = RespData;

    open spec fn view(&self) -> RespData {
        view_value(*self)
    }
}

pub proof fn lemma_view_elems(s: Seq<RespValue>)
    ensures
        view_elems(s).len() == s.len(),
        forall|k: int| 0 <= k < s.len() ==> view_elems(s)[k] == view_value(#[trigger] s[k]),
    decreases s,
{
    if s.len() > 0 {
        let t = s.drop_first();
        lemma_view_elems(t);
        assert forall|k: int| 0 <= k < s.len() implies view_elems(s)[k] == view_value(
            #[trigger] s[k],
        ) by {
            if k > 0 {
                assert(view_elems(s)[k] == view_elems(t)[k - 1]);
                assert(t[k - 1] == s[k]);
            }
        }
    }
}

pub proof fn lemma_view_elems_push(s: Seq<RespValue>, v: RespValue)
    ensures
        view_elems(s.push(v)) == view_elems(s) + seq![view_value(v)],
{
    lemma_view_elems(s.push(v));
    lemma_view_elems(s);
    assert forall|k: int| 0 <= k < s.len() + 1 implies view_elems(s.push(v))[k] == (view_elems(s)
        + seq![view_value(v)])[k] by {
        if k < s.len() {
            assert(s.push(v)[k] == s[k]);
        } else {
            assert(s.push(v)[k] == v);
        }
    }
    assert(view_elems(s.push(v)) =~= view_elems(s) + seq![view_value(v)]);
}

/// The text of a simple-string or error line must contain no framing bytes:
/// neither CR nor LF may occur among its encoded bytes.
pub open spec fn line_text_ok(t: Seq<char>) -> bool {
    forall|i: int|
        0 <= i < encode_utf8(t).len() ==> (#[trigger] encode_utf8(t)[i]) != CR && encode_utf8(
            t,
        )[i] != LF
}

/// Well-formedness of a value: every simple-string or error-line text in it,
/// at any nesting depth, is free of CR and LF.
pub open spec fn wf_data(d: RespData) -> bool
    decreases d,
{
    match d {
        RespData::SimpleString(t) => line_text_ok(t),
        RespData::ErrorLine(t) => line_text_ok(t),
        RespData::Integer(_) => true,
        RespData::Boolean(_) => true,
        RespData::Null => true,
        RespData::BulkString(_) => true,
        RespData::Array(o) => match o {
            Option::None => true,
            Option::Some(ds) => wf_elems(ds),
        },
    }
}

pub open spec fn wf_elems(ds: Seq<RespData>) -> bool
    decreases ds,
{
    if ds.len() == 0 {
        true
    } else {
        wf_data(ds[0]) && wf_elems(ds.drop_first())
    }
}

pub proof fn lemma_wf_elems(ds: Seq<RespData>)
    ensures
        wf_elems(ds) <==> (forall|k: int| 0 <= k < ds.len() ==> wf_data(#[trigger] ds[k])),
    decreases ds,
{
    if ds.len() > 0 {
        let t = ds.drop_first();
        lemma_wf_elems(t);
        assert(forall|k: int| 0 <= k < t.len() ==> t[k] == #[trigger] ds[k + 1]);
        if forall|k: int| 0 <= k < ds.len() ==> wf_data(#[trigger] ds[k]) {
            assert forall|k: int| 0 <= k < t.len() implies wf_data(#[trigger] t[k]) by {
                assert(t[k] == ds[k + 1]);
            }
            assert(wf_elems(ds));
        }
        if wf_elems(ds) {
            assert forall|k: int| 0 <= k < ds.len() implies wf_data(#[trigger] ds[k]) by {
                if k > 0 {
                    assert(wf_data(t[k - 1]));
                }
            }
        }
    }
}

/// Every bulk-string payload and array in the value is short enough for its
/// length to be read back as an unsigned 64-bit integer. Values built from
/// in-memory vectors always are.
pub open spec fn bounded_data(d: RespData) -> bool
    decreases d,
{
    match d {
        RespData::BulkString(o) => match o {
            Option::None => true,
            Option::Some(bs) => bs.len() <= u64::MAX,
        },
        RespData::Array(o) => match o {
            Option::None => true,
            Option::Some(ds) => ds.len() <= u64::MAX && bounded_elems(ds),
        },
        _ => true,
    }
}

pub open spec fn bounded_elems(ds: Seq<RespData>) -> bool
    decreases ds,
{
    if ds.len() == 0 {
        true
    } else {
        bounded_data(ds[0]) && bounded_elems(ds.drop_first())
    }
}

pub proof fn lemma_bounded_elems(ds: Seq<RespData>)
    ensures
        bounded_elems(ds) <==> (forall|k: int| 0 <= k < ds.len() ==> bounded_data(#[trigger] ds[k])),
    decreases ds,
{
    if ds.len() > 0 {
        let t = ds.drop_first();
        lemma_bounded_elems(t);
        assert(forall|k: int| 0 <= k < t.len() ==> t[k] == #[trigger] ds[k + 1]);
        if forall|k: int| 0 <= k < ds.len() ==> bounded_data(#[trigger] ds[k]) {
            assert forall|k: int| 0 <= k < t.len() implies bounded_data(#[trigger] t[k]) by {
                assert(t[k] == ds[k + 1]);
            }
            assert(bounded_elems(ds));
        }
        if bounded_elems(ds) {
            assert forall|k: int| 0 <= k < ds.len() implies bounded_data(#[trigger] ds[k]) by {
                if k > 0 {
                    assert(bounded_data(t[k - 1]));
                }
            }
        }
    }
}

/// The model of a value held in memory is always bounded: vector lengths fit
/// in `usize`, which fits in 64 bits.
pub proof fn lemma_view_bounded(v: RespValue)
    ensures
        bounded_data(view_value(v)),
    decreases v,
{
    match v {
        RespValue::BulkString(o) => match o {
            Option::Some(b) => {
                vstd::std_specs::vec::axiom_spec_len(&b);
            },
            Option::None => {},
        },
        RespValue::Array(o) => match o {
            Option::Some(a) => {
                vstd::std_specs::vec::axiom_spec_len(&a);
                lemma_view_elems(a@);
                assert forall|k: int| 0 <= k < view_elems(a@).len() implies bounded_data(
                    #[trigger] view_elems(a@)[k],
                ) by {
                    lemma_view_bounded(a@[k]);
                }
                lemma_bounded_elems(view_elems(a@));
            },
            Option::None => {},
        },
        _ => {},
    }
}

/// The RESP wire encoding of a value, byte for byte.
pub open spec fn encoding(d: RespData) -> Seq<u8>
    decreases d,
{
    match d {
        RespData::SimpleString(t) => seq![TAG_SIMPLE] + encode_utf8(t) + crlf(),
        RespData::ErrorLine(t) => seq![TAG_ERROR] + encode_utf8(t) + crlf(),
        RespData::Integer(i) => int_line(i as int),
        RespData::Boolean(b) => seq![TAG_BOOLEAN, if b { BYTE_T } else { BYTE_F }] + crlf(),
        RespData::Null => seq![TAG_NULL] + crlf(),
        RespData::BulkString(o) => match o {
            Option::None => seq![TAG_BULK, BYTE_MINUS, BYTE_ONE] + crlf(),
            Option::Some(bs) => seq![TAG_BULK] + dec_digits(bs.len()) + crlf() + bs + crlf(),
        },
        RespData::Array(o) => match o {
            Option::None => seq![TAG_ARRAY, BYTE_MINUS, BYTE_ONE] + crlf(),
            Option::Some(ds) => seq![TAG_ARRAY] + dec_digits(ds.len()) + crlf() + elems_encoding(
                ds,
            ),
        },
    }
}

/// The concatenation of the encodings of the elements of an array.
pub open spec fn elems_encoding(ds: Seq<RespData>) -> Seq<u8>
    decreases ds,
{
    if ds.len() == 0 {
        Seq::empty()
    } else {
        encoding(ds[0]) + elems_encoding(ds.drop_first())
    }
}

impl RespValue {
    /// Whether the value is well-formed: no CR or LF byte inside any
    /// simple-string or error-line text. Only well-formed values have an
    /// unambiguous wire encoding.
    #[verifier::loop_isolation(false)]
    pub fn is_wf(&self) -> (r: bool)
        ensures
            r == wf_data(self@),
        decreases *self,
    {
        match self {
            RespValue::SimpleString(s) => str_has_no_crlf(s.as_str()),
            RespValue::ErrorLine(s) => str_has_no_crlf(s.as_str()),
            RespValue::Integer(_) => true,
            RespValue::Boolean(_) => true,
            RespValue::Null => true,
            RespValue::BulkString(_) => true,
            RespValue::Array(o) => match o {
                Option::None => true,
                Option::Some(a) => {
                    let ghost ds = view_elems(a@);
                    proof {
                        lemma_view_elems(a@);
                        lemma_wf_elems(ds);
                    }
                    let mut k: usize = 0;
                    let mut ok: bool = true;
                    while k < a.len()
                        invariant
                            k <= a.len(),
                            ds == view_elems(a@),
                            ds.len() == a@.len(),
                            forall|j: int| 0 <= j < a@.len() ==> ds[j] == view_value(#[trigger] a@[j]),
                            ok == (forall|j: int| 0 <= j < k ==> wf_data(#[trigger] ds[j])),
                        decreases a.len() - k,
                    {
                        proof {
                            assert(*self == RespValue::Array(Option::Some(*a)));
                            assert(decreases_to!(*self => a@[k as int]));
                        }
                        let w = a[k].is_wf();
                        ok = ok && w;
                        k += 1;
                    }
                    proof {
                        lemma_wf_elems(ds);
                    }
                    ok
                },
            },
        }
    }
}

/// Whether none of the bytes of `s` is CR or LF.
fn str_has_no_crlf(s: &str) -> (r: bool)
    ensures
        r == line_text_ok(s@),
{
    let bytes = s.as_bytes();
    let n = bytes.len();
    let mut i: usize = 0;
    while i < n
        invariant
            i <= n,
            n == encode_utf8(s@).len(),
            bytes@ == encode_utf8(s@),
            forall|j: int| 0 <= j < i ==> (#[trigger] bytes@[j]) != CR && bytes@[j] != LF,
        decreases n - i,
    {
        let b = bytes[i];
        if b == CR || b == LF {
            return false;
        }
        i += 1;
    }
    true
}

} // verus!
