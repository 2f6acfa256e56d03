use vstd::prelude::*;
use vstd::utf8::{encode_utf8, encode_utf8_decode_utf8, encode_utf8_valid_utf8};

use crate::de::{lemma_crlf_offset_found, parse_elements, parse_value};
use crate::error::Error;
use crate::grammar::{
    dec_digits, digits_val, int_bytes, int_line, int_payload_ok, int_payload_val,
    lemma_dec_digits, lemma_int_bytes_val, uint_payload_ok, BYTE_F, BYTE_MINUS, BYTE_ONE, BYTE_T,
    CR, LF, TAG_ARRAY, TAG_BOOLEAN, TAG_BULK, TAG_ERROR, TAG_INTEGER, TAG_NULL, TAG_SIMPLE,
};
use crate::value::{
    bounded_data, bounded_elems, elems_encoding, encoding, lemma_bounded_elems, lemma_view_bounded,
    view_value, wf_data, wf_elems, RespData, RespValue,
};

verus! {

/// A CRLF-terminated header line sitting at `pos` in `s`: the scan finds its
/// terminator, and the payload read back is exactly `p`.
proof fn lemma_line_at(s: Seq<u8>, pos: int, p: Seq<u8>)
    requires
        0 <= pos,
        pos + 1 + p.len() + 2 <= s.len(),
        forall|j: int| 0 <= j < p.len() ==> s[pos + 1 + j] == #[trigger] p[j],
        forall|j: int| 0 <= j < p.len() ==> #[trigger] p[j] != CR,
        s[pos + 1 + p.len()] == CR,
        s[pos + 2 + p.len()] == LF,
    ensures
        crate::de::crlf_offset(s, pos + 1) == Some(p.len() as nat),
        s.subrange(pos + 1, pos + 1 + p.len() as int) =~= p,
{
    let plen = p.len() as int;
    assert forall|j: int| pos + 1 <= j < pos + 1 + plen implies #[trigger] s[j] != CR by {
        assert(s[j] == p[j - pos - 1]);
    }
    lemma_crlf_offset_found(s, pos + 1, pos + 1 + plen);
}

/// The wire encoding of a well-formed, bounded value, placed anywhere inside
/// a larger buffer, parses back to exactly that value, consuming exactly the
/// encoding's bytes.
#[verifier::rlimit(100)]
pub proof fn lemma_parse_encoding_at(s: Seq<u8>, pos: int, d: RespData)
    requires
        wf_data(d),
        bounded_data(d),
        0 <= pos,
        pos + encoding(d).len() <= s.len(),
        s.subrange(pos, pos + encoding(d).len() as int) == encoding(d),
    ensures
        parse_value(s, pos) == Result::<(RespData, nat), Error>::Ok(
            (d, encoding(d).len() as nat),
        ),
    decreases d,
{
    let e = encoding(d);
    let len = e.len() as int;
    assert forall|j: int| 0 <= j < len implies s[pos + j] == #[trigger] e[j] by {
        assert(s.subrange(pos, pos + len)[j] == s[pos + j]);
    }
    match d {
        RespData::SimpleString(t) => {
            let p = encode_utf8(t);
            let plen = p.len() as int;
            assert(e[0] == TAG_SIMPLE);
            assert(len == 3 + plen);
            assert(forall|j: int| 0 <= j < plen ==> e[1 + j] == #[trigger] p[j]);
            assert(e[1 + plen] == CR && e[2 + plen] == LF);
            lemma_line_at(s, pos, p);
            encode_utf8_valid_utf8(t);
            encode_utf8_decode_utf8(t);
        },
        RespData::ErrorLine(t) => {
            let p = encode_utf8(t);
            let plen = p.len() as int;
            assert(e[0] == TAG_ERROR);
            assert(len == 3 + plen);
            assert(forall|j: int| 0 <= j < plen ==> e[1 + j] == #[trigger] p[j]);
            assert(e[1 + plen] == CR && e[2 + plen] == LF);
            lemma_line_at(s, pos, p);
            encode_utf8_valid_utf8(t);
            encode_utf8_decode_utf8(t);
        },
        RespData::Integer(i) => {
            let p = int_bytes(i as int);
            let plen = p.len() as int;
            lemma_int_bytes_val(i as int);
            assert(e[0] == TAG_INTEGER);
            assert(len == 3 + plen);
            assert(forall|j: int| 0 <= j < plen ==> e[1 + j] == #[trigger] p[j]);
            assert(e[1 + plen] == CR && e[2 + plen] == LF);
            lemma_line_at(s, pos, p);
            let payload = s.subrange(pos + 1, pos + 1 + plen);
            assert(int_payload_ok(payload) && int_payload_val(payload) == i as int);
        },
        RespData::Boolean(b) => {
            assert(e.len() == 4);
            assert(e[0] == TAG_BOOLEAN);
            assert(e[1] == (if b { BYTE_T } else { BYTE_F }));
            assert(e[2] == CR && e[3] == LF);
        },
        RespData::Null => {
            assert(e.len() == 3);
            assert(e[0] == TAG_NULL);
            assert(e[1] == CR && e[2] == LF);
        },
        RespData::BulkString(o) => match o {
            Option::None => {
                assert(e.len() == 5);
                assert(e[0] == TAG_BULK);
                assert(e[1] == BYTE_MINUS && e[2] == BYTE_ONE && e[3] == CR && e[4] == LF);
                assert(s[pos + 1] == BYTE_MINUS && s[pos + 2] == BYTE_ONE);
                assert(s[pos + 1] != CR && s[pos + 2] != CR);
                lemma_crlf_offset_found(s, pos + 1, pos + 3);
                assert(s.subrange(pos + 1, pos + 3) =~= seq![BYTE_MINUS, BYTE_ONE]);
            },
            Option::Some(bs) => {
                let n = bs.len() as int;
                let p = dec_digits(bs.len());
                let plen = p.len() as int;
                lemma_dec_digits(bs.len());
                assert(e[0] == TAG_BULK);
                assert(forall|j: int| 0 <= j < plen ==> #[trigger] p[j] != CR && p[j] != BYTE_MINUS);
                assert(forall|j: int| 0 <= j < plen ==> e[1 + j] == #[trigger] p[j]);
                assert(e[1 + plen] == CR && e[2 + plen] == LF);
                lemma_line_at(s, pos, p);
                let payload = s.subrange(pos + 1, pos + 1 + plen);
                assert(payload != seq![BYTE_MINUS, BYTE_ONE]) by {
                    if payload == seq![BYTE_MINUS, BYTE_ONE] {
                        assert(payload[0] == BYTE_MINUS);
                        assert(p[0] == BYTE_MINUS);
                    }
                }
                assert(uint_payload_ok(payload) && digits_val(payload) == bs.len());
                let body = pos + 1 + plen + 2;
                assert(len == 1 + plen + 2 + n + 2);
                assert(forall|j: int| 0 <= j < n ==> e[1 + plen + 2 + j] == #[trigger] bs[j]);
                assert(s[body + n] == CR && s[body + n + 1] == LF) by {
                    assert(e[len - 2] == CR && e[len - 1] == LF);
                }
                assert(s.subrange(body, body + n) =~= bs);
            },
        },
        RespData::Array(o) => match o {
            Option::None => {
                assert(e.len() == 5);
                assert(e[0] == TAG_ARRAY);
                assert(e[1] == BYTE_MINUS && e[2] == BYTE_ONE && e[3] == CR && e[4] == LF);
                assert(s[pos + 1] == BYTE_MINUS && s[pos + 2] == BYTE_ONE);
                assert(s[pos + 1] != CR && s[pos + 2] != CR);
                lemma_crlf_offset_found(s, pos + 1, pos + 3);
                assert(s.subrange(pos + 1, pos + 3) =~= seq![BYTE_MINUS, BYTE_ONE]);
            },
            Option::Some(ds) => {
                let ee = elems_encoding(ds);
                let p = dec_digits(ds.len());
                let plen = p.len() as int;
                lemma_dec_digits(ds.len());
                assert(e[0] == TAG_ARRAY);
                assert(forall|j: int| 0 <= j < plen ==> #[trigger] p[j] != CR && p[j] != BYTE_MINUS);
                assert(forall|j: int| 0 <= j < plen ==> e[1 + j] == #[trigger] p[j]);
                assert(e[1 + plen] == CR && e[2 + plen] == LF);
                lemma_line_at(s, pos, p);
                let payload = s.subrange(pos + 1, pos + 1 + plen);
                assert(payload != seq![BYTE_MINUS, BYTE_ONE]) by {
                    if payload == seq![BYTE_MINUS, BYTE_ONE] {
                        assert(payload[0] == BYTE_MINUS);
                        assert(p[0] == BYTE_MINUS);
                    }
                }
                assert(uint_payload_ok(payload) && digits_val(payload) == ds.len());
                let body = pos + 1 + plen + 2;
                assert(len == 1 + plen + 2 + ee.len());
                assert(forall|j: int| 0 <= j < ee.len() ==> e[3 + plen + j] == #[trigger] ee[j]);
                assert(s.subrange(body, body + ee.len() as int) =~= ee) by {
                    assert(forall|j: int|
                        0 <= j < ee.len() ==> #[trigger] s.subrange(body, body + ee.len() as int)[j]
                            == s[body + j]);
                }
                lemma_parse_elements_encoding_at(s, body, ds);
            },
        },
    }
}

/// The concatenated encodings of a run of well-formed, bounded elements,
/// placed anywhere inside a larger buffer, parse back to exactly those
/// elements.
pub proof fn lemma_parse_elements_encoding_at(s: Seq<u8>, pos: int, ds: Seq<RespData>)
    requires
        wf_elems(ds),
        bounded_elems(ds),
        0 <= pos,
        pos + elems_encoding(ds).len() <= s.len(),
        s.subrange(pos, pos + elems_encoding(ds).len() as int) == elems_encoding(ds),
    ensures
        parse_elements(s, pos, ds.len()) == Result::<(Seq<RespData>, nat), Error>::Ok(
            (ds, elems_encoding(ds).len() as nat),
        ),
    decreases ds,
{
    let ee = elems_encoding(ds);
    let eelen = ee.len() as int;
    assert forall|j: int| 0 <= j < eelen implies s[pos + j] == #[trigger] ee[j] by {
        assert(s.subrange(pos, pos + eelen)[j] == s[pos + j]);
    }
    if ds.len() == 0 {
        assert(ds =~= Seq::<RespData>::empty());
    } else {
        let e0 = encoding(ds[0]);
        let e0len = e0.len() as int;
        let rest = ds.drop_first();
        let eerest = elems_encoding(rest);
        assert(ee == e0 + eerest);
        assert(forall|j: int| 0 <= j < e0len ==> #[trigger] ee[j] == e0[j]);
        assert(s.subrange(pos, pos + e0len) =~= e0) by {
            assert(forall|j: int|
                0 <= j < e0len ==> #[trigger] s.subrange(pos, pos + e0len)[j] == s[pos + j]);
        }
        lemma_parse_encoding_at(s, pos, ds[0]);
        let next = pos + e0len;
        assert(forall|j: int| 0 <= j < eerest.len() ==> #[trigger] eerest[j] == ee[e0len + j]);
        assert(s.subrange(next, next + eerest.len() as int) =~= eerest) by {
            assert(forall|j: int|
                0 <= j < eerest.len() ==> #[trigger] s.subrange(next, next + eerest.len() as int)[j]
                    == s[next + j]);
        }
        lemma_parse_elements_encoding_at(s, next, rest);
        assert(seq![ds[0]] + rest =~= ds);
    }
}

/// Law: the codec is lossless. Decoding the encoding of any well-formed,
/// bounded value yields that value back, consuming the whole encoding. This
/// covers every token kind, arrays at any nesting depth included.
pub proof fn lemma_value_round_trip(d: RespData)
    requires
        wf_data(d),
        bounded_data(d),
    ensures
        parse_value(encoding(d), 0) == Result::<(RespData, nat), Error>::Ok(
            (d, encoding(d).len() as nat),
        ),
{
    assert(encoding(d).subrange(0, encoding(d).len() as int) =~= encoding(d));
    lemma_parse_encoding_at(encoding(d), 0, d);
}

/// Law: the exec round trip. For any well-formed in-memory value, the bytes
/// that `to_bytes` produces are decoded by `decode` back to that value's
/// model, with every byte consumed.
pub proof fn lemma_encode_decode(v: RespValue)
    requires
        wf_data(view_value(v)),
    ensures
        parse_value(encoding(view_value(v)), 0) == Result::<(RespData, nat), Error>::Ok(
            (view_value(v), encoding(view_value(v)).len() as nat),
        ),
{
    lemma_view_bounded(v);
    lemma_value_round_trip(view_value(v));
}

/// Law: decoding the encoding of any signed 64-bit integer yields that
/// integer back, consuming the whole encoding.
pub proof fn lemma_integer_round_trip(v: i64)
    ensures
        parse_value(encoding(RespData::Integer(v)), 0) == Result::<(RespData, nat), Error>::Ok(
            (RespData::Integer(v), encoding(RespData::Integer(v)).len() as nat),
        ),
{
    lemma_value_round_trip(RespData::Integer(v));
}

/// Law: decoding the encoding of an unsigned 64-bit integer that fits the
/// signed range yields that integer back. (Values above `i64::MAX` encode,
/// but the decoder reads integer payloads as signed 64-bit and rejects
/// them.)
pub proof fn lemma_unsigned_integer_round_trip(v: u64)
    requires
        v <= i64::MAX as u64,
    ensures
        parse_value(int_line(v as int), 0) == Result::<(RespData, nat), Error>::Ok(
            (RespData::Integer(v as i64), int_line(v as int).len() as nat),
        ),
{
    lemma_integer_round_trip(v as i64);
    assert(encoding(RespData::Integer(v as i64)) == int_line(v as int));
}

/// Law: decoding the encoding of a boolean yields that boolean back.
pub proof fn lemma_boolean_round_trip(b: bool)
    ensures
        parse_value(encoding(RespData::Boolean(b)), 0) == Result::<(RespData, nat), Error>::Ok(
            (RespData::Boolean(b), 4nat),
        ),
{
    lemma_value_round_trip(RespData::Boolean(b));
}

/// Law: decoding the encoding of the null token yields the null value back.
pub proof fn lemma_null_round_trip()
    ensures
        parse_value(encoding(RespData::Null), 0) == Result::<(RespData, nat), Error>::Ok(
            (RespData::Null, 3nat),
        ),
{
    lemma_value_round_trip(RespData::Null);
}

/// Law: decoding the encoding of the null bulk string yields the absent
/// bulk-string state back.
pub proof fn lemma_null_bulk_round_trip()
    ensures
        parse_value(encoding(RespData::BulkString(Option::None)), 0) == Result::<
            (RespData, nat),
            Error,
        >::Ok((RespData::BulkString(Option::None), 5nat)),
{
    lemma_value_round_trip(RespData::BulkString(Option::None));
}

} // verus!
