use vstd::prelude::*;
use vstd::slice::slice_to_vec;
use vstd::string::StrSliceExecFns;
use vstd::string::StringExecFns;
use vstd::utf8::{decode_utf8, encode_utf8, valid_utf8};

use crate::error::Error;
use crate::grammar::{
    crlf, dec_digits, int_line, BYTE_F, BYTE_MINUS, BYTE_ONE, BYTE_T, BYTE_ZERO, CR, LF,
    TAG_ARRAY, TAG_BOOLEAN, TAG_BULK, TAG_ERROR, TAG_INTEGER, TAG_NULL, TAG_SIMPLE,
};
use crate::value::{
    elems_encoding, encoding, lemma_view_elems, lemma_wf_elems, line_text_ok, view_elems,
    wf_data, wf_elems, RespData, RespValue,
};

verus! {

/// The per-shape RESP encoder. Each method produces the complete wire bytes
/// of one token, per the tagged-line grammar.
pub struct Serializer {}

/// Appends the decimal digits of `v`, most significant first.
fn push_dec(out: &mut Vec<u8>, v: u64)
    ensures
        final(out)@ == old(out)@ + dec_digits(v as nat),
    decreases v,
{
    if v < 10 {
        out.push(BYTE_ZERO + (v as u8));
        assert(final(out)@ =~= old(out)@ + dec_digits(v as nat));
    } else {
        push_dec(out, v / 10);
        out.push(BYTE_ZERO + ((v % 10) as u8));
        assert(final(out)@ =~= old(out)@ + dec_digits(v as nat));
    }
}

/// Appends the CRLF terminator.
fn push_crlf(out: &mut Vec<u8>)
    ensures
        final(out)@ == old(out)@ + crlf(),
{
    out.push(CR);
    out.push(LF);
    assert(final(out)@ =~= old(out)@ + crlf());
}

/// One CRLF-terminated text line: a tag byte, the text's bytes, CRLF.
fn encode_line(tag: u8, v: &str) -> (r: Vec<u8>)
    ensures
        r@ == seq![tag] + encode_utf8(v@) + crlf(),
{
    let mut out: Vec<u8> = Vec::new();
    out.push(tag);
    let mut b = v.as_bytes_vec();
    out.append(&mut b);
    push_crlf(&mut out);
    assert(out@ =~= seq![tag] + encode_utf8(v@) + crlf());
    out
}

impl Serializer {
    /// An unsigned integer becomes `:<decimal>\r\n`; narrower widths are
    /// promoted, so the bytes depend only on the numeric value.
    pub fn serialize_u64(v: u64) -> (r: Vec<u8>)
        ensures
            r@ == int_line(v as int),
    {
        let mut out: Vec<u8> = Vec::new();
        out.push(TAG_INTEGER);
        push_dec(&mut out, v);
        push_crlf(&mut out);
        assert(out@ =~= int_line(v as int));
        out
    }

    /// A signed integer becomes `:<decimal>\r\n`, with a leading minus sign
    /// when negative.
    pub fn serialize_i64(v: i64) -> (r: Vec<u8>)
        ensures
            r@ == int_line(v as int),
    {
        let mut out: Vec<u8> = Vec::new();
        out.push(TAG_INTEGER);
        if v < 0 {
            out.push(BYTE_MINUS);
            let m: u64 = if v == i64::MIN {
                9223372036854775808u64
            } else {
                (-v) as u64
            };
            assert(m as nat == (-(v as int)) as nat);
            push_dec(&mut out, m);
        } else {
            push_dec(&mut out, v as u64);
        }
        push_crlf(&mut out);
        assert(out@ =~= int_line(v as int));
        out
    }

    pub fn serialize_u32(v: u32) -> (r: Vec<u8>)
        ensures
            r@ == int_line(v as int),
    {
        Self::serialize_u64(v as u64)
    }

    pub fn serialize_u16(v: u16) -> (r: Vec<u8>)
        ensures
            r@ == int_line(v as int),
    {
        Self::serialize_u64(v as u64)
    }

    pub fn serialize_u8(v: u8) -> (r: Vec<u8>)
        ensures
            r@ == int_line(v as int),
    {
        Self::serialize_u64(v as u64)
    }

    pub fn serialize_i32(v: i32) -> (r: Vec<u8>)
        ensures
            r@ == int_line(v as int),
    {
        Self::serialize_i64(v as i64)
    }

    pub fn serialize_i16(v: i16) -> (r: Vec<u8>)
        ensures
            r@ == int_line(v as int),
    {
        Self::serialize_i64(v as i64)
    }

    pub fn serialize_i8(v: i8) -> (r: Vec<u8>)
        ensures
            r@ == int_line(v as int),
    {
        Self::serialize_i64(v as i64)
    }

    /// A boolean becomes `#t\r\n` or `#f\r\n`.
    pub fn serialize_bool(v: bool) -> (r: Vec<u8>)
        ensures
            r@ == encoding(RespData::Boolean(v)),
    {
        let mut out: Vec<u8> = Vec::new();
        out.push(TAG_BOOLEAN);
        if v {
            out.push(BYTE_T);
        } else {
            out.push(BYTE_F);
        }
        push_crlf(&mut out);
        assert(out@ =~= encoding(RespData::Boolean(v)));
        out
    }

    /// Text becomes a simple string, `+<text>\r\n`. The caller must
    /// guarantee that the text contains no CR or LF; there is no escaping.
    pub fn serialize_str(v: &str) -> (r: Vec<u8>)
        requires
            line_text_ok(v@),
        ensures
            r@ == encoding(RespData::SimpleString(v@)),
    {
        encode_line(TAG_SIMPLE, v)
    }

    /// A raw byte payload becomes a bulk string: `$<len>\r\n<bytes>\r\n`.
    /// A present empty payload is `$0\r\n\r\n`, distinct from the null form.
    pub fn serialize_bytes(v: &[u8]) -> (r: Vec<u8>)
        ensures
            r@ == encoding(RespData::BulkString(Option::Some(v@))),
    {
        let mut out: Vec<u8> = Vec::new();
        out.push(TAG_BULK);
        push_dec(&mut out, v.len() as u64);
        push_crlf(&mut out);
        let mut b = slice_to_vec(v);
        out.append(&mut b);
        push_crlf(&mut out);
        assert(out@ =~= encoding(RespData::BulkString(Option::Some(v@))));
        out
    }

    /// The null token, `_\r\n`.
    pub fn serialize_none() -> (r: Vec<u8>)
        ensures
            r@ == encoding(RespData::Null),
    {
        let mut out: Vec<u8> = Vec::new();
        out.push(TAG_NULL);
        push_crlf(&mut out);
        assert(out@ =~= encoding(RespData::Null));
        out
    }

    /// A unit value is encoded as the null token.
    pub fn serialize_unit() -> (r: Vec<u8>)
        ensures
            r@ == encoding(RespData::Null),
    {
        Self::serialize_none()
    }

    /// A named unit-like variant is encoded as its name, via the
    /// simple-string rule.
    pub fn serialize_unit_variant(variant: &str) -> (r: Vec<u8>)
        requires
            line_text_ok(variant@),
        ensures
            r@ == encoding(RespData::SimpleString(variant@)),
    {
        Self::serialize_str(variant)
    }

    /// RESP has no character token; encoding a char is a permanent failure.
    pub fn serialize_char(_v: char) -> (r: Result<Vec<u8>, Error>)
        ensures
            r matches Err(e) && e matches Error::Message(m) && m@
                == "RESP does not support char"@,
    {
        Err(Error::Message(String::from_str("RESP does not support char")))
    }

    /// RESP has no floating-point token; the outcome does not depend on the
    /// value, so none is taken.
    pub fn serialize_float() -> (r: Result<Vec<u8>, Error>)
        ensures
            r matches Err(e) && e matches Error::Message(m) && m@
                == "RESP does not support float"@,
    {
        Err(Error::Message(String::from_str("RESP does not support float")))
    }

    /// RESP has no tuple token.
    pub fn serialize_tuple(_len: usize) -> (r: Result<Vec<u8>, Error>)
        ensures
            r matches Err(e) && e matches Error::Message(m) && m@
                == "RESP does not support tuples"@,
    {
        Err(Error::Message(String::from_str("RESP does not support tuples")))
    }

    /// RESP has no tuple-struct token.
    pub fn serialize_tuple_struct(_len: usize) -> (r: Result<Vec<u8>, Error>)
        ensures
            r matches Err(e) && e matches Error::Message(m) && m@
                == "RESP does not support tuple structs"@,
    {
        Err(Error::Message(String::from_str("RESP does not support tuple structs")))
    }

    /// RESP has no tuple-variant token.
    pub fn serialize_tuple_variant(_len: usize) -> (r: Result<Vec<u8>, Error>)
        ensures
            r matches Err(e) && e matches Error::Message(m) && m@
                == "RESP does not support tuple variants"@,
    {
        Err(Error::Message(String::from_str("RESP does not support tuple variants")))
    }

    /// RESP has no struct-variant token.
    pub fn serialize_struct_variant(_len: usize) -> (r: Result<Vec<u8>, Error>)
        ensures
            r matches Err(e) && e matches Error::Message(m) && m@
                == "RESP does not support struct variants"@,
    {
        Err(Error::Message(String::from_str("RESP does not support struct variants")))
    }

    /// RESP has no map token.
    pub fn serialize_map(_len: Option<usize>) -> (r: Result<Vec<u8>, Error>)
        ensures
            r matches Err(e) && e matches Error::Message(m) && m@
                == "RESP does not support maps"@,
    {
        Err(Error::Message(String::from_str("RESP does not support maps")))
    }

    /// RESP has no struct token.
    pub fn serialize_struct(_len: usize) -> (r: Result<Vec<u8>, Error>)
        ensures
            r matches Err(e) && e matches Error::Message(m) && m@
                == "RESP does not support structs"@,
    {
        Err(Error::Message(String::from_str("RESP does not support structs")))
    }

    /// Starts a sequence. RESP requires the element count before the
    /// elements, so a sequence of unknown length is an unsupported shape.
    pub fn serialize_seq(len: Option<usize>) -> (r: Result<SeqSerializer, Error>)
        ensures
            len is Some ==> (r matches Ok(s) && s.elements@.len() == 0),
            len is None ==> (r matches Err(e) && e matches Error::Message(m) && m@
                == "RESP does not support sequences of unknown length"@),
    {
        match len {
            Option::Some(_) => Ok(SeqSerializer { elements: Vec::new() }),
            Option::None => Err(
                Error::Message(String::from_str("RESP does not support sequences of unknown length")),
            ),
        }
    }
}

/// The concatenation of a sequence of already-encoded elements.
pub open spec fn concat_encs(es: Seq<Vec<u8>>) -> Seq<u8>
    decreases es,
{
    if es.len() == 0 {
        Seq::empty()
    } else {
        es[0]@ + concat_encs(es.drop_first())
    }
}

/// Appending one more encoded element extends the concatenation at the end.
proof fn lemma_concat_encs_snoc(es: Seq<Vec<u8>>, i: int)
    requires
        0 <= i < es.len(),
    ensures
        concat_encs(es.subrange(0, i + 1)) == concat_encs(es.subrange(0, i)) + es[i]@,
    decreases i,
{
    let a = es.subrange(0, i + 1);
    let b = es.subrange(0, i);
    if i == 0 {
        assert(a.drop_first() =~= Seq::<Vec<u8>>::empty());
        assert(concat_encs(Seq::<Vec<u8>>::empty()) == Seq::<u8>::empty());
        assert(a[0] == es[0]);
        assert(concat_encs(a) =~= es[0]@ + Seq::<u8>::empty());
        assert(concat_encs(b) =~= Seq::<u8>::empty());
        assert(concat_encs(a) =~= concat_encs(b) + es[0]@);
    } else {
        let t = es.drop_first();
        lemma_concat_encs_snoc(t, i - 1);
        assert(a.drop_first() =~= t.subrange(0, i));
        assert(b.drop_first() =~= t.subrange(0, i - 1));
        assert(t[i - 1] == es[i]);
        assert(concat_encs(a) == es[0]@ + concat_encs(t.subrange(0, i)));
        assert(concat_encs(b) == es[0]@ + concat_encs(t.subrange(0, i - 1)));
        assert(concat_encs(a) =~= concat_encs(b) + es[i]@);
    }
}

/// When each stored element is the encoding of the matching model element,
/// the stored concatenation is the model concatenation.
proof fn lemma_concat_encs_matches(es: Seq<Vec<u8>>, ds: Seq<RespData>)
    requires
        es.len() == ds.len(),
        forall|k: int| 0 <= k < es.len() ==> (#[trigger] es[k])@ == encoding(ds[k]),
    ensures
        concat_encs(es) == elems_encoding(ds),
    decreases es.len(),
{
    if es.len() > 0 {
        let et = es.drop_first();
        let dt = ds.drop_first();
        assert(forall|k: int| 0 <= k < et.len() ==> (#[trigger] et[k])@ == encoding(dt[k])) by {
            assert(forall|k: int| 0 <= k < et.len() ==> et[k] == #[trigger] es[k + 1]);
            assert(forall|k: int| 0 <= k < dt.len() ==> dt[k] == #[trigger] ds[k + 1]);
        }
        lemma_concat_encs_matches(et, dt);
    }
}

/// Buffers the encodings of a sequence's elements, then emits the count
/// header followed by the buffered elements, as RESP requires.
pub struct SeqSerializer {
    pub elements: Vec<Vec<u8>>,
}

impl SeqSerializer {
    /// Adds one element, already encoded, to the buffer.
    pub fn serialize_element(&mut self, element: Vec<u8>)
        ensures
            final(self).elements@ == old(self).elements@.push(element),
    {
        self.elements.push(element);
    }

    /// Emits `*<count>\r\n` followed by the buffered element encodings, where
    /// the count is the number of elements actually buffered.
    #[verifier::loop_isolation(false)]
    pub fn end(self) -> (r: Vec<u8>)
        ensures
            r@ == seq![TAG_ARRAY] + dec_digits(self.elements@.len()) + crlf() + concat_encs(
                self.elements@,
            ),
    {
        let mut out: Vec<u8> = Vec::new();
        out.push(TAG_ARRAY);
        push_dec(&mut out, self.elements.len() as u64);
        push_crlf(&mut out);
        let ghost header = seq![TAG_ARRAY] + dec_digits(self.elements@.len() as nat) + crlf();
        assert(out@ =~= header);
        let n = self.elements.len();
        let mut i: usize = 0;
        while i < n
            invariant
                i <= n,
                out@ == header + concat_encs(self.elements@.subrange(0, i as int)),
            decreases n - i,
        {
            let e = &self.elements[i];
            let m = e.len();
            let mut j: usize = 0;
            while j < m
                invariant
                    j <= m,
                    out@ == header + concat_encs(self.elements@.subrange(0, i as int))
                        + e@.subrange(0, j as int),
                decreases m - j,
            {
                out.push(e[j]);
                assert(e@.subrange(0, j + 1) =~= e@.subrange(0, j as int) + seq![e@[j as int]]);
                j += 1;
            }
            proof {
                lemma_concat_encs_snoc(self.elements@, i as int);
                assert(e@.subrange(0, m as int) =~= e@);
            }
            i += 1;
        }
        proof {
            assert(self.elements@.subrange(0, n as int) =~= self.elements@);
        }
        out
    }
}

/// Turns encoded bytes into a `String`.
///
/// Relies on `String::from_utf8`: it succeeds exactly on valid UTF-8, and the
/// returned string's characters are the UTF-8 decoding of the bytes.
#[verifier::external_body]
pub(crate) fn bytes_to_string(v: Vec<u8>) -> (r: Option<String>)
    ensures
        r is Some <==> valid_utf8(v@),
        r matches Some(s) ==> s@ == decode_utf8(v@),
{
    match String::from_utf8(v) {
        Ok(s) => Some(s),
        Err(_) => None,
    }
}

/// Encodes a well-formed value into its RESP wire bytes, exactly as the
/// encoding function of the model states.
#[verifier::loop_isolation(false)]
pub fn to_bytes(value: &RespValue) -> (r: Vec<u8>)
    requires
        wf_data(value@),
    ensures
        r@ == encoding(value@),
    decreases *value,
{
    match value {
        RespValue::SimpleString(s) => Serializer::serialize_str(s.as_str()),
        RespValue::ErrorLine(s) => encode_line(TAG_ERROR, s.as_str()),
        RespValue::Integer(i) => Serializer::serialize_i64(*i),
        RespValue::Boolean(b) => Serializer::serialize_bool(*b),
        RespValue::Null => Serializer::serialize_none(),
        RespValue::BulkString(o) => match o {
            Option::Some(b) => Serializer::serialize_bytes(b.as_slice()),
            Option::None => {
                let mut out: Vec<u8> = Vec::new();
                out.push(TAG_BULK);
                out.push(BYTE_MINUS);
                out.push(BYTE_ONE);
                push_crlf(&mut out);
                assert(out@ =~= encoding(RespData::BulkString(Option::None)));
                out
            },
        },
        RespValue::Array(o) => match o {
            Option::None => {
                let mut out: Vec<u8> = Vec::new();
                out.push(TAG_ARRAY);
                out.push(BYTE_MINUS);
                out.push(BYTE_ONE);
                push_crlf(&mut out);
                assert(out@ =~= encoding(RespData::Array(Option::None)));
                out
            },
            Option::Some(arr) => {
                let ghost ds = view_elems(arr@);
                proof {
                    lemma_view_elems(arr@);
                    lemma_wf_elems(ds);
                }
                let mut ser = SeqSerializer { elements: Vec::new() };
                let mut i: usize = 0;
                while i < arr.len()
                    invariant
                        i <= arr.len(),
                        ser.elements@.len() == i,
                        forall|k: int|
                            0 <= k < i ==> (#[trigger] ser.elements@[k])@ == encoding(ds[k]),
                    decreases arr.len() - i,
                {
                    proof {
                        assert(*value == RespValue::Array(Option::Some(*arr)));
                        assert(decreases_to!(*value => arr@[i as int]));
                    }
                    let e = to_bytes(&arr[i]);
                    ser.serialize_element(e);
                    i += 1;
                }
                let r = ser.end();
                proof {
                    lemma_concat_encs_matches(ser.elements@, ds);
                }
                r
            },
        },
    }
}

/// Encodes a well-formed value and returns the result as a `String` when the
/// wire bytes are valid UTF-8; a binary bulk payload that is not valid UTF-8
/// is reported as a message error.
pub fn to_string(value: &RespValue) -> (r: Result<String, Error>)
    requires
        wf_data(value@),
    ensures
        valid_utf8(encoding(value@)) ==> (r matches Ok(s) && s@ == decode_utf8(
            encoding(value@),
        )),
        !valid_utf8(encoding(value@)) ==> (r matches Err(e) && e matches Error::Message(m) && m@
            == "RESP encoding is not valid UTF-8"@),
{
    let bytes = to_bytes(value);
    match bytes_to_string(bytes) {
        Option::Some(s) => Ok(s),
        Option::None => Err(Error::Message(String::from_str("RESP encoding is not valid UTF-8"))),
    }
}

} // verus!
