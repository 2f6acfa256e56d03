use vstd::prelude::*;
use vstd::slice::{slice_subrange, slice_to_vec};
use vstd::utf8::{decode_utf8, valid_utf8};

use crate::error::Error;
use crate::grammar::{
    digits_val, int_payload_ok, int_payload_val, lemma_digits_val_prefix, uint_payload_ok,
    BYTE_F, BYTE_MINUS, BYTE_NINE, BYTE_ONE, BYTE_T, BYTE_ZERO, CR, LF, TAG_ARRAY, TAG_BOOLEAN,
    TAG_BULK, TAG_ERROR, TAG_INTEGER, TAG_NULL, TAG_SIMPLE,
};
use crate::ser::bytes_to_string;
use crate::value::{view_elems, lemma_view_elems_push, RespData, RespValue};

verus! {

/// The offset, from `pos`, of the first CRLF pair at or after `pos`, if any.
pub open spec fn crlf_offset(s: Seq<u8>, pos: int) -> Option<nat>
    decreases s.len() - pos,
{
    if pos < 0 || pos + 2 > s.len() {
        Option::None
    } else if s[pos] == CR && s[pos + 1] == LF {
        Option::Some(0)
    } else {
        match crlf_offset(s, pos + 1) {
            Option::None => Option::None,
            Option::Some(o) => Option::Some(o + 1),
        }
    }
}

/// What a found or missing CRLF offset means for the bytes of `s`.
pub proof fn lemma_crlf_offset(s: Seq<u8>, pos: int)
    requires
        pos >= 0,
    ensures
        crlf_offset(s, pos) matches Some(o) ==> pos + o + 2 <= s.len() && s[pos + o] == CR && s[
            pos + o + 1
        ] == LF && (forall|j: int| pos <= j < pos + o ==> !((#[trigger] s[j]) == CR && s[j + 1] == LF)),
        crlf_offset(s, pos) is None ==> forall|i: int|
            pos <= i && i + 2 <= s.len() ==> !(s[i] == CR && s[#[trigger] (i + 1)] == LF),
    decreases s.len() - pos,
{
    if pos + 2 > s.len() {
    } else if s[pos] == CR && s[pos + 1] == LF {
    } else {
        lemma_crlf_offset(s, pos + 1);
    }
}

/// The first CRLF at or after `pos` is at `i` when `s[i], s[i+1]` are CR, LF
/// and no CR occurs in between.
pub proof fn lemma_crlf_offset_found(s: Seq<u8>, pos: int, i: int)
    requires
        0 <= pos <= i,
        i + 2 <= s.len(),
        s[i] == CR,
        s[i + 1] == LF,
        forall|j: int| pos <= j < i ==> s[j] != CR,
    ensures
        crlf_offset(s, pos) == Some((i - pos) as nat),
    decreases i - pos,
{
    if pos < i {
        lemma_crlf_offset_found(s, pos + 1, i);
    }
}

/// The decoded value starting at `pos`, with the count of bytes it consumed,
/// or the error that pinpoints the grammar expectation that failed. One tag
/// byte selects the token grammar; no other grammar is attempted. (The two
/// clamps to `s.len()` only guard recursion; the positions parsed never
/// exceed the buffer.)
pub open spec fn parse_value(s: Seq<u8>, pos: int) -> Result<(RespData, nat), Error>
    decreases s.len() - pos, 0int,
{
    if pos < 0 || pos >= s.len() {
        Err(Error::Eof)
    } else {
        let tag = s[pos];
        if tag == TAG_SIMPLE || tag == TAG_ERROR {
            match crlf_offset(s, pos + 1) {
                Option::None => Err(Error::ExpectedSimpleString),
                Option::Some(o) => {
                    let payload = s.subrange(pos + 1, pos + 1 + o);
                    if valid_utf8(payload) {
                        let text = decode_utf8(payload);
                        if tag == TAG_SIMPLE {
                            Ok((RespData::SimpleString(text), (o + 3) as nat))
                        } else {
                            Ok((RespData::ErrorLine(text), (o + 3) as nat))
                        }
                    } else {
                        Err(Error::Syntax)
                    }
                },
            }
        } else if tag == TAG_INTEGER {
            match crlf_offset(s, pos + 1) {
                Option::None => Err(Error::ExpectedCRLF),
                Option::Some(o) => {
                    let payload = s.subrange(pos + 1, pos + 1 + o);
                    if int_payload_ok(payload) {
                        Ok((RespData::Integer(int_payload_val(payload) as i64), (o + 3) as nat))
                    } else {
                        Err(Error::ExpectedInteger)
                    }
                },
            }
        } else if tag == TAG_BOOLEAN {
            if pos + 4 > s.len() {
                Err(Error::Eof)
            } else if (s[pos + 1] == BYTE_T || s[pos + 1] == BYTE_F) && s[pos + 2] == CR && s[pos
                + 3] == LF {
                Ok((RespData::Boolean(s[pos + 1] == BYTE_T), 4nat))
            } else {
                Err(Error::Syntax)
            }
        } else if tag == TAG_NULL {
            if pos + 3 > s.len() {
                Err(Error::Eof)
            } else if s[pos + 1] == CR && s[pos + 2] == LF {
                Ok((RespData::Null, 3nat))
            } else {
                Err(Error::ExpectedCRLF)
            }
        } else if tag == TAG_BULK {
            match crlf_offset(s, pos + 1) {
                Option::None => Err(Error::ExpectedCRLF),
                Option::Some(o) => {
                    let payload = s.subrange(pos + 1, pos + 1 + o);
                    if payload == seq![BYTE_MINUS, BYTE_ONE] {
                        Ok((RespData::BulkString(Option::None), (o + 3) as nat))
                    } else if !uint_payload_ok(payload) {
                        Err(Error::Syntax)
                    } else {
                        let n = digits_val(payload);
                        let body = pos + 1 + o + 2;
                        if body + n > s.len() {
                            Err(Error::Eof)
                        } else if body + n + 2 > s.len() || s[body + n] != CR || s[body + n + 1]
                            != LF {
                            Err(Error::ExpectedCRLF)
                        } else {
                            Ok(
                                (
                                    RespData::BulkString(
                                        Option::Some(s.subrange(body, body + n)),
                                    ),
                                    (o + 3 + n + 2) as nat,
                                ),
                            )
                        }
                    }
                },
            }
        } else if tag == TAG_ARRAY {
            match crlf_offset(s, pos + 1) {
                Option::None => Err(Error::ExpectedCRLF),
                Option::Some(o) => {
                    let payload = s.subrange(pos + 1, pos + 1 + o);
                    if payload == seq![BYTE_MINUS, BYTE_ONE] {
                        Ok((RespData::Array(Option::None), (o + 3) as nat))
                    } else if !uint_payload_ok(payload) {
                        Err(Error::ExpectedArray)
                    } else {
                        let n = digits_val(payload);
                        let body = pos + 1 + o + 2;
                        let bodyc = if body <= s.len() {
                            body
                        } else {
                            s.len() as int
                        };
                        match parse_elements(s, bodyc, n) {
                            Err(e) => Err(e),
                            Ok((vs, c)) => Ok(
                                (RespData::Array(Option::Some(vs)), ((bodyc - pos) + c) as nat),
                            ),
                        }
                    }
                },
            }
        } else {
            Err(Error::Syntax)
        }
    }
}

/// `n` values decoded in sequence, each consuming its own bytes before the
/// next begins.
pub open spec fn parse_elements(s: Seq<u8>, pos: int, n: nat) -> Result<(Seq<RespData>, nat), Error>
    decreases s.len() - pos, n as int,
{
    if pos < 0 || pos > s.len() {
        Err(Error::Eof)
    } else if n == 0 {
        Ok((Seq::empty(), 0nat))
    } else {
        match parse_value(s, pos) {
            Err(e) => Err(e),
            Ok((v, c)) => {
                let next = if pos + c <= s.len() {
                    pos + c
                } else {
                    s.len() as int
                };
                match parse_elements(s, next, (n - 1) as nat) {
                    Err(e) => Err(e),
                    Ok((vs, c2)) => Ok((seq![v] + vs, ((next - pos) + c2) as nat)),
                }
            },
        }
    }
}

/// Scans for the first CRLF pair at or after `from`.
#[verifier::loop_isolation(false)]
fn find_crlf(input: &[u8], from: usize) -> (r: Option<usize>)
    requires
        from <= input@.len(),
    ensures
        match r {
            Some(o) => crlf_offset(input@, from as int) == Some(o as nat),
            None => crlf_offset(input@, from as int) is None,
        },
{
    let len = input.len();
    let mut i: usize = from;
    loop
        invariant
            from <= i <= len,
            crlf_offset(input@, from as int) == (match crlf_offset(input@, i as int) {
                Option::Some(o) => Option::Some((o + i - from) as nat),
                Option::None => Option::None::<nat>,
            }),
        decreases len - i,
    {
        if len - i < 2 {
            return None;
        }
        if input[i] == CR && input[i + 1] == LF {
            return Some(i - from);
        }
        i = i + 1;
    }
}

/// Parses the digit run `input[start..end]` as an unsigned 64-bit integer.
#[verifier::loop_isolation(false)]
fn parse_u64_range(input: &[u8], start: usize, end: usize) -> (r: Option<u64>)
    requires
        start <= end <= input@.len(),
    ensures
        ({
            let p = input@.subrange(start as int, end as int);
            match r {
                Some(v) => uint_payload_ok(p) && v as nat == digits_val(p),
                None => !uint_payload_ok(p),
            }
        }),
{
    let ghost p = input@.subrange(start as int, end as int);
    if start == end {
        return None;
    }
    let mut acc: u64 = 0;
    let mut i: usize = start;
    while i < end
        invariant
            start <= i <= end,
            forall|j: int| start <= j < i ==> BYTE_ZERO <= #[trigger] input@[j] <= BYTE_NINE,
            acc as nat == digits_val(input@.subrange(start as int, i as int)),
        decreases end - i,
    {
        let b = input[i];
        if b < BYTE_ZERO || b > BYTE_NINE {
            proof {
                assert(p[i - start] == input@[i as int]);
            }
            return None;
        }
        let d: u64 = (b - BYTE_ZERO) as u64;
        let ghost prefix = input@.subrange(start as int, i as int);
        let ghost extended = input@.subrange(start as int, i as int + 1);
        proof {
            assert(extended.drop_last() =~= prefix);
            assert(extended.last() == input@[i as int]);
        }
        let step = match acc.checked_mul(10) {
            Some(a) => a.checked_add(d),
            None => None,
        };
        match step {
            Some(a2) => {
                acc = a2;
            },
            None => {
                proof {
                    assert(digits_val(extended) > u64::MAX);
                    assert(extended =~= p.subrange(0, i + 1 - start));
                    lemma_digits_val_prefix(p, i + 1 - start);
                }
                return None;
            },
        }
        i += 1;
    }
    proof {
        assert(input@.subrange(start as int, end as int) =~= p);
    }
    Some(acc)
}

/// Parses the payload `input[start..end]` as a signed 64-bit integer:
/// an optional leading minus sign, then decimal digits.
fn parse_int_range(input: &[u8], start: usize, end: usize) -> (r: Option<i64>)
    requires
        start <= end <= input@.len(),
    ensures
        ({
            let p = input@.subrange(start as int, end as int);
            match r {
                Some(v) => int_payload_ok(p) && v as int == int_payload_val(p),
                None => !int_payload_ok(p),
            }
        }),
{
    let ghost p = input@.subrange(start as int, end as int);
    if start < end && input[start] == BYTE_MINUS {
        proof {
            assert(p[0] == input@[start as int]);
            assert(p.subrange(1, p.len() as int) =~= input@.subrange(start as int + 1, end as int));
        }
        match parse_u64_range(input, start + 1, end) {
            Option::None => None,
            Option::Some(m) => {
                if m < 9223372036854775808u64 {
                    Some((-(m as i64)) as i64)
                } else if m == 9223372036854775808u64 {
                    Some(i64::MIN)
                } else {
                    None
                }
            },
        }
    } else {
        proof {
            if start < end {
                assert(p[0] == input@[start as int]);
            }
            assert(p =~= input@.subrange(start as int, end as int));
        }
        match parse_u64_range(input, start, end) {
            Option::None => None,
            Option::Some(v) => {
                if v <= 9223372036854775807u64 {
                    Some(v as i64)
                } else {
                    None
                }
            },
        }
    }
}

/// Decodes the value starting at `pos`, exactly as the parsing function of
/// the model states.
#[verifier::loop_isolation(false)]
#[verifier::rlimit(100)]
fn parse_value_at(input: &[u8], pos: usize) -> (r: Result<(RespValue, usize), Error>)
    requires
        pos <= input@.len(),
    ensures
        match r {
            Ok((v, c)) => parse_value(input@, pos as int) == Result::<(RespData, nat), Error>::Ok(
                (v@, c as nat),
            ) && pos + c <= input@.len() && c >= 3,
            Err(e) => parse_value(input@, pos as int) == Result::<(RespData, nat), Error>::Err(e),
        },
    decreases input@.len() - pos,
{
    let ghost s = input@;
    let len = input.len();
    if pos >= len {
        return Err(Error::Eof);
    }
    let tag = input[pos];
    if tag == TAG_SIMPLE || tag == TAG_ERROR {
        match find_crlf(input, pos + 1) {
            Option::None => Err(Error::ExpectedSimpleString),
            Option::Some(o) => {
                proof {
                    lemma_crlf_offset(s, pos as int + 1);
                }
                let payload = slice_to_vec(slice_subrange(input, pos + 1, pos + 1 + o));
                match bytes_to_string(payload) {
                    Option::None => Err(Error::Syntax),
                    Option::Some(t) => {
                        if tag == TAG_SIMPLE {
                            Ok((RespValue::SimpleString(t), o + 3))
                        } else {
                            Ok((RespValue::ErrorLine(t), o + 3))
                        }
                    },
                }
            },
        }
    } else if tag == TAG_INTEGER {
        match find_crlf(input, pos + 1) {
            Option::None => Err(Error::ExpectedCRLF),
            Option::Some(o) => {
                proof {
                    lemma_crlf_offset(s, pos as int + 1);
                }
                match parse_int_range(input, pos + 1, pos + 1 + o) {
                    Option::None => Err(Error::ExpectedInteger),
                    Option::Some(v) => Ok((RespValue::Integer(v), o + 3)),
                }
            },
        }
    } else if tag == TAG_BOOLEAN {
        if len - pos < 4 {
            Err(Error::Eof)
        } else if (input[pos + 1] == BYTE_T || input[pos + 1] == BYTE_F) && input[pos + 2] == CR
            && input[pos + 3] == LF {
            Ok((RespValue::Boolean(input[pos + 1] == BYTE_T), 4))
        } else {
            Err(Error::Syntax)
        }
    } else if tag == TAG_NULL {
        if len - pos < 3 {
            Err(Error::Eof)
        } else if input[pos + 1] == CR && input[pos + 2] == LF {
            Ok((RespValue::Null, 3))
        } else {
            Err(Error::ExpectedCRLF)
        }
    } else if tag == TAG_BULK {
        match find_crlf(input, pos + 1) {
            Option::None => Err(Error::ExpectedCRLF),
            Option::Some(o) => {
                proof {
                    lemma_crlf_offset(s, pos as int + 1);
                }
                let ghost payload = s.subrange(pos as int + 1, pos as int + 1 + o);
                if o == 2 && input[pos + 1] == BYTE_MINUS && input[pos + 2] == BYTE_ONE {
                    proof {
                        assert(payload =~= seq![BYTE_MINUS, BYTE_ONE]);
                    }
                    Ok((RespValue::BulkString(Option::None), o + 3))
                } else {
                    proof {
                        if payload == seq![BYTE_MINUS, BYTE_ONE] {
                            assert(payload.len() == 2);
                            assert(payload[0] == BYTE_MINUS && payload[1] == BYTE_ONE);
                            assert(input@[pos as int + 1] == BYTE_MINUS);
                            assert(input@[pos as int + 2] == BYTE_ONE);
                            assert(false);
                        }
                    }
                    match parse_u64_range(input, pos + 1, pos + 1 + o) {
                        Option::None => Err(Error::Syntax),
                        Option::Some(n) => {
                            let body = pos + 1 + o + 2;
                            if n > (len - body) as u64 {
                                Err(Error::Eof)
                            } else {
                                let nn = n as usize;
                                if len - (body + nn) < 2 {
                                    Err(Error::ExpectedCRLF)
                                } else if input[body + nn] == CR && input[body + nn + 1] == LF {
                                    let bytes = slice_to_vec(slice_subrange(input, body, body + nn));
                                    Ok((RespValue::BulkString(Option::Some(bytes)), o + 3 + nn + 2))
                                } else {
                                    Err(Error::ExpectedCRLF)
                                }
                            }
                        },
                    }
                }
            },
        }
    } else if tag == TAG_ARRAY {
        match find_crlf(input, pos + 1) {
            Option::None => Err(Error::ExpectedCRLF),
            Option::Some(o) => {
                proof {
                    lemma_crlf_offset(s, pos as int + 1);
                }
                let ghost payload = s.subrange(pos as int + 1, pos as int + 1 + o);
                if o == 2 && input[pos + 1] == BYTE_MINUS && input[pos + 2] == BYTE_ONE {
                    proof {
                        assert(payload =~= seq![BYTE_MINUS, BYTE_ONE]);
                    }
                    Ok((RespValue::Array(Option::None), o + 3))
                } else {
                    proof {
                        if payload == seq![BYTE_MINUS, BYTE_ONE] {
                            assert(payload[0] == BYTE_MINUS && payload[1] == BYTE_ONE);
                            assert(payload.len() == 2);
                            assert(input@[pos as int + 1] == BYTE_MINUS);
                            assert(input@[pos as int + 2] == BYTE_ONE);
                            assert(false);
                        }
                    }
                    match parse_u64_range(input, pos + 1, pos + 1 + o) {
                        Option::None => Err(Error::ExpectedArray),
                        Option::Some(n) => {
                            let body = pos + 1 + o + 2;
                            let ghost full = parse_elements(s, body as int, n as nat);
                            proof {
                                assert(parse_value(s, pos as int) == (match full {
                                    Err(e) => Result::<(RespData, nat), Error>::Err(e),
                                    Ok((vs, c)) => Result::<(RespData, nat), Error>::Ok(
                                        (
                                            RespData::Array(Option::Some(vs)),
                                            ((body - pos) + c) as nat,
                                        ),
                                    ),
                                }));
                            }
                            let mut elems: Vec<RespValue> = Vec::new();
                            let mut cur: usize = body;
                            let mut k: u64 = 0;
                            while k < n
                                invariant
                                    body <= cur <= len,
                                    k <= n,
                                    elems@.len() == k,
                                    full == (match parse_elements(s, cur as int, (n - k) as nat) {
                                        Ok((vs, c2)) => Result::<(Seq<RespData>, nat), Error>::Ok(
                                            (view_elems(elems@) + vs, ((cur - body) + c2) as nat),
                                        ),
                                        Err(e) => Result::<(Seq<RespData>, nat), Error>::Err(e),
                                    }),
                                decreases n - k,
                            {
                                let ghost rem = (n - k) as nat;
                                let ghost tail0 = parse_elements(s, cur as int, rem);
                                match parse_value_at(input, cur) {
                                    Err(e) => {
                                        return Err(e);
                                    },
                                    Ok((v, c)) => {
                                        proof {
                                            let tail1 = parse_elements(
                                                s,
                                                cur as int + c as int,
                                                (rem - 1) as nat,
                                            );
                                            lemma_view_elems_push(elems@, v);
                                            match tail1 {
                                                Err(e) => {},
                                                Ok((vs, c2)) => {
                                                    assert(view_elems(elems@) + (seq![v@] + vs)
                                                        =~= (view_elems(elems@) + seq![v@]) + vs);
                                                },
                                            }
                                        }
                                        elems.push(v);
                                        cur = cur + c;
                                        k = k + 1;
                                    },
                                }
                            }
                            proof {
                                assert(parse_elements(s, cur as int, 0nat)
                                    == Result::<(Seq<RespData>, nat), Error>::Ok(
                                    (Seq::<RespData>::empty(), 0nat),
                                ));
                                assert(view_elems(elems@) + Seq::<RespData>::empty() =~= view_elems(
                                    elems@,
                                ));
                            }
                            Ok((RespValue::Array(Option::Some(elems)), cur - pos))
                        },
                    }
                }
            },
        }
    } else {
        Err(Error::Syntax)
    }
}

/// Decodes one RESP value from the front of a complete buffer, returning the
/// value together with the count of bytes consumed; trailing bytes are left
/// unread. The result is exactly what the parsing function of the model
/// yields on the buffer.
pub fn decode(input: &[u8]) -> (r: Result<(RespValue, usize), Error>)
    ensures
        match r {
            Ok((v, c)) => parse_value(input@, 0) == Result::<(RespData, nat), Error>::Ok(
                (v@, c as nat),
            ) && c <= input@.len(),
            Err(e) => parse_value(input@, 0) == Result::<(RespData, nat), Error>::Err(e),
        },
{
    parse_value_at(input, 0)
}

} // verus!
