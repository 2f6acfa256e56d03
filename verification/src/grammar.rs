use vstd::prelude::*;

verus! {

// The byte values of the RESP grammar: one tag byte per token kind, the CRLF
// terminator, and the ASCII characters used inside header lines.
pub const CR: u8 = 13;
pub const LF: u8 = 10;
pub const TAG_SIMPLE: u8 = 43;
pub const TAG_ERROR: u8 = 45;
pub const TAG_INTEGER: u8 = 58;
pub const TAG_BOOLEAN: u8 = 35;
pub const TAG_NULL: u8 = 95;
pub const TAG_BULK: u8 = 36;
pub const TAG_ARRAY: u8 = 42;
pub const BYTE_T: u8 = 116;
pub const BYTE_F: u8 = 102;
pub const BYTE_MINUS: u8 = 45;
pub const BYTE_ONE: u8 = 49;
pub const BYTE_ZERO: u8 = 48;
pub const BYTE_NINE: u8 = 57;

/// The two-byte line terminator.
pub open spec fn crlf() -> Seq<u8> {
    seq![CR, LF]
}

/// The decimal digit bytes of `n`, most significant first, with no sign and no
/// leading zero (`0` itself is the single byte `0`).
pub open spec fn dec_digits(n: nat) -> Seq<u8>
    decreases n,
{
    if n < 10 {
        seq![(BYTE_ZERO + n) as u8]
    } else {
        dec_digits(n / 10) + seq![(BYTE_ZERO + n % 10) as u8]
    }
}

pub open spec fn is_digit(b: u8) -> bool {
    BYTE_ZERO <= b <= BYTE_NINE
}

/// A non-empty run of decimal digit bytes.
pub open spec fn is_digits(s: Seq<u8>) -> bool {
    s.len() >= 1 && forall|i: int| 0 <= i < s.len() ==> is_digit(#[trigger] s[i])
}

pub open spec fn digit_of(b: u8) -> nat {
    if is_digit(b) {
        (b - BYTE_ZERO) as nat
    } else {
        0
    }
}

/// The numeric value of a run of decimal digit bytes, most significant first.
pub open spec fn digits_val(s: Seq<u8>) -> nat
    decreases s.len(),
{
    if s.len() == 0 {
        0
    } else {
        digits_val(s.drop_last()) * 10 + digit_of(s.last())
    }
}

/// An unsigned decimal payload: all digits, and small enough for `u64`.
pub open spec fn uint_payload_ok(p: Seq<u8>) -> bool {
    is_digits(p) && digits_val(p) <= u64::MAX
}

/// A signed decimal payload: an optional leading minus sign before the digits,
/// and a value within the signed 64-bit range.
pub open spec fn int_payload_ok(p: Seq<u8>) -> bool {
    if p.len() >= 1 && p[0] == BYTE_MINUS {
        let m = p.subrange(1, p.len() as int);
        is_digits(m) && digits_val(m) <= 0x8000_0000_0000_0000
    } else {
        is_digits(p) && digits_val(p) <= i64::MAX
    }
}

pub open spec fn int_payload_val(p: Seq<u8>) -> int {
    if p.len() >= 1 && p[0] == BYTE_MINUS {
        -(digits_val(p.subrange(1, p.len() as int)) as int)
    } else {
        digits_val(p) as int
    }
}

/// The decimal digit bytes of `v`, preceded by a minus sign when `v` is
/// negative.
pub open spec fn int_bytes(v: int) -> Seq<u8> {
    if v < 0 {
        seq![BYTE_MINUS] + dec_digits((-v) as nat)
    } else {
        dec_digits(v as nat)
    }
}

/// The wire form of an integer token: `:<decimal>\r\n`.
pub open spec fn int_line(v: int) -> Seq<u8> {
    seq![TAG_INTEGER] + int_bytes(v) + crlf()
}

/// The decimal digits of `n` read back as `n`: formatting and digit
/// valuation are inverses.
pub proof fn lemma_dec_digits(n: nat)
    ensures
        is_digits(dec_digits(n)),
        digits_val(dec_digits(n)) == n,
    decreases n,
{
    if n < 10 {
        let w = dec_digits(n);
        assert(w.drop_last() =~= Seq::<u8>::empty());
        assert(digits_val(Seq::<u8>::empty()) == 0);
        assert(digit_of(w.last()) == n);
        assert(digits_val(w) == digits_val(w.drop_last()) * 10 + digit_of(w.last()));
    } else {
        lemma_dec_digits(n / 10);
        let d = dec_digits(n / 10);
        let w = dec_digits(n);
        assert(w.drop_last() =~= d);
        assert(w.last() == (BYTE_ZERO + n % 10) as u8);
        assert(digit_of(w.last()) == n % 10);
        vstd::arithmetic::div_mod::lemma_fundamental_div_mod(n as int, 10);
        assert(digits_val(w) == (n / 10) * 10 + n % 10);
        assert(forall|i: int| 0 <= i < w.len() ==> is_digit(#[trigger] w[i])) by {
            assert(forall|i: int| 0 <= i < d.len() ==> w[i] == #[trigger] d[i]);
        }
    }
}

/// A longer digit run never has a smaller value than one of its prefixes.
pub proof fn lemma_digits_val_prefix(p: Seq<u8>, k: int)
    requires
        0 <= k <= p.len(),
    ensures
        digits_val(p.subrange(0, k)) <= digits_val(p),
    decreases p.len() - k,
{
    if k < p.len() {
        lemma_digits_val_prefix(p, k + 1);
        let a = p.subrange(0, k);
        let b = p.subrange(0, k + 1);
        assert(b.drop_last() =~= a);
        assert(digits_val(b) == digits_val(a) * 10 + digit_of(b.last()));
    } else {
        assert(p.subrange(0, k) =~= p);
    }
}

/// The digit bytes of an in-range signed integer parse back to that integer,
/// and contain no framing bytes.
pub proof fn lemma_int_bytes_val(v: int)
    requires
        i64::MIN <= v <= i64::MAX,
    ensures
        int_payload_ok(int_bytes(v)),
        int_payload_val(int_bytes(v)) == v,
        int_bytes(v).len() >= 1,
        forall|i: int| 0 <= i < int_bytes(v).len() ==> int_bytes(v)[i] != CR && int_bytes(v)[i] != LF,
{
    let p = int_bytes(v);
    if v < 0 {
        lemma_dec_digits((-v) as nat);
        let d = dec_digits((-v) as nat);
        assert(p.subrange(1, p.len() as int) =~= d);
        assert(p[0] == BYTE_MINUS);
    } else {
        lemma_dec_digits(v as nat);
        assert(p =~= dec_digits(v as nat));
        assert(is_digit(p[0]));
    }
}

} // verus!
