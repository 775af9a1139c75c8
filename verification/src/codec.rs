//! The value codec: converting native values to and from the protocol's
//! tagged textual column representation.
//!
//! A column's `data` must lexically parse under its declared kind: integers
//! as optionally signed decimal digits, floats as decimal or exponential
//! notation, the null kind as the empty string; text and blob carry any
//! text. Decoding never assumes well-formed input: malformed text is a
//! [`DecodeError`], never a crash.
use vstd::prelude::*;
use vstd::string::StrSliceExecFns;

use crate::dto::ColumnData;
use crate::dto::ColumnDataV;
use crate::dto::DataType;
use crate::num::all_digits;
use crate::num::lemma_seq_val_prefix;
use crate::num::lemma_seq_val_spec_dec;
use crate::num::lemma_spec_dec_props;
use crate::num::scan_digits;
use crate::num::seq_val;
use crate::num::spec_dec;
use crate::num::spec_is_digit;

verus! {

/// Why a decode failed: the text does not parse under the declared kind, the
/// parsed value does not fit the native type, or the column's kind is not
/// the one the caller asked to decode.
#[derive(Clone, Copy, Debug, PartialEq, Eq, Structural)]
pub enum DecodeError {
    Malformed,
    OutOfRange,
    KindMismatch,
}

/// A leading sign character.
pub open spec fn is_sign(c: char) -> bool {
    c == '+' || c == '-'
}

/// Optionally signed decimal digits, at least one.
pub open spec fn is_int_text(s: Seq<char>) -> bool {
    if s.len() == 0 {
        false
    } else if is_sign(s[0]) {
        s.len() >= 2 && all_digits(s.skip(1))
    } else {
        all_digits(s)
    }
}

/// The signed value an integer text stands for.
pub open spec fn int_text_val(s: Seq<char>) -> int
    recommends
        is_int_text(s),
{
    if s.len() > 0 && s[0] == '-' {
        -(seq_val(s.skip(1)) as int)
    } else if s.len() > 0 && s[0] == '+' {
        seq_val(s.skip(1)) as int
    } else {
        seq_val(s) as int
    }
}

/// The canonical text of a signed integer: a minus sign for negatives, then
/// the minimal digits of the magnitude.
pub open spec fn spec_int_str(v: int) -> Seq<char> {
    if v < 0 {
        seq!['-'] + spec_dec((-v) as nat)
    } else {
        spec_dec(v as nat)
    }
}

/// The end of the maximal digit run starting at `j`.
pub open spec fn run_end(s: Seq<char>, j: int) -> int
    decreases s.len() - j,
    when 0 <= j <= s.len()
{
    if j < s.len() && spec_is_digit(s[j]) {
        run_end(s, j + 1)
    } else {
        j
    }
}

/// Shape of the maximal digit run: it starts at `j`, holds only digits, and
/// stops at the end of the string or just before a non-digit.
pub proof fn lemma_run_end_props(s: Seq<char>, j: int)
    requires
        0 <= j <= s.len(),
    ensures
        j <= run_end(s, j) <= s.len(),
        forall|k: int| j <= k < run_end(s, j) ==> spec_is_digit(#[trigger] s[k]),
        run_end(s, j) < s.len() ==> !spec_is_digit(s[run_end(s, j)]),
    decreases s.len() - j,
{
    if j < s.len() && spec_is_digit(s[j]) {
        lemma_run_end_props(s, j + 1);
    }
}

/// Any maximal digit run from `j` ends where `run_end` says.
pub proof fn lemma_run_end_unique(s: Seq<char>, j: int, e: int)
    requires
        0 <= j <= e <= s.len(),
        forall|k: int| j <= k < e ==> spec_is_digit(#[trigger] s[k]),
        e < s.len() ==> !spec_is_digit(s[e]),
    ensures
        run_end(s, j) == e,
{
    lemma_run_end_props(s, j);
    let re = run_end(s, j);
    if re < e {
        assert(spec_is_digit(s[re]));
        assert(false);
    }
    if re > e {
        assert(spec_is_digit(s[e]));
        assert(false);
    }
}

/// Decimal or exponential floating-point text: an optional sign, digits, an
/// optional fraction (a dot and digits), and an optional exponent (`e` or
/// `E`, an optional sign, and digits).
pub open spec fn is_float_text(s: Seq<char>) -> bool {
    let start: int = if s.len() > 0 && is_sign(s[0]) {
        1
    } else {
        0
    };
    let e1 = run_end(s, start);
    &&& s.len() > 0
    &&& e1 > start
    &&& (e1 == s.len() || spec_frac_or_exp(s, e1))
}

/// A fraction part, optionally followed by an exponent part, or an exponent
/// part alone, filling the rest of the string.
pub open spec fn spec_frac_or_exp(s: Seq<char>, p: int) -> bool
    recommends
        0 <= p < s.len(),
{
    if s[p] == '.' {
        if p + 1 <= s.len() {
            let e2 = run_end(s, p + 1);
            e2 > p + 1 && (e2 == s.len() || spec_exp(s, e2))
        } else {
            false
        }
    } else {
        spec_exp(s, p)
    }
}

/// An exponent part filling the rest of the string.
pub open spec fn spec_exp(s: Seq<char>, p: int) -> bool
    recommends
        0 <= p < s.len(),
{
    &&& (s[p] == 'e' || s[p] == 'E')
    &&& {
        let q: int = if p + 1 < s.len() && is_sign(s[p + 1]) {
            p + 2
        } else {
            p + 1
        };
        q <= s.len() && run_end(s, q) > q && run_end(s, q) == s.len()
    }
}

/// The column invariant: the text parses under the declared kind.
pub open spec fn wf_column(c: ColumnDataV) -> bool {
    match c.data_type {
        DataType::NULL => c.data.len() == 0,
        DataType::INTEGER => is_int_text(c.data),
        DataType::FLOAT => is_float_text(c.data),
        DataType::TEXT => true,
        DataType::BLOB => true,
    }
}

/// The canonical integer text round-trips: it is well-formed integer text
/// and it evaluates back to the value it was made from.
pub proof fn lemma_int_text_roundtrip(v: int)
    ensures
        is_int_text(spec_int_str(v)),
        int_text_val(spec_int_str(v)) == v,
{
    if v < 0 {
        lemma_spec_dec_props((-v) as nat);
        lemma_seq_val_spec_dec((-v) as nat);
        let s = spec_int_str(v);
        assert(s[0] == '-');
        assert(s.skip(1) =~= spec_dec((-v) as nat));
    } else {
        lemma_spec_dec_props(v as nat);
        lemma_seq_val_spec_dec(v as nat);
        let s = spec_int_str(v);
        assert(s == spec_dec(v as nat));
        assert(spec_is_digit(s[0]));
        vstd::utf8::char_u32_cast(s[0], s[0] as u32);
        vstd::utf8::char_u32_cast('-', '-' as u32);
        vstd::utf8::char_u32_cast('+', '+' as u32);
        assert(!is_sign(s[0]));
    }
}

impl ColumnData {
    /// Whether this column satisfies the invariant of its declared kind.
    pub fn is_well_formed(&self) -> (r: bool)
        ensures
            r == wf_column(self@),
    {
        match self.data_type {
            DataType::NULL => self.data.as_str().unicode_len() == 0,
            DataType::INTEGER => check_int_text(self.data.as_str()),
            DataType::FLOAT => check_float_text(self.data.as_str()),
            DataType::TEXT => true,
            DataType::BLOB => true,
        }
    }

    /// Decodes the column's text as a signed 32-bit integer. Succeeds
    /// exactly when the text is well-formed integer text whose value fits.
    pub fn decode_integer(&self) -> (r: Result<i32, DecodeError>)
        ensures
            r matches Ok(v) ==> is_int_text(self@.data) && v as int == int_text_val(self@.data),
            r is Err ==> !(is_int_text(self@.data) && i32::MIN <= int_text_val(self@.data)
                <= i32::MAX),
            r matches Err(e) ==> e == (if !is_int_text(self@.data) {
                DecodeError::Malformed
            } else {
                DecodeError::OutOfRange
            }),
    {
        let s = self.data.as_str();
        let len = s.unicode_len();
        if len == 0 {
            return Err(DecodeError::Malformed);
        }
        let c0 = s.get_char(0);
        let neg = c0 == '-';
        let start: usize = if c0 == '-' || c0 == '+' {
            1
        } else {
            0
        };
        let e = scan_digits(s, start);
        if e == start || e != len {
            proof {
                vstd::utf8::char_u32_cast(c0, c0 as u32);
                vstd::utf8::char_u32_cast('-', '-' as u32);
                vstd::utf8::char_u32_cast('+', '+' as u32);
                if is_int_text(self@.data) {
                    assert(forall|k: int|
                        0 <= k < self@.data.skip(1).len() ==> self@.data.skip(1)[k] == self@.data[1
                            + k]);
                    if start == 1 {
                        assert(is_sign(self@.data[0]));
                        assert(self@.data.len() >= 2);
                        assert(all_digits(self@.data.skip(1)));
                        assert forall|k: int|
                            1 <= k < len implies spec_is_digit(#[trigger] self@.data[k]) by {
                            assert(self@.data.skip(1)[k - 1] == self@.data[k]);
                            assert(spec_is_digit(self@.data.skip(1)[k - 1]));
                        }
                    } else {
                        assert(!is_sign(self@.data[0]));
                        assert(all_digits(self@.data));
                    }
                    assert(forall|k: int|
                        start <= k < len ==> spec_is_digit(#[trigger] self@.data[k]));
                    assert(e == len) by {
                        if e < len {
                            assert(!spec_is_digit(self@.data[e as int]));
                            assert(spec_is_digit(self@.data[e as int]));
                        }
                    }
                    assert(e > start) by {
                        if e == start {
                            assert(start < len);
                            assert(spec_is_digit(self@.data[start as int]));
                        }
                    }
                    assert(false);
                }
            }
            return Err(DecodeError::Malformed);
        }
        proof {
            vstd::utf8::char_u32_cast(c0, c0 as u32);
            vstd::utf8::char_u32_cast('-', '-' as u32);
            vstd::utf8::char_u32_cast('+', '+' as u32);
            if start == 1 {
                assert(is_sign(self@.data[0]));
                assert(self@.data.skip(1) =~= self@.data.subrange(1, len as int));
                assert(forall|k: int|
                    0 <= k < self@.data.skip(1).len() ==> self@.data.skip(1)[k] == self@.data[1
                        + k]);
            }
            assert(is_int_text(self@.data));
        }
        let ghost digits = self@.data.skip(start as int);
        proof {
            assert(digits =~= self@.data.subrange(start as int, len as int));
            if start == 0 {
                assert(digits =~= self@.data);
            }
        }
        let mut acc: u64 = 0;
        let mut i = start;
        while i < len
            invariant
                start <= i <= len,
                len == self@.data.len(),
                start < len,
                is_int_text(self@.data),
                digits == self@.data.skip(start as int),
                digits =~= self@.data.subrange(start as int, len as int),
                forall|k: int| start <= k < len ==> spec_is_digit(#[trigger] self@.data[k]),
                acc as nat == seq_val(self@.data.subrange(start as int, i as int)),
                acc <= 0xFFFF_FFFF,
                s@ == self@.data,
                start == 0 || start == 1,
                start == 1 ==> is_sign(self@.data[0]) && digits == self@.data.skip(1),
                start == 0 ==> !is_sign(self@.data[0]) && digits == self@.data,
            decreases len - i,
        {
            let c = s.get_char(i);
            proof {
                vstd::utf8::char_u32_cast(c, c as u32);
            }
            let d = (c as u32 - 48) as u64;
            let ghost next = self@.data.subrange(start as int, i + 1);
            proof {
                assert(next.drop_last() =~= self@.data.subrange(start as int, i as int));
                assert(seq_val(next) == (acc as nat) * 10 + d as nat);
            }
            acc = acc * 10 + d;
            i = i + 1;
            if acc > 0xFFFF_FFFF {
                proof {
                    assert(next =~= digits.subrange(0, i - start));
                    lemma_seq_val_prefix(digits, i - start);
                    assert(seq_val(digits) > 0xFFFF_FFFF);
                    if self@.data[0] == '-' || self@.data[0] == '+' {
                        assert(is_sign(self@.data[0]));
                        assert(start == 1);
                        assert(seq_val(self@.data.skip(1)) > 0xFFFF_FFFF);
                    } else {
                        assert(start == 0);
                        assert(seq_val(self@.data) > 0xFFFF_FFFF);
                    }
                    assert(!(i32::MIN <= int_text_val(self@.data) <= i32::MAX));
                }
                return Err(DecodeError::OutOfRange);
            }
        }
        proof {
            assert(self@.data.subrange(start as int, len as int) =~= digits);
            assert(acc as nat == seq_val(digits));
        }
        proof {
            if neg {
                assert(self@.data[0] == '-');
                assert(int_text_val(self@.data) == -(seq_val(self@.data.skip(1)) as int));
                assert(int_text_val(self@.data) == -(acc as int));
            } else if start == 1 {
                assert(self@.data[0] == '+');
                assert(self@.data[0] != '-') by {
                    vstd::utf8::char_u32_cast('-', '-' as u32);
                    vstd::utf8::char_u32_cast('+', '+' as u32);
                }
                assert(int_text_val(self@.data) == seq_val(self@.data.skip(1)) as int);
                assert(int_text_val(self@.data) == acc as int);
            } else {
                assert(!is_sign(self@.data[0]));
                assert(int_text_val(self@.data) == seq_val(self@.data) as int);
                assert(int_text_val(self@.data) == acc as int);
            }
        }
        if neg {
            if acc > 0x8000_0000 {
                return Err(DecodeError::OutOfRange);
            }
            let v64: i64 = -(acc as i64);
            Ok(v64 as i32)
        } else {
            if acc > 0x7FFF_FFFF {
                return Err(DecodeError::OutOfRange);
            }
            Ok(acc as i32)
        }
    }

    /// Decodes the column's text as text: always the stored payload.
    pub fn decode_text(&self) -> (r: String)
        ensures
            r@ == self@.data,
    {
        self.data.clone()
    }

    /// Decodes the column's payload as a blob: the raw bytes of the stored
    /// text.
    pub fn decode_blob(&self) -> (r: Vec<u8>)
        ensures
            r@ == vstd::utf8::encode_utf8(self@.data),
    {
        self.data.as_str().as_bytes_vec()
    }

    /// Decodes the column as the null value: succeeds exactly when the
    /// declared kind is `NULL`.
    pub fn decode_null(&self) -> (r: Result<(), DecodeError>)
        ensures
            r is Ok <==> self@.data_type == DataType::NULL,
            r matches Err(e) ==> e == DecodeError::KindMismatch,
    {
        match self.data_type {
            DataType::NULL => Ok(()),
            _ => Err(DecodeError::KindMismatch),
        }
    }

    /// The null column value.
    pub fn null() -> (r: ColumnData)
        ensures
            r@.data_type == DataType::NULL,
            r@.data.len() == 0,
            wf_column(r@),
    {
        ColumnData { data: String::new(), data_type: DataType::NULL }
    }
}

/// Whether `s` is well-formed integer text.
fn check_int_text(s: &str) -> (r: bool)
    ensures
        r == is_int_text(s@),
{
    let len = s.unicode_len();
    if len == 0 {
        return false;
    }
    let c0 = s.get_char(0);
    proof {
        vstd::utf8::char_u32_cast(c0, c0 as u32);
        vstd::utf8::char_u32_cast('-', '-' as u32);
        vstd::utf8::char_u32_cast('+', '+' as u32);
    }
    let start: usize = if c0 == '-' || c0 == '+' {
        1
    } else {
        0
    };
    let e = scan_digits(s, start);
    proof {
        assert(forall|k: int| 0 <= k < s@.skip(1).len() ==> s@.skip(1)[k] == s@[1 + k]);
        if start == 1 {
            assert(is_sign(s@[0]));
        } else {
            assert(!is_sign(s@[0]));
        }
        if e == len && e > start {
            if start == 1 {
                assert(all_digits(s@.skip(1)));
                assert(s@.len() >= 2);
            } else {
                assert(all_digits(s@));
            }
            assert(is_int_text(s@));
        }
        if is_int_text(s@) {
            if start == 1 {
                assert(all_digits(s@.skip(1)));
                assert forall|k: int| 1 <= k < len implies spec_is_digit(#[trigger] s@[k]) by {
                    assert(s@.skip(1)[k - 1] == s@[k]);
                    assert(spec_is_digit(s@.skip(1)[k - 1]));
                }
            } else {
                assert(all_digits(s@));
            }
            assert(forall|k: int| start <= k < len ==> spec_is_digit(#[trigger] s@[k]));
            assert(e == len) by {
                if e < len {
                    assert(!spec_is_digit(s@[e as int]));
                    assert(spec_is_digit(s@[e as int]));
                }
            }
            assert(e > start) by {
                if e == start {
                    assert(start < len);
                    assert(spec_is_digit(s@[start as int]));
                }
            }
        }
    }
    e == len && e > start
}

/// Whether `s` is well-formed floating-point text.
fn check_float_text(s: &str) -> (r: bool)
    ensures
        r == is_float_text(s@),
{
    let len = s.unicode_len();
    if len == 0 {
        return false;
    }
    let c0 = s.get_char(0);
    proof {
        vstd::utf8::char_u32_cast(c0, c0 as u32);
        vstd::utf8::char_u32_cast('-', '-' as u32);
        vstd::utf8::char_u32_cast('+', '+' as u32);
    }
    let start: usize = if c0 == '-' || c0 == '+' {
        1
    } else {
        0
    };
    let e1 = scan_digits(s, start);
    proof {
        lemma_run_end_unique(s@, start as int, e1 as int);
    }
    if e1 == start {
        return false;
    }
    if e1 == len {
        return true;
    }
    check_frac_or_exp(s, e1)
}

/// Whether the rest of `s` from `p` is a fraction and/or exponent part.
fn check_frac_or_exp(s: &str, p: usize) -> (r: bool)
    requires
        p < s@.len(),
    ensures
        r == spec_frac_or_exp(s@, p as int),
{
    let c = s.get_char(p);
    proof {
        vstd::utf8::char_u32_cast(c, c as u32);
        vstd::utf8::char_u32_cast('.', '.' as u32);
    }
    if c == '.' {
        let len = s.unicode_len();
        let e2 = scan_digits(s, p + 1);
        proof {
            lemma_run_end_unique(s@, p + 1, e2 as int);
        }
        if e2 == p + 1 {
            return false;
        }
        if e2 == len {
            return true;
        }
        check_exp(s, e2)
    } else {
        check_exp(s, p)
    }
}

/// Whether the rest of `s` from `p` is an exponent part.
fn check_exp(s: &str, p: usize) -> (r: bool)
    requires
        p < s@.len(),
    ensures
        r == spec_exp(s@, p as int),
{
    let len = s.unicode_len();
    let c = s.get_char(p);
    proof {
        vstd::utf8::char_u32_cast(c, c as u32);
        vstd::utf8::char_u32_cast('e', 'e' as u32);
        vstd::utf8::char_u32_cast('E', 'E' as u32);
    }
    if !(c == 'e' || c == 'E') {
        return false;
    }
    let q: usize = if p + 1 < len {
        let c1 = s.get_char(p + 1);
        proof {
            vstd::utf8::char_u32_cast(c1, c1 as u32);
            vstd::utf8::char_u32_cast('-', '-' as u32);
            vstd::utf8::char_u32_cast('+', '+' as u32);
        }
        if c1 == '-' || c1 == '+' {
            p + 2
        } else {
            p + 1
        }
    } else {
        p + 1
    };
    let e3 = scan_digits(s, q);
    proof {
        lemma_run_end_unique(s@, q as int, e3 as int);
    }
    e3 > q && e3 == len
}

/// The canonical text of a signed 32-bit integer.
pub fn int_to_text(v: i32) -> (r: String)
    ensures
        r@ == spec_int_str(v as int),
        is_int_text(r@),
        int_text_val(r@) == v as int,
{
    let mut out = String::new();
    if v < 0 {
        proof {
            reveal_strlit("-");
        }
        out.append("-");
        let m64: i64 = -(v as i64);
        crate::num::emit_dec(&mut out, m64 as usize);
        proof {
            assert(out@ =~= seq!['-'] + spec_dec((-(v as int)) as nat));
        }
    } else {
        crate::num::emit_dec(&mut out, v as usize);
        proof {
            assert(out@ =~= spec_dec((v as int) as nat));
        }
    }
    proof {
        lemma_int_text_roundtrip(v as int);
    }
    out
}

} // verus!
