//! Decimal text for unsigned machine integers: the spec-level digit string of
//! a number, the value of a digit string, and verified emit/parse routines.
//!
//! The wire encoding writes every number as its minimal decimal digit string
//! followed by a `:` terminator, which makes numbers self-delimiting and the
//! parser's accepted language canonical.
use vstd::prelude::*;

verus! {

/// A decimal digit character.
pub open spec fn spec_is_digit(c: char) -> bool {
    48 <= c as u32 && c as u32 <= 57
}

/// Numeric value of a digit character.
pub open spec fn digit_val(c: char) -> nat {
    (c as u32 - 48) as nat
}

/// The digit character for a value below ten.
pub open spec fn digit_char(d: nat) -> char {
    if d == 0 {
        '0'
    } else if d == 1 {
        '1'
    } else if d == 2 {
        '2'
    } else if d == 3 {
        '3'
    } else if d == 4 {
        '4'
    } else if d == 5 {
        '5'
    } else if d == 6 {
        '6'
    } else if d == 7 {
        '7'
    } else if d == 8 {
        '8'
    } else {
        '9'
    }
}

/// Minimal decimal digit string of `n` (no leading zeros; `"0"` for zero).
pub open spec fn spec_dec(n: nat) -> Seq<char>
    decreases n,
{
    if n < 10 {
        seq![digit_char(n)]
    } else {
        spec_dec(n / 10) + seq![digit_char(n % 10)]
    }
}

/// A number on the wire: its digits followed by the `:` terminator.
pub open spec fn spec_num(n: nat) -> Seq<char> {
    spec_dec(n) + seq![':']
}

/// Every character of the string is a decimal digit.
pub open spec fn all_digits(s: Seq<char>) -> bool {
    forall|k: int| 0 <= k < s.len() ==> spec_is_digit(#[trigger] s[k])
}

/// Value of a digit string read most-significant first.
pub open spec fn seq_val(s: Seq<char>) -> nat
    decreases s.len(),
{
    if s.len() == 0 {
        0
    } else {
        seq_val(s.drop_last()) * 10 + digit_val(s.last())
    }
}

pub proof fn lemma_digit_char_val(d: nat)
    requires
        d < 10,
    ensures
        spec_is_digit(digit_char(d)),
        digit_val(digit_char(d)) == d,
        digit_char(d) == '0' <==> d == 0,
{
}

pub proof fn lemma_digit_char_of_val(c: char)
    requires
        spec_is_digit(c),
    ensures
        digit_char(digit_val(c)) == c,
{
    assert(digit_char(digit_val(c)) as u32 == c as u32);
    vstd::utf8::char_u32_cast(c, c as u32);
    vstd::utf8::char_u32_cast(digit_char(digit_val(c)), digit_char(digit_val(c)) as u32);
}

/// Shape of the minimal digit string: nonempty, all digits, and it starts
/// with `'0'` exactly for the number zero (in which case it is just `"0"`).
pub proof fn lemma_spec_dec_props(n: nat)
    ensures
        spec_dec(n).len() >= 1,
        all_digits(spec_dec(n)),
        spec_dec(n)[0] == '0' <==> n == 0,
        n == 0 ==> spec_dec(n).len() == 1,
    decreases n,
{
    if n < 10 {
        lemma_digit_char_val(n);
    } else {
        lemma_spec_dec_props(n / 10);
        lemma_digit_char_val(n % 10);
        assert(spec_dec(n)[0] == spec_dec(n / 10)[0]);
    }
}

/// The digit string of `n` evaluates back to `n`.
pub proof fn lemma_seq_val_spec_dec(n: nat)
    ensures
        seq_val(spec_dec(n)) == n,
    decreases n,
{
    if n < 10 {
        lemma_digit_char_val(n);
        assert(spec_dec(n).drop_last() =~= Seq::<char>::empty());
        assert(spec_dec(n).last() == digit_char(n));
        assert(seq_val(Seq::<char>::empty()) == 0);
        assert(seq_val(spec_dec(n)) == 0 * 10 + digit_val(digit_char(n)));
    } else {
        lemma_seq_val_spec_dec(n / 10);
        lemma_digit_char_val(n % 10);
        assert(spec_dec(n).drop_last() =~= spec_dec(n / 10));
        assert(spec_dec(n).last() == digit_char(n % 10));
        assert(seq_val(spec_dec(n)) == (n / 10) * 10 + n % 10);
        vstd::arithmetic::div_mod::lemma_fundamental_div_mod(n as int, 10);
    }
}

/// A nonempty digit string that does not start with `'0'` has a positive value.
proof fn lemma_seq_val_pos(s: Seq<char>)
    requires
        all_digits(s),
        s.len() >= 1,
        s[0] != '0',
    ensures
        seq_val(s) >= 1,
    decreases s.len(),
{
    vstd::utf8::char_u32_cast(s[0], s[0] as u32);
    vstd::utf8::char_u32_cast('0', '0' as u32);
    if s.len() == 1 {
        assert(digit_val(s.last()) >= 1);
    } else {
        assert(s.drop_last()[0] == s[0]);
        lemma_seq_val_pos(s.drop_last());
    }
}

/// A canonical digit string (nonempty, no redundant leading zero) is exactly
/// the minimal digit string of its value.
pub proof fn lemma_canonical_digits(s: Seq<char>)
    requires
        all_digits(s),
        s.len() >= 1,
        s.len() > 1 ==> s[0] != '0',
    ensures
        spec_dec(seq_val(s)) == s,
    decreases s.len(),
{
    if s.len() == 1 {
        assert(s.drop_last() =~= Seq::<char>::empty());
        assert(s.last() == s[0]);
        assert(seq_val(Seq::<char>::empty()) == 0);
        assert(seq_val(s) == 0 * 10 + digit_val(s[0]));
        assert(seq_val(s) < 10);
        lemma_digit_char_of_val(s[0]);
        assert(spec_dec(seq_val(s)) =~= seq![digit_char(digit_val(s[0]))]);
        assert(spec_dec(seq_val(s)) =~= s);
    } else {
        let front = s.drop_last();
        let v = seq_val(s);
        let fv = seq_val(front);
        let dv = digit_val(s.last());
        assert(front[0] == s[0]);
        lemma_seq_val_pos(front);
        assert(v == fv * 10 + dv);
        assert(v / 10 == fv && v % 10 == dv) by (nonlinear_arith)
            requires
                v == fv * 10 + dv,
                dv < 10,
        {}
        assert(v >= 10) by (nonlinear_arith)
            requires
                v == fv * 10 + dv,
                fv >= 1,
        {}
        lemma_canonical_digits(front);
        lemma_digit_char_of_val(s.last());
        assert(spec_dec(v) =~= s);
    }
}

/// Extending a digit string cannot decrease its value.
pub proof fn lemma_seq_val_prefix(s: Seq<char>, i: int)
    requires
        0 <= i <= s.len(),
    ensures
        seq_val(s.subrange(0, i)) <= seq_val(s),
    decreases s.len() - i,
{
    if i == s.len() {
        assert(s.subrange(0, i) =~= s);
    } else {
        let t = s.subrange(0, i + 1);
        assert(t.drop_last() =~= s.subrange(0, i));
        assert(seq_val(t) == seq_val(s.subrange(0, i)) * 10 + digit_val(t.last()));
        assert(seq_val(s.subrange(0, i)) <= seq_val(t)) by (nonlinear_arith)
            requires
                seq_val(t) == seq_val(s.subrange(0, i)) * 10 + digit_val(t.last()),
        {}
        lemma_seq_val_prefix(s, i + 1);
    }
}

/// If `spec_num(n)` is a prefix of `s` at `pos`, and `[pos, e)` is the maximal
/// digit run of `s` starting at `pos`, then the digits of `n` are exactly that
/// run, terminated by the `':'` at `e`.
pub proof fn lemma_num_prefix_run(s: Seq<char>, pos: int, e: int, n: nat)
    requires
        0 <= pos <= e <= s.len(),
        forall|k: int| pos <= k < e ==> spec_is_digit(#[trigger] s[k]),
        e < s.len() ==> !spec_is_digit(s[e]),
        spec_num(n).is_prefix_of(s.skip(pos)),
    ensures
        e < s.len(),
        s[e] == ':',
        spec_dec(n).len() == e - pos,
        spec_dec(n) == s.subrange(pos, e),
        n == seq_val(s.subrange(pos, e)),
{
    lemma_spec_dec_props(n);
    let ll: int = spec_dec(n).len() as int;
    let tail = s.skip(pos);
    assert(forall|k: int| 0 <= k < ll + 1 ==> tail[k] == spec_num(n)[k]);
    assert(forall|k: int| 0 <= k < ll ==> tail[k] == spec_dec(n)[k]);
    assert(tail[ll] == ':');
    vstd::utf8::char_u32_cast(':', ':' as u32);
    assert(!spec_is_digit(':'));
    if ll < e - pos {
        assert(s[pos + ll] == tail[ll]);
        assert(spec_is_digit(s[pos + ll]));
        assert(false);
    }
    if ll > e - pos {
        assert(e < s.len()) by {
            assert(pos + ll < pos + ll + 1 <= s.len());
        }
        assert(s[e] == tail[e - pos]);
        assert(tail[e - pos] == spec_dec(n)[e - pos]);
        assert(spec_is_digit(s[e]));
        assert(false);
    }
    assert(ll == e - pos);
    assert(pos + ll < s.len());
    assert(s[e] == tail[ll]);
    assert(spec_dec(n) =~= s.subrange(pos, e));
    lemma_seq_val_spec_dec(n);
}

/// Returns `"d"` for a digit value `d`.
fn digit_str(d: usize) -> (r: &'static str)
    requires
        d < 10,
    ensures
        r@ =~= seq![digit_char(d as nat)],
{
    proof {
        reveal_strlit("0");
        reveal_strlit("1");
        reveal_strlit("2");
        reveal_strlit("3");
        reveal_strlit("4");
        reveal_strlit("5");
        reveal_strlit("6");
        reveal_strlit("7");
        reveal_strlit("8");
        reveal_strlit("9");
    }
    match d {
        0 => "0",
        1 => "1",
        2 => "2",
        3 => "3",
        4 => "4",
        5 => "5",
        6 => "6",
        7 => "7",
        8 => "8",
        _ => "9",
    }
}

/// Appends the minimal decimal digit string of `n` to `out`.
pub fn emit_dec(out: &mut String, n: usize)
    ensures
        final(out)@ == old(out)@ + spec_dec(n as nat),
    decreases n,
{
    if n < 10 {
        out.append(digit_str(n));
        assert(final(out)@ =~= old(out)@ + spec_dec(n as nat));
    } else {
        emit_dec(out, n / 10);
        out.append(digit_str(n % 10));
        assert(final(out)@ =~= old(out)@ + spec_dec(n as nat));
    }
}

/// Appends `n`'s digits and the `':'` terminator to `out`.
pub fn emit_num(out: &mut String, n: usize)
    ensures
        final(out)@ == old(out)@ + spec_num(n as nat),
{
    emit_dec(out, n);
    proof {
        reveal_strlit(":");
    }
    out.append(":");
    assert(final(out)@ =~= old(out)@ + spec_num(n as nat));
}

/// End of the maximal digit run of `s` that starts at `j`.
pub(crate) fn scan_digits(s: &str, j: usize) -> (e: usize)
    requires
        j <= s@.len(),
    ensures
        j <= e <= s@.len(),
        forall|k: int| j <= k < e ==> spec_is_digit(#[trigger] s@[k]),
        e < s@.len() ==> !spec_is_digit(s@[e as int]),
    decreases s@.len() - j,
{
    let len = s.unicode_len();
    if j < len {
        let c = s.get_char(j);
        let u = c as u32;
        if 48 <= u && u <= 57 {
            let e = scan_digits(s, j + 1);
            return e;
        }
    }
    j
}

/// Parses a `':'`-terminated number at `pos`: the maximal digit run must be
/// nonempty, canonical (no redundant leading zero), fit in `usize`, and be
/// followed by `':'`. Accepts exactly the strings `spec_num` produces.
pub fn parse_num(s: &str, pos: usize) -> (r: Option<(usize, usize)>)
    requires
        pos <= s@.len(),
    ensures
        r matches Some(t) ==> pos < t.1 <= s@.len() && s@.subrange(pos as int, t.1 as int)
            == spec_num(t.0 as nat),
        forall|n: nat|
            n <= usize::MAX && (#[trigger] spec_num(n)).is_prefix_of(s@.skip(pos as int)) ==> (
            r matches Some(t) && t.0 as nat == n && t.1 as int == pos + spec_num(n).len()),
{
    let len = s.unicode_len();
    let e = scan_digits(s, pos);
    if e == pos {
        proof {
            assert forall|n: nat|
                n <= usize::MAX && (#[trigger] spec_num(n)).is_prefix_of(
                    s@.skip(pos as int),
                ) implies false by {
                lemma_num_prefix_run(s@, pos as int, e as int, n);
                lemma_spec_dec_props(n);
            }
        }
        return None;
    }
    if e == len {
        proof {
            assert forall|n: nat|
                n <= usize::MAX && (#[trigger] spec_num(n)).is_prefix_of(
                    s@.skip(pos as int),
                ) implies false by {
                lemma_num_prefix_run(s@, pos as int, e as int, n);
            }
        }
        return None;
    }
    let t = s.get_char(e);
    if t != ':' {
        proof {
            assert forall|n: nat|
                n <= usize::MAX && (#[trigger] spec_num(n)).is_prefix_of(
                    s@.skip(pos as int),
                ) implies false by {
                lemma_num_prefix_run(s@, pos as int, e as int, n);
            }
        }
        return None;
    }
    let first = s.get_char(pos);
    if e - pos > 1 && first as u32 == 48 {
        proof {
            vstd::utf8::char_u32_cast(s@[pos as int], s@[pos as int] as u32);
            vstd::utf8::char_u32_cast('0', '0' as u32);
            assert(s@[pos as int] == '0');
            assert forall|n: nat|
                n <= usize::MAX && (#[trigger] spec_num(n)).is_prefix_of(
                    s@.skip(pos as int),
                ) implies false by {
                lemma_num_prefix_run(s@, pos as int, e as int, n);
                lemma_spec_dec_props(n);
                assert(spec_dec(n)[0] == s@[pos as int]);
            }
        }
        return None;
    }
    proof {
        vstd::utf8::char_u32_cast(':', ':' as u32);
        assert(s@[e as int] == ':');
        assert(!spec_is_digit(s@[e as int]));
    }
    let ghost run = s@.subrange(pos as int, e as int);
    let mut v: usize = 0;
    let mut i = pos;
    while i < e
        invariant
            pos <= i <= e < s@.len(),
            forall|k: int| pos <= k < e ==> spec_is_digit(#[trigger] s@[k]),
            !spec_is_digit(s@[e as int]),
            run == s@.subrange(pos as int, e as int),
            v as nat == seq_val(s@.subrange(pos as int, i as int)),
        decreases e - i,
    {
        let c = s.get_char(i);
        proof {
            vstd::utf8::char_u32_cast(c, c as u32);
        }
        let d = (c as u32 - 48) as usize;
        let ghost next = s@.subrange(pos as int, i + 1);
        proof {
            assert(next.drop_last() =~= s@.subrange(pos as int, i as int));
            assert(seq_val(next) == (v as nat) * 10 + d as nat);
        }
        if v > (usize::MAX - d) / 10 {
            proof {
                assert((v as nat) * 10 + d as nat > usize::MAX) by (nonlinear_arith)
                    requires
                        v as nat > ((usize::MAX - d as nat) as nat) / 10,
                        d < 10,
                {}
                assert(next =~= run.subrange(0, i + 1 - pos));
                lemma_seq_val_prefix(run, i + 1 - pos);
                assert(seq_val(run) > usize::MAX);
                assert forall|n: nat|
                    n <= usize::MAX && (#[trigger] spec_num(n)).is_prefix_of(
                        s@.skip(pos as int),
                    ) implies false by {
                    lemma_num_prefix_run(s@, pos as int, e as int, n);
                }
            }
            return None;
        }
        proof {
            assert((v as nat) * 10 + d as nat <= usize::MAX) by (nonlinear_arith)
                requires
                    v as nat <= ((usize::MAX - d as nat) as nat) / 10,
                    d < 10,
            {}
        }
        v = v * 10 + d;
        i = i + 1;
    }
    proof {
        vstd::utf8::char_u32_cast(':', ':' as u32);
        assert(!spec_is_digit(s@[e as int]));
        assert(run.len() >= 1);
        assert(run[0] == s@[pos as int]);
        if run.len() > 1 {
            vstd::utf8::char_u32_cast(s@[pos as int], s@[pos as int] as u32);
            vstd::utf8::char_u32_cast('0', '0' as u32);
            assert(run[0] != '0');
        }
        assert(forall|k: int| 0 <= k < run.len() ==> spec_is_digit(#[trigger] run[k]));
        lemma_canonical_digits(run);
        assert(s@.subrange(pos as int, e + 1) =~= run + seq![':']);
        assert(spec_num(v as nat) == s@.subrange(pos as int, e + 1));
        assert forall|n: nat|
            n <= usize::MAX && (#[trigger] spec_num(n)).is_prefix_of(
                s@.skip(pos as int),
            ) implies n == v as nat && pos + spec_num(n).len() == e + 1 by {
            lemma_num_prefix_run(s@, pos as int, e as int, n);
        }
    }
    Some((v, e + 1))
}

} // verus!
