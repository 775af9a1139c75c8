//! The connection target: an address string of the shape `host:port`.
//!
//! Resolving a target to a socket address is the surrounding binary's job;
//! the library validates the lexical shape (a nonempty host, a final colon,
//! and a decimal port no greater than 65535) and carries the text.
use vstd::prelude::*;

use crate::num::all_digits;
use crate::num::lemma_seq_val_prefix;
use crate::num::scan_digits;
use crate::num::seq_val;
use crate::num::spec_is_digit;

verus! {

/// A connection target: the address text a transport is opened against.
pub struct Config {
    pub path: String,
}

impl Config {
    /// Wraps an address string as a connection target.
    pub fn new(path: String) -> (r: Config)
        ensures
            r.path == path,
    {
        Config { path }
    }
}

/// The split of a target at the colon before its port: a nonempty host, the
/// colon, and one or more digits whose value is a valid port number.
pub open spec fn is_target_split(s: Seq<char>, i: int) -> bool {
    &&& 1 <= i < s.len() - 1
    &&& s[i] == ':'
    &&& all_digits(s.skip(i + 1))
    &&& seq_val(s.skip(i + 1)) <= 65535
}

/// The address text has the shape `host:port`.
pub open spec fn valid_target(s: Seq<char>) -> bool {
    exists|i: int| is_target_split(s, i)
}

/// In a valid split, everything after the colon is a digit, so the splitting
/// colon is the last colon of the string.
proof fn lemma_split_is_last_colon(s: Seq<char>, i: int, j: int)
    requires
        is_target_split(s, i),
        i < j < s.len(),
    ensures
        s[j] != ':',
{
    assert(s.skip(i + 1)[j - i - 1] == s[j]);
    assert(spec_is_digit(s[j]));
    vstd::utf8::char_u32_cast(':', ':' as u32);
    vstd::utf8::char_u32_cast(s[j], s[j] as u32);
}

/// Whether `s` has the shape `host:port`.
pub fn check_target(s: &str) -> (r: bool)
    ensures
        r == valid_target(s@),
{
    let len = s.unicode_len();
    let mut last: Option<usize> = None;
    let mut j: usize = 0;
    while j < len
        invariant
            j <= len,
            len == s@.len(),
            last is None ==> forall|k: int| 0 <= k < j ==> s@[k] != ':',
            last matches Some(c) ==> c < j && s@[c as int] == ':' && (forall|k: int|
                c < k < j ==> s@[k] != ':'),
        decreases len - j,
    {
        let c = s.get_char(j);
        if c == ':' {
            last = Some(j);
        }
        j = j + 1;
    }
    let ci = match last {
        Some(c) => c,
        None => {
            proof {
                assert forall|i: int| !is_target_split(s@, i) by {
                    if is_target_split(s@, i) {
                        assert(s@[i] != ':');
                    }
                }
            }
            return false;
        },
    };
    proof {
        assert forall|i: int| is_target_split(s@, i) implies i == ci by {
            if i < ci {
                lemma_split_is_last_colon(s@, i, ci as int);
            }
            if i > ci {
                assert(s@[i] != ':');
            }
        }
    }
    if ci == 0 || ci + 1 >= len {
        return false;
    }
    let e = scan_digits(s, ci + 1);
    if e != len {
        proof {
            assert forall|i: int| !is_target_split(s@, i) by {
                if is_target_split(s@, i) {
                    assert(i == ci);
                    assert forall|k: int|
                        ci + 1 <= k < len implies spec_is_digit(#[trigger] s@[k]) by {
                        assert(s@.skip(i + 1)[k - i - 1] == s@[k]);
                        assert(spec_is_digit(s@.skip(i + 1)[k - i - 1]));
                    }
                    assert(!spec_is_digit(s@[e as int]));
                    assert(spec_is_digit(s@[e as int]));
                }
            }
        }
        return false;
    }
    let ghost digits = s@.skip(ci + 1);
    proof {
        assert(forall|k: int| 0 <= k < digits.len() ==> digits[k] == s@[ci + 1 + k]);
        assert(all_digits(digits));
        assert(digits =~= s@.subrange(ci + 1, len as int));
    }
    let mut acc: u32 = 0;
    let mut i = ci + 1;
    while i < len
        invariant
            ci + 1 <= i <= len,
            len == s@.len(),
            ci as int + 1 < len,
            digits == s@.skip(ci + 1),
            digits =~= s@.subrange(ci + 1, len as int),
            all_digits(digits),
            forall|k: int| ci + 1 <= k < len ==> spec_is_digit(#[trigger] s@[k]),
            acc as nat == seq_val(s@.subrange(ci + 1, i as int)),
            acc <= 65535,
            s@[ci as int] == ':',
            forall|w: int| is_target_split(s@, w) ==> w == ci as int,
        decreases len - i,
    {
        let c = s.get_char(i);
        proof {
            vstd::utf8::char_u32_cast(c, c as u32);
        }
        let d = c as u32 - 48;
        let ghost next = s@.subrange(ci + 1, i + 1);
        proof {
            assert(next.drop_last() =~= s@.subrange(ci + 1, i as int));
            assert(seq_val(next) == (acc as nat) * 10 + d as nat);
        }
        if acc > 6553 || (acc == 6553 && d > 5) {
            proof {
                assert((acc as nat) * 10 + d as nat > 65535);
                assert(next =~= digits.subrange(0, i + 1 - (ci + 1)));
                lemma_seq_val_prefix(digits, i + 1 - (ci + 1));
                assert(seq_val(digits) > 65535);
                assert forall|w: int| !is_target_split(s@, w) by {
                    if is_target_split(s@, w) {
                        assert(w == ci);
                    }
                }
            }
            return false;
        }
        acc = acc * 10 + d;
        i = i + 1;
    }
    proof {
        assert(s@.subrange(ci + 1, len as int) =~= digits);
        assert(acc as nat == seq_val(digits));
        assert(is_target_split(s@, ci as int));
    }
    true
}

} // verus!
