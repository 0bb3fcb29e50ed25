//! Reading integers written in decimal, with the grammar of the standard
//! library's `FromStr` for `u64` and `i64`: an optional sign, then one or
//! more ASCII digits, and a value that fits the type.
use vstd::prelude::*;

verus! {

/// True when `c` is an ASCII decimal digit.
pub open spec fn is_digit(c: char) -> bool {
    '0' <= c && c <= '9'
}

/// True when `s` is made of ASCII decimal digits only.
pub open spec fn all_digits(s: Seq<char>) -> bool {
    forall|i: int| 0 <= i < s.len() ==> is_digit(#[trigger] s[i])
}

/// The number that the digits `s` write in base ten.
pub open spec fn digits_value(s: Seq<char>) -> nat
    decreases s.len(),
{
    if s.len() == 0 {
        0
    } else {
        digits_value(s.drop_last()) * 10 + ((s.last() as u32 - '0' as u32) as nat)
    }
}

/// `s` without a leading `+`, if it has one.
pub open spec fn without_plus(s: Seq<char>) -> Seq<char> {
    if s.len() > 0 && s[0] == '+' {
        s.drop_first()
    } else {
        s
    }
}

/// What `u64::from_str` gives for `s`: `None` where it fails.
pub open spec fn unsigned_of(s: Seq<char>) -> Option<u64> {
    let d = without_plus(s);
    if d.len() > 0 && all_digits(d) && digits_value(d) <= u64::MAX {
        Some(digits_value(d) as u64)
    } else {
        None
    }
}

/// What `i64::from_str` gives for `s`: `None` where it fails.
pub open spec fn signed_of(s: Seq<char>) -> Option<i64> {
    if s.len() > 0 && s[0] == '-' {
        let d = s.drop_first();
        if d.len() > 0 && all_digits(d) && digits_value(d) <= 0x8000_0000_0000_0000 {
            Some((0 - digits_value(d)) as i64)
        } else {
            None
        }
    } else {
        let d = without_plus(s);
        if d.len() > 0 && all_digits(d) && digits_value(d) <= i64::MAX {
            Some(digits_value(d) as i64)
        } else {
            None
        }
    }
}

proof fn lemma_digits_value_push(s: Seq<char>, c: char)
    ensures
        digits_value(s.push(c)) == digits_value(s) * 10 + ((c as u32 - '0' as u32) as nat),
{
    assert(s.push(c).drop_last() =~= s);
}

/// Reads the characters of `s` from `start` on as a decimal number without
/// sign; `None` where one of them is not a digit, where there are none, or
/// where the value exceeds `u64::MAX`.
fn read_digits(s: &str, start: usize) -> (r: Option<u64>)
    requires
        start <= s@.len(),
    ensures
        ({
            let d = s@.subrange(start as int, s@.len() as int);
            r == (if d.len() > 0 && all_digits(d) && digits_value(d) <= u64::MAX {
                Some(digits_value(d) as u64)
            } else {
                None
            })
        }),
{
    let n = s.unicode_len();
    if start == n {
        return None;
    }
    let ghost d = s@.subrange(start as int, s@.len() as int);
    let mut acc: u64 = 0;
    let mut i: usize = start;
    while i < n
        invariant
            n == s@.len(),
            start < n,
            start <= i <= n,
            d == s@.subrange(start as int, s@.len() as int),
            all_digits(d.subrange(0, i - start)),
            acc as nat == digits_value(d.subrange(0, i - start)),
        decreases n - i,
    {
        let c = s.get_char(i);
        proof {
            assert(d.subrange(0, i + 1 - start) =~= d.subrange(0, i - start).push(c));
            lemma_digits_value_push(d.subrange(0, i - start), c);
        }
        if c < '0' || c > '9' {
            assert(!all_digits(d)) by {
                assert(d[i - start] == c);
            }
            return None;
        }
        let digit = (c as u32 - '0' as u32) as u64;
        if acc > (u64::MAX - digit) / 10 {
            proof {
                lemma_digits_prefix_bound(d, (i + 1 - start) as int);
            }
            return None;
        }
        acc = acc * 10 + digit;
        i = i + 1;
    }
    assert(d.subrange(0, n - start) =~= d);
    Some(acc)
}

/// The value of a prefix of digits never exceeds that of the whole.
proof fn lemma_digits_prefix_bound(d: Seq<char>, k: int)
    requires
        0 <= k <= d.len(),
    ensures
        digits_value(d.subrange(0, k)) <= digits_value(d) || !all_digits(d),
    decreases d.len() - k,
{
    if k < d.len() && all_digits(d) {
        lemma_digits_prefix_bound(d, k + 1);
        assert(d.subrange(0, k + 1).drop_last() =~= d.subrange(0, k));
        assert(is_digit(d[k]));
    }
    if k == d.len() {
        assert(d.subrange(0, k) =~= d);
    }
}

/// Parses `s` as `u64::from_str` does.
pub fn parse_unsigned(s: &str) -> (r: Option<u64>)
    ensures
        r == unsigned_of(s@),
{
    let n = s.unicode_len();
    if n > 0 && s.get_char(0) == '+' {
        assert(s@.subrange(1, s@.len() as int) =~= s@.drop_first());
        read_digits(s, 1)
    } else {
        assert(s@.subrange(0, s@.len() as int) =~= s@);
        read_digits(s, 0)
    }
}

/// Parses `s` as `i64::from_str` does.
pub fn parse_signed(s: &str) -> (r: Option<i64>)
    ensures
        r == signed_of(s@),
{
    let n = s.unicode_len();
    if n > 0 && s.get_char(0) == '-' {
        assert(s@.subrange(1, s@.len() as int) =~= s@.drop_first());
        match read_digits(s, 1) {
            Some(m) => {
                if m <= 0x7fff_ffff_ffff_ffff {
                    Some(0 - (m as i64))
                } else if m == 0x8000_0000_0000_0000 {
                    Some(i64::MIN)
                } else {
                    None
                }
            },
            None => None,
        }
    } else {
        let start: usize = if n > 0 && s.get_char(0) == '+' {
            1
        } else {
            0
        };
        assert(s@.subrange(start as int, s@.len() as int) =~= without_plus(s@));
        match read_digits(s, start) {
            Some(m) => {
                if m <= 0x7fff_ffff_ffff_ffff {
                    Some(m as i64)
                } else {
                    None
                }
            },
            None => None,
        }
    }
}

} // verus!
