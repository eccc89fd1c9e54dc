//! Shared character and string primitives: character classes, string
//! equality, blank tests, and the decimal integer reading that WHERE
//! comparisons use.

use vstd::prelude::*;

verus! {

/// The whitespace characters the grammar recognises: space, tab,
/// carriage return, line feed.
pub open spec fn is_ws(c: char) -> bool {
    c == ' ' || c == '\t' || c == '\r' || c == '\n'
}

/// ASCII decimal digit.
pub open spec fn is_digit(c: char) -> bool {
    '0' <= c && c <= '9'
}

/// ASCII alphanumeric: the identifier alphabet.
pub open spec fn is_alnum(c: char) -> bool {
    ('0' <= c && c <= '9') || ('a' <= c && c <= 'z') || ('A' <= c && c <= 'Z')
}

/// Runtime test for [`is_ws`].
pub fn char_is_ws(c: char) -> (b: bool)
    ensures
        b == is_ws(c),
{
    c == ' ' || c == '\t' || c == '\r' || c == '\n'
}

/// Runtime test for [`is_digit`].
pub fn char_is_digit(c: char) -> (b: bool)
    ensures
        b == is_digit(c),
{
    '0' <= c && c <= '9'
}

/// Runtime test for [`is_alnum`].
pub fn char_is_alnum(c: char) -> (b: bool)
    ensures
        b == is_alnum(c),
{
    ('0' <= c && c <= '9') || ('a' <= c && c <= 'z') || ('A' <= c && c <= 'Z')
}

/// Character-by-character string equality, so that no contract rests on
/// an unspecified `PartialEq` impl.
pub fn str_eq(a: &str, b: &str) -> (r: bool)
    ensures
        r == (a@ == b@),
{
    let alen = a.unicode_len();
    let blen = b.unicode_len();
    if alen != blen {
        assert(a@ != b@) by {
            assert(a@.len() != b@.len());
        }
        return false;
    }
    let mut i: usize = 0;
    while i < alen
        invariant
            i <= alen,
            alen == a@.len(),
            alen == b@.len(),
            forall|j: int| 0 <= j < i ==> a@[j] == b@[j],
        decreases alen - i,
    {
        if a.get_char(i) != b.get_char(i) {
            return false;
        }
        i = i + 1;
    }
    proof {
        assert(a@ =~= b@);
    }
    true
}

/// Every character is whitespace (an empty string is blank).
pub open spec fn is_blank(s: Seq<char>) -> bool {
    forall|i: int| 0 <= i < s.len() ==> is_ws(#[trigger] s[i])
}

/// Runtime test for [`is_blank`].
pub fn str_is_blank(s: &str) -> (b: bool)
    ensures
        b == is_blank(s@),
{
    let n = s.unicode_len();
    let mut i: usize = 0;
    while i < n
        invariant
            i <= n,
            n == s@.len(),
            forall|j: int| 0 <= j < i ==> is_ws(#[trigger] s@[j]),
        decreases n - i,
    {
        if !char_is_ws(s.get_char(i)) {
            return false;
        }
        i = i + 1;
    }
    true
}

/// ASCII lower-casing of a single character; everything outside `A`..`Z`
/// is left alone.
pub open spec fn lower_char(c: char) -> char {
    if 'A' <= c && c <= 'Z' {
        (c as u32 + 32) as char
    } else {
        c
    }
}

/// Whether two characters agree up to ASCII case.
pub fn char_eq_nocase(a: char, b: char) -> (r: bool)
    ensures
        r == (lower_char(a) == lower_char(b)),
{
    let au: u32 = a as u32;
    let bu: u32 = b as u32;
    let al: u32 = if 65 <= au && au <= 90 {
        au + 32
    } else {
        au
    };
    let bl: u32 = if 65 <= bu && bu <= 90 {
        bu + 32
    } else {
        bu
    };
    proof {
        assert(al == lower_char(a) as u32);
        assert(bl == lower_char(b) as u32);
    }
    al == bl
}

/// The numeric value of a digit character.
pub open spec fn digit_val(c: char) -> int {
    c as int - '0' as int
}

/// Every character is an ASCII digit.
pub open spec fn all_digits(s: Seq<char>) -> bool {
    forall|i: int| 0 <= i < s.len() ==> is_digit(#[trigger] s[i])
}

/// The base-ten value of a digit string.
pub open spec fn digits_val(s: Seq<char>) -> int
    decreases s.len(),
{
    if s.len() == 0 {
        0
    } else {
        digits_val(s.drop_last()) * 10 + digit_val(s.last())
    }
}

/// Whether the string is a signed decimal literal: an optional sign
/// followed by one or more digits, nothing else.
pub open spec fn is_int_literal(s: Seq<char>) -> bool {
    if s.len() == 0 {
        false
    } else if s[0] == '+' || s[0] == '-' {
        s.len() > 1 && all_digits(s.drop_first())
    } else {
        all_digits(s)
    }
}

/// The signed value of an integer literal.
pub open spec fn int_literal_val(s: Seq<char>) -> int {
    if s.len() > 0 && s[0] == '-' {
        -digits_val(s.drop_first())
    } else if s.len() > 0 && s[0] == '+' {
        digits_val(s.drop_first())
    } else {
        digits_val(s)
    }
}

/// What a WHERE comparison reads out of a value: the literal's value when
/// the string is a decimal literal in `i32` range, and zero otherwise.
pub open spec fn parse_i32_or_zero(s: Seq<char>) -> i32 {
    if is_int_literal(s) && i32::MIN <= int_literal_val(s) <= i32::MAX {
        int_literal_val(s) as i32
    } else {
        0i32
    }
}

/// Nonnegative digit strings only grow as digits are appended.
proof fn lemma_digits_val_nonneg(s: Seq<char>)
    requires
        all_digits(s),
    ensures
        digits_val(s) >= 0,
    decreases s.len(),
{
    if s.len() > 0 {
        assert(all_digits(s.drop_last())) by {
            assert(forall|i: int| 0 <= i < s.len() - 1 ==> s.drop_last()[i] == s[i]);
        }
        lemma_digits_val_nonneg(s.drop_last());
        assert(digit_val(s.last()) >= 0);
        assert(digits_val(s.drop_last()) * 10 >= 0) by (nonlinear_arith)
            requires
                digits_val(s.drop_last()) >= 0,
        ;
    }
}

/// Runtime reading of a decimal value, agreeing with
/// [`parse_i32_or_zero`] on every input.
pub fn read_i32_or_zero(s: &str) -> (r: i32)
    ensures
        r == parse_i32_or_zero(s@),
{
    let n = s.unicode_len();
    if n == 0 {
        return 0;
    }
    let first = s.get_char(0);
    let neg = first == '-';
    let start: usize = if first == '-' || first == '+' {
        1
    } else {
        0
    };
    if start == n {
        return 0;
    }
    let ghost digits = s@.subrange(start as int, n as int);
    let mut acc: u64 = 0;
    let mut big = false;
    let mut i: usize = start;
    while i < n
        invariant
            start <= i <= n,
            n == s@.len(),
            start <= 1,
            (start == 1) == (s@[0] == '+' || s@[0] == '-'),
            neg == (s@[0] == '-'),
            digits == s@.subrange(start as int, n as int),
            forall|j: int| start <= j < i ==> is_digit(#[trigger] s@[j]),
            !big ==> acc <= 0x8000_0000 && acc == digits_val(
                s@.subrange(start as int, i as int),
            ),
            big ==> digits_val(s@.subrange(start as int, i as int)) > 0x8000_0000,
        decreases n - i,
    {
        let c = s.get_char(i);
        if !char_is_digit(c) {
            proof {
                if is_int_literal(s@) {
                    if start == 1 {
                        assert(s@.drop_first()[i - 1] == s@[i as int]);
                        assert(is_digit(s@[i as int]));
                    } else {
                        assert(is_digit(s@[i as int]));
                    }
                }
            }
            return 0;
        }
        let d: u64 = (c as u32 - 48) as u64;
        proof {
            assert(d == digit_val(c));
            let prefix = s@.subrange(start as int, i as int);
            let ext = s@.subrange(start as int, i + 1);
            assert(ext.drop_last() =~= prefix);
            assert(ext.last() == s@[i as int]);
            assert(digits_val(ext) == digits_val(prefix) * 10 + digit_val(s@[i as int]));
            if big {
                assert(digits_val(prefix) * 10 + digit_val(s@[i as int]) > 0x8000_0000)
                    by (nonlinear_arith)
                    requires
                        digits_val(prefix) > 0x8000_0000,
                        digit_val(s@[i as int]) >= 0,
                ;
            }
        }
        if !big {
            let next = acc * 10 + d;
            if next > 0x8000_0000 {
                big = true;
            } else {
                acc = next;
            }
        }
        i = i + 1;
    }
    proof {
        assert(s@.subrange(start as int, n as int) == digits);
        assert(all_digits(digits));
        if start == 1 {
            assert(digits =~= s@.drop_first());
        } else {
            assert(digits =~= s@);
        }
        assert(is_int_literal(s@));
        lemma_digits_val_nonneg(digits);
    }
    if big {
        proof {
            if neg {
                assert(int_literal_val(s@) == -digits_val(digits));
                assert(int_literal_val(s@) < i32::MIN);
            } else {
                assert(int_literal_val(s@) == digits_val(digits));
                assert(int_literal_val(s@) > i32::MAX);
            }
        }
        return 0;
    }
    if neg {
        if acc == 0x8000_0000 {
            proof {
                assert(int_literal_val(s@) == -0x8000_0000);
            }
            return i32::MIN;
        }
        let v: i32 = acc as i32;
        proof {
            assert(int_literal_val(s@) == -(acc as int));
        }
        return -v;
    }
    if acc == 0x8000_0000 {
        proof {
            assert(int_literal_val(s@) == 0x8000_0000);
            assert(int_literal_val(s@) > i32::MAX);
        }
        return 0;
    }
    let v: i32 = acc as i32;
    proof {
        assert(int_literal_val(s@) == acc as int);
    }
    v
}

} // verus!
