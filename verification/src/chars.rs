//! Character classes and decimal conversions used by the directive
//! language: everything here is plain character arithmetic.

use vstd::prelude::*;

verus! {

/// ASCII letters, digits and `_`: the characters a word may consist of.
pub open spec fn is_word_char(c: char) -> bool {
    ('a' <= c && c <= 'z') || ('A' <= c && c <= 'Z') || ('0' <= c && c <= '9') || c == '_'
}

/// The characters a target may consist of: word characters, `:` and `-`.
pub open spec fn is_target_char(c: char) -> bool {
    is_word_char(c) || c == ':' || c == '-'
}

/// The characters a field name may continue with: word characters and `.`.
pub open spec fn is_field_char(c: char) -> bool {
    is_word_char(c) || c == '.'
}

pub open spec fn is_digit_char(c: char) -> bool {
    '0' <= c && c <= '9'
}

pub fn word_char(c: char) -> (r: bool)
    ensures
        r == is_word_char(c),
{
    ('a' <= c && c <= 'z') || ('A' <= c && c <= 'Z') || ('0' <= c && c <= '9') || c == '_'
}

pub fn target_char(c: char) -> (r: bool)
    ensures
        r == is_target_char(c),
{
    word_char(c) || c == ':' || c == '-'
}

pub fn field_char(c: char) -> (r: bool)
    ensures
        r == is_field_char(c),
{
    word_char(c) || c == '.'
}

pub fn digit_char(c: char) -> (r: bool)
    ensures
        r == is_digit_char(c),
{
    '0' <= c && c <= '9'
}

/// The code of `c` with an ASCII upper-case letter folded to lower case.
pub open spec fn lower_code(c: char) -> int {
    if 'A' <= c && c <= 'Z' {
        c as u32 + 32
    } else {
        c as u32 as int
    }
}

/// Whether two character sequences are equal up to ASCII case.
pub open spec fn eq_ignore_case(a: Seq<char>, b: Seq<char>) -> bool {
    a.len() == b.len() && forall|i: int| 0 <= i < a.len() ==> lower_code(a[i]) == lower_code(b[i])
}

pub fn char_lower_code(c: char) -> (r: u32)
    ensures
        r as int == lower_code(c),
{
    if 'A' <= c && c <= 'Z' {
        c as u32 + 32
    } else {
        c as u32
    }
}

/// The numeric value of a sequence of decimal digits, most significant first.
pub open spec fn digits_val(s: Seq<char>) -> int
    decreases s.len(),
{
    if s.len() == 0 {
        0
    } else {
        digits_val(s.drop_last()) * 10 + (s.last() as u32 - '0' as u32)
    }
}

pub open spec fn all_digits(s: Seq<char>) -> bool {
    forall|i: int| 0 <= i < s.len() ==> is_digit_char(#[trigger] s[i])
}

/// `u64::from_str`: an optional `+`, then one or more digits whose value
/// fits in the type.
pub open spec fn spec_parse_u64(s: Seq<char>) -> Option<u64> {
    let d = if s.len() > 0 && s[0] == '+' {
        s.drop_first()
    } else {
        s
    };
    if d.len() > 0 && all_digits(d) && digits_val(d) <= u64::MAX {
        Some(digits_val(d) as u64)
    } else {
        None
    }
}

/// `i64::from_str`: an optional sign, then one or more digits whose value
/// fits in the type.
pub open spec fn spec_parse_i64(s: Seq<char>) -> Option<i64> {
    if s.len() > 0 && s[0] == '-' {
        let d = s.drop_first();
        if d.len() > 0 && all_digits(d) && digits_val(d) <= 0x8000_0000_0000_0000 {
            Some((-digits_val(d)) as i64)
        } else {
            None
        }
    } else {
        let d = if s.len() > 0 && s[0] == '+' {
            s.drop_first()
        } else {
            s
        };
        if d.len() > 0 && all_digits(d) && digits_val(d) <= i64::MAX {
            Some(digits_val(d) as i64)
        } else {
            None
        }
    }
}

/// Once a digit sequence's value exceeds a bound, appending digits keeps it
/// above the bound.
pub proof fn lemma_digits_val_monotone(s: Seq<char>, n: int)
    requires
        0 <= n <= s.len(),
        all_digits(s),
    ensures
        digits_val(s.take(n)) <= digits_val(s),
    decreases s.len() - n,
{
    if n < s.len() {
        lemma_digits_val_monotone(s, n + 1);
        assert(s.take(n + 1).drop_last() =~= s.take(n));
        assert(digits_val(s.take(n + 1)) == digits_val(s.take(n)) * 10 + (s.take(n + 1).last()
            as u32 - '0' as u32));
        assert(is_digit_char(s[n]));
        assert(digits_val(s.take(n)) >= 0) by {
            lemma_digits_val_nonneg(s.take(n));
        }
    } else {
        assert(s.take(n) =~= s);
    }
}

pub proof fn lemma_digits_val_nonneg(s: Seq<char>)
    requires
        all_digits(s),
    ensures
        digits_val(s) >= 0,
    decreases s.len(),
{
    if s.len() > 0 {
        assert(all_digits(s.drop_last())) by {
            assert(forall|i: int|
                0 <= i < s.drop_last().len() ==> #[trigger] s.drop_last()[i] == s[i]);
        }
        lemma_digits_val_nonneg(s.drop_last());
        assert(is_digit_char(s.last()));
    }
}

} // verus!

// === executable keyword and number handling ===

verus! {

use vstd::string::StrSliceExecFns;
use vstd::string::StringExecFns;

/// Relies on `String::push`: appends one character.
#[verifier::external_body]
pub(crate) fn push_char(out: &mut String, c: char)
    ensures
        final(out)@ == old(out)@.push(c),
{
    out.push(c);
}

/// Whether the characters of `s` in `[start, end)` equal `t`, up to
/// ASCII case.
pub fn range_eq_ignore_case(s: &str, start: usize, end: usize, t: &[char]) -> (r: bool)
    requires
        start <= end <= s@.len(),
    ensures
        r == eq_ignore_case(s@.subrange(start as int, end as int), t@),
{
    let ghost sub = s@.subrange(start as int, end as int);
    if end - start != t.len() {
        return false;
    }
    let mut i: usize = 0;
    while i < t.len()
        invariant
            start <= end <= s@.len(),
            end - start == t@.len(),
            sub == s@.subrange(start as int, end as int),
            i <= t@.len(),
            forall|k: int| 0 <= k < i ==> lower_code(sub[k]) == lower_code(t@[k]),
        decreases t@.len() - i,
    {
        let cs = s.get_char(start + i);
        let ct = t[i];
        proof {
            assert(sub[i as int] == s@[start + i]);
        }
        if char_lower_code(cs) != char_lower_code(ct) {
            return false;
        }
        i = i + 1;
    }
    true
}

/// Whether the characters of `s` in `[start, end)` equal `t` exactly.
pub fn range_eq(s: &str, start: usize, end: usize, t: &[char]) -> (r: bool)
    requires
        start <= end <= s@.len(),
    ensures
        r == (s@.subrange(start as int, end as int) =~= t@),
{
    let ghost sub = s@.subrange(start as int, end as int);
    if end - start != t.len() {
        return false;
    }
    let mut i: usize = 0;
    while i < t.len()
        invariant
            start <= end <= s@.len(),
            end - start == t@.len(),
            sub == s@.subrange(start as int, end as int),
            i <= t@.len(),
            forall|k: int| 0 <= k < i ==> sub[k] == t@[k],
        decreases t@.len() - i,
    {
        let cs = s.get_char(start + i);
        proof {
            assert(sub[i as int] == s@[start + i]);
        }
        if cs != t[i] {
            return false;
        }
        i = i + 1;
    }
    proof {
        assert(sub =~= t@);
    }
    true
}

/// The end of the run of decimal digits starting at `i`.
pub open spec fn digit_run_end(s: Seq<char>, i: int) -> int
    decreases s.len() - i,
{
    if i < 0 || i >= s.len() {
        i
    } else if is_digit_char(s[i]) {
        digit_run_end(s, i + 1)
    } else {
        i
    }
}

pub proof fn lemma_digit_run_end(s: Seq<char>, i: int)
    requires
        0 <= i <= s.len(),
    ensures
        i <= digit_run_end(s, i) <= s.len(),
        forall|k: int| i <= k < digit_run_end(s, i) ==> is_digit_char(#[trigger] s[k]),
        digit_run_end(s, i) < s.len() ==> !is_digit_char(s[digit_run_end(s, i)]),
    decreases s.len() - i,
{
    if i < s.len() && is_digit_char(s[i]) {
        lemma_digit_run_end(s, i + 1);
    }
}

} // verus!

// === decimal conversions ===

verus! {

/// The value of the digits of `s` in `[start, end)`, when they are all
/// digits, their value fits, and the range is not empty.
pub fn digits_value_range(s: &str, start: usize, end: usize) -> (r: Option<u64>)
    requires
        start <= end <= s@.len(),
    ensures
        ({
            let d = s@.subrange(start as int, end as int);
            match r {
                Option::Some(v) => start < end && all_digits(d) && digits_val(d) == v as int,
                Option::None => !(start < end && all_digits(d) && digits_val(d) <= u64::MAX),
            }
        }),
{
    let ghost d = s@.subrange(start as int, end as int);
    if start == end {
        return None;
    }
    let mut acc: u128 = 0;
    let mut i: usize = start;
    while i < end
        invariant
            start <= i <= end <= s@.len(),
            d == s@.subrange(start as int, end as int),
            all_digits(d.take(i - start)),
            acc == digits_val(d.take(i - start)),
            acc <= u64::MAX,
        decreases end - i,
    {
        let c = s.get_char(i);
        proof {
            assert(d[i - start] == s@[i as int]);
        }
        if !digit_char(c) {
            proof {
                assert(!is_digit_char(d[i - start]));
                assert(!all_digits(d));
            }
            return None;
        }
        let dv = (c as u32) - 48;
        proof {
            assert(d.take(i - start + 1).drop_last() =~= d.take(i - start));
            assert(d.take(i - start + 1).last() == d[i - start]);
        }
        acc = acc * 10 + (dv as u128);
        if acc > u64::MAX as u128 {
            proof {
                assert(all_digits(d) ==> digits_val(d) > u64::MAX) by {
                    if all_digits(d) {
                        lemma_digits_val_monotone(d, i - start + 1);
                    }
                }
            }
            return None;
        }
        i = i + 1;
    }
    proof {
        assert(d.take(end - start) =~= d);
    }
    Some(acc as u64)
}

/// `u64::from_str` over `[start, end)` of `s`.
pub fn parse_u64_range(s: &str, start: usize, end: usize) -> (r: Option<u64>)
    requires
        start <= end <= s@.len(),
    ensures
        r == spec_parse_u64(s@.subrange(start as int, end as int)),
{
    let ghost whole = s@.subrange(start as int, end as int);
    let mut from = start;
    if start < end && s.get_char(start) == '+' {
        from = start + 1;
        proof {
            assert(whole[0] == s@[start as int]);
            assert(whole.drop_first() =~= s@.subrange(from as int, end as int));
        }
    } else {
        proof {
            if whole.len() > 0 {
                assert(whole[0] == s@[start as int]);
            }
        }
    }
    let v = digits_value_range(s, from, end);
    match v {
        Option::Some(n) => Some(n),
        Option::None => None,
    }
}

/// `i64::from_str` over `[start, end)` of `s`.
pub fn parse_i64_range(s: &str, start: usize, end: usize) -> (r: Option<i64>)
    requires
        start <= end <= s@.len(),
    ensures
        r == spec_parse_i64(s@.subrange(start as int, end as int)),
{
    let ghost whole = s@.subrange(start as int, end as int);
    if start < end && s.get_char(start) == '-' {
        proof {
            assert(whole[0] == s@[start as int]);
            assert(whole.drop_first() =~= s@.subrange(start + 1, end as int));
        }
        let v = digits_value_range(s, start + 1, end);
        match v {
            Option::Some(n) => {
                if n > 0x8000_0000_0000_0000u64 {
                    None
                } else if n == 0x8000_0000_0000_0000u64 {
                    Some(i64::MIN)
                } else {
                    Some(-(n as i64))
                }
            },
            Option::None => {
                proof {
                    let dd = whole.drop_first();
                    if dd.len() > 0 && all_digits(dd) && digits_val(dd)
                        <= 0x8000_0000_0000_0000 {
                        assert(digits_val(dd) <= u64::MAX);
                    }
                }
                None
            },
        }
    } else {
        let mut from = start;
        if start < end && s.get_char(start) == '+' {
            from = start + 1;
            proof {
                assert(whole[0] == s@[start as int]);
                assert(whole.drop_first() =~= s@.subrange(from as int, end as int));
            }
        } else {
            proof {
                if whole.len() > 0 {
                    assert(whole[0] == s@[start as int]);
                }
            }
        }
        let v = digits_value_range(s, from, end);
        match v {
            Option::Some(n) => {
                if n <= i64::MAX as u64 {
                    Some(n as i64)
                } else {
                    None
                }
            },
            Option::None => None,
        }
    }
}

/// The character of one decimal digit.
pub open spec fn digit_to_char(d: int) -> char {
    (('0' as u32 + d) as u32) as char
}

/// The decimal digits of a non-negative number, most significant first,
/// no leading zeros.
pub open spec fn dec_digits(n: int) -> Seq<char>
    decreases n,
{
    if n < 10 {
        seq![digit_to_char(if n >= 0 {
            n
        } else {
            0
        })]
    } else {
        dec_digits(n / 10).push(digit_to_char(n % 10))
    }
}

fn digit_char_of(d: u64) -> (r: char)
    requires
        d < 10,
    ensures
        r == digit_to_char(d as int),
{
    let r = match d {
        0u64 => '0',
        1u64 => '1',
        2u64 => '2',
        3u64 => '3',
        4u64 => '4',
        5u64 => '5',
        6u64 => '6',
        7u64 => '7',
        8u64 => '8',
        _ => '9',
    };
    proof {
        vstd::utf8::char_u32_cast(r, r as u32);
    }
    r
}

/// Append the decimal text of `n`.
pub fn push_u64_text(out: &mut String, n: u64)
    ensures
        final(out)@ == old(out)@ + dec_digits(n as int),
{
    let mut digits: Vec<char> = Vec::new();
    let mut m = n;
    let d0 = m % 10;
    digits.insert(0, digit_char_of(d0));
    m = m / 10;
    proof {
        if n < 10 {
            assert(digits@ =~= dec_digits(n as int));
        } else {
            assert(digits@ =~= seq![digit_to_char(n as int % 10)]);
            assert(dec_digits(n as int) == dec_digits(n as int / 10) + digits@) by {
                assert(dec_digits(n as int / 10).push(digit_to_char(n as int % 10))
                    =~= dec_digits(n as int / 10) + seq![digit_to_char(n as int % 10)]);
            }
        }
    }
    while m > 0
        invariant
            m > 0 ==> dec_digits(n as int) == dec_digits(m as int) + digits@,
            m == 0 ==> dec_digits(n as int) == digits@,
        decreases m,
    {
        let ghost before = digits@;
        let d = m % 10;
        digits.insert(0, digit_char_of(d));
        proof {
            assert(digits@ =~= seq![digit_to_char(d as int)] + before);
        }
        m = m / 10;
        proof {
            if m > 0 {
                assert(dec_digits((m * 10 + d) as int) == dec_digits(m as int).push(
                    digit_to_char(d as int),
                ));
                assert(dec_digits(m as int).push(digit_to_char(d as int)) + before
                    =~= dec_digits(m as int) + digits@);
            } else {
                assert(dec_digits(d as int) =~= seq![digit_to_char(d as int)]);
            }
        }
    }
    let k = digits.len();
    let mut i: usize = 0;
    while i < k
        invariant
            k == digits@.len(),
            i <= k,
            out@ == old(out)@ + digits@.take(i as int),
        decreases k - i,
    {
        push_char(out, digits[i]);
        proof {
            assert(old(out)@ + digits@.take(i as int) + seq![digits@[i as int]] =~= old(out)@
                + digits@.take(i + 1));
        }
        i = i + 1;
    }
    proof {
        assert(digits@.take(k as int) =~= digits@);
    }
}

/// The decimal text of a signed number.
pub open spec fn i64_text(n: int) -> Seq<char> {
    if n < 0 {
        seq!['-'] + dec_digits(-n)
    } else {
        dec_digits(n)
    }
}

/// Append the decimal text of `n`, with a sign when negative.
pub fn push_i64_text(out: &mut String, n: i64)
    ensures
        final(out)@ == old(out)@ + i64_text(n as int),
{
    if n < 0 {
        push_char(out, '-');
        let mag: u64 = (-(n as i128)) as u64;
        push_u64_text(out, mag);
        proof {
            assert(old(out)@.push('-') + dec_digits(mag as int) =~= old(out)@ + i64_text(
                n as int,
            ));
        }
    } else {
        push_u64_text(out, n as u64);
    }
}

} // verus!

// === bounded digit scans ===

verus! {

/// The end of the digit run in `[i, end)`, characterized directly.
pub fn scan_digits_in(s: &str, i: usize, end: usize) -> (r: usize)
    requires
        i <= end <= s@.len(),
    ensures
        i <= r <= end,
        forall|k: int| i <= k < r ==> is_digit_char(#[trigger] s@[k]),
        r < end ==> !is_digit_char(s@[r as int]),
    decreases end - i,
{
    if i < end {
        let c = s.get_char(i);
        if digit_char(c) {
            return scan_digits_in(s, i + 1, end);
        }
    }
    i
}

/// A run characterization pins down `digit_run_end`.
pub proof fn lemma_digit_run_end_unique(s: Seq<char>, k: int, r: int)
    requires
        0 <= k <= r <= s.len(),
        forall|m: int| k <= m < r ==> is_digit_char(#[trigger] s[m]),
        r < s.len() ==> !is_digit_char(s[r]),
    ensures
        digit_run_end(s, k) == r,
    decreases r - k,
{
    if k < r {
        assert(is_digit_char(s[k]));
        lemma_digit_run_end_unique(s, k + 1, r);
    }
}

} // verus!
