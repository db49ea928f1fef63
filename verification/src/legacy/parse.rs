//! Parsing filter text into directives, and assembling a filter.
//!
//! The grammar, per comma-separated clause:
//!
//! ```text
//! clause := level
//!         | (target | span)? (target | span)? ('=' level?)?
//! span   := '[' '['* name? ('{' field '}')? ']'
//! field  := name ('=' value)?
//! ```
//!
//! A malformed clause is reported and skipped; the rest of the
//! specification still compiles.

use vstd::prelude::*;

use crate::chars::{
    all_digits, digits_val, eq_ignore_case, is_digit_char, is_field_char,
    is_target_char, is_word_char,
};
use crate::diagnostics::{IgnoredDirective, IgnoredDirectiveV, SourceRange};
use crate::level::Level;

verus! {

use crate::chars::{
    digit_char, digits_value_range, field_char, parse_i64_range, parse_u64_range,
    range_eq, range_eq_ignore_case, target_char, word_char,
};
use vstd::string::StrSliceExecFns;

// === bounded scans ===

/// The end of the run of target characters in `[i, end)`.
pub open spec fn target_run_end(s: Seq<char>, i: int, end: int) -> int
    decreases end - i,
{
    if i < 0 || i >= end {
        i
    } else if is_target_char(s[i]) {
        target_run_end(s, i + 1, end)
    } else {
        i
    }
}


pub(crate) fn scan_target(s: &str, i: usize, end: usize) -> (r: usize)
    requires
        i <= end <= s@.len(),
    ensures
        r == target_run_end(s@, i as int, end as int),
        i <= r <= end,
    decreases end - i,
{
    if i < end {
        let c = s.get_char(i);
        if target_char(c) {
            return scan_target(s, i + 1, end);
        }
    }
    i
}

/// The end of the run of `[` characters in `[i, end)`.
pub open spec fn open_run_end(s: Seq<char>, i: int, end: int) -> int
    decreases end - i,
{
    if i < 0 || i >= end {
        i
    } else if s[i] == '[' {
        open_run_end(s, i + 1, end)
    } else {
        i
    }
}

pub proof fn lemma_open_run_end(s: Seq<char>, i: int, end: int)
    requires
        0 <= i <= end,
    ensures
        i <= open_run_end(s, i, end) <= end,
    decreases end - i,
{
    if i < end && s[i] == '[' {
        lemma_open_run_end(s, i + 1, end);
    }
}

pub(crate) fn scan_opens(s: &str, i: usize, end: usize) -> (r: usize)
    requires
        i <= end <= s@.len(),
    ensures
        r == open_run_end(s@, i as int, end as int),
        i <= r <= end,
    decreases end - i,
{
    if i < end {
        let c = s.get_char(i);
        if c == '[' {
            return scan_opens(s, i + 1, end);
        }
    }
    i
}

/// The first occurrence of `c` in `[i, end)`.
pub open spec fn find_char(s: Seq<char>, i: int, end: int, c: char) -> Option<int>
    decreases end - i,
{
    if i < 0 || i >= end {
        None
    } else if s[i] == c {
        Some(i)
    } else {
        find_char(s, i + 1, end, c)
    }
}


pub(crate) fn scan_find(s: &str, i: usize, end: usize, c: char) -> (r: Option<usize>)
    requires
        i <= end <= s@.len(),
    ensures
        match r {
            Option::Some(p) => find_char(s@, i as int, end as int, c) == Some(p as int) && i <= p
                < end,
            Option::None => find_char(s@, i as int, end as int, c) is None,
        },
    decreases end - i,
{
    if i < end {
        let ch = s.get_char(i);
        if ch == c {
            return Some(i);
        }
        return scan_find(s, i + 1, end, c);
    }
    None
}

/// The end of the run of span-name characters (anything but `{`) in
/// `[i, end)`; the region contains no `]`.
pub open spec fn name_run_end(s: Seq<char>, i: int, end: int) -> int
    decreases end - i,
{
    if i < 0 || i >= end {
        i
    } else if s[i] != '{' {
        name_run_end(s, i + 1, end)
    } else {
        i
    }
}

pub(crate) fn scan_name(s: &str, i: usize, end: usize) -> (r: usize)
    requires
        i <= end <= s@.len(),
    ensures
        r == name_run_end(s@, i as int, end as int),
        i <= r <= end,
    decreases end - i,
{
    if i < end {
        let c = s.get_char(i);
        if c != '{' {
            return scan_name(s, i + 1, end);
        }
    }
    i
}

/// The end of the run of field-name characters in `[i, end)`.
pub open spec fn field_run_end(s: Seq<char>, i: int, end: int) -> int
    decreases end - i,
{
    if i < 0 || i >= end {
        i
    } else if is_field_char(s[i]) {
        field_run_end(s, i + 1, end)
    } else {
        i
    }
}

pub(crate) fn scan_field(s: &str, i: usize, end: usize) -> (r: usize)
    requires
        i <= end <= s@.len(),
    ensures
        r == field_run_end(s@, i as int, end as int),
        i <= r <= end,
    decreases end - i,
{
    if i < end {
        let c = s.get_char(i);
        if field_char(c) {
            return scan_field(s, i + 1, end);
        }
    }
    i
}


// === levels ===

/// The level of one digit: `0` is `Off`, `5` is `Trace`.
pub open spec fn level_from_rank(n: int) -> Level {
    if n == 0 {
        Level::Off
    } else if n == 1 {
        Level::Error
    } else if n == 2 {
        Level::Warn
    } else if n == 3 {
        Level::Info
    } else if n == 4 {
        Level::Debug
    } else {
        Level::Trace
    }
}

/// What a level text means: an optional `+`, then digits, read as a
/// number up to 5; or a level name, case-insensitive; or the empty
/// text, which reads as `Error`.
pub open spec fn spec_parse_level(s: Seq<char>) -> Option<Level> {
    let d = if s.len() > 0 && s[0] == '+' {
        s.drop_first()
    } else {
        s
    };
    if d.len() > 0 && all_digits(d) {
        if digits_val(d) <= 5 {
            Some(level_from_rank(digits_val(d)))
        } else {
            None
        }
    } else if s.len() == 0 {
        Some(Level::Error)
    } else if eq_ignore_case(s, seq!['e', 'r', 'r', 'o', 'r']) {
        Some(Level::Error)
    } else if eq_ignore_case(s, seq!['w', 'a', 'r', 'n']) {
        Some(Level::Warn)
    } else if eq_ignore_case(s, seq!['i', 'n', 'f', 'o']) {
        Some(Level::Info)
    } else if eq_ignore_case(s, seq!['d', 'e', 'b', 'u', 'g']) {
        Some(Level::Debug)
    } else if eq_ignore_case(s, seq!['t', 'r', 'a', 'c', 'e']) {
        Some(Level::Trace)
    } else if eq_ignore_case(s, seq!['o', 'f', 'f']) {
        Some(Level::Off)
    } else {
        None
    }
}

/// Parse the level text in `[start, end)` of `s`.
pub(crate) fn parse_level_range(s: &str, start: usize, end: usize) -> (r: Option<Level>)
    requires
        start <= end <= s@.len(),
    ensures
        r == spec_parse_level(s@.subrange(start as int, end as int)),
{
    let ghost sub = s@.subrange(start as int, end as int);
    let mut from = start;
    if start < end && s.get_char(start) == '+' {
        from = start + 1;
        proof {
            assert(sub[0] == s@[start as int]);
            assert(sub.drop_first() =~= s@.subrange(from as int, end as int));
        }
    } else {
        proof {
            if sub.len() > 0 {
                assert(sub[0] == s@[start as int]);
            }
        }
    }
    let ghost d = s@.subrange(from as int, end as int);
    // is the (sign-stripped) text entirely digits?
    let mut j = from;
    while j < end
        invariant
            start <= from <= j <= end <= s@.len(),
            d == s@.subrange(from as int, end as int),
            sub == s@.subrange(start as int, end as int),
            d == (if sub.len() > 0 && sub[0] == '+' {
                sub.drop_first()
            } else {
                sub
            }),
            forall|k: int| 0 <= k < j - from ==> is_digit_char(#[trigger] d[k]),
        decreases end - j,
    {
        let c = s.get_char(j);
        proof {
            assert(d[j - from] == s@[j as int]);
        }
        if !digit_char(c) {
            // not numeric: compare against the level names
            proof {
                assert(!all_digits(d));
            }
            return level_by_name(s, start, end);
        }
        j = j + 1;
    }
    if from == end {
        // empty after the sign: not numeric
        proof {
            assert(d.len() == 0);
        }
        return level_by_name(s, start, end);
    }
    proof {
        assert(all_digits(d));
    }
    let v = digits_value_range(s, from, end);
    match v {
        Option::Some(n) => {
            if n <= 5 {
                Some(level_from_digit(n))
            } else {
                None
            }
        },
        Option::None => {
            proof {
                crate::chars::lemma_digits_val_nonneg(d);
            }
            None
        },
    }
}

/// Compare a level text against the level names (the numeric form has
/// already been ruled out).
fn level_by_name(s: &str, start: usize, end: usize) -> (r: Option<Level>)
    requires
        start <= end <= s@.len(),
        ({
            let sub = s@.subrange(start as int, end as int);
            let d = if sub.len() > 0 && sub[0] == '+' {
                sub.drop_first()
            } else {
                sub
            };
            !(d.len() > 0 && all_digits(d))
        }),
    ensures
        r == spec_parse_level(s@.subrange(start as int, end as int)),
{
    if start == end {
        return Some(Level::Error);
    }
    if range_eq_ignore_case(s, start, end, &['e', 'r', 'r', 'o', 'r']) {
        Some(Level::Error)
    } else if range_eq_ignore_case(s, start, end, &['w', 'a', 'r', 'n']) {
        Some(Level::Warn)
    } else if range_eq_ignore_case(s, start, end, &['i', 'n', 'f', 'o']) {
        Some(Level::Info)
    } else if range_eq_ignore_case(s, start, end, &['d', 'e', 'b', 'u', 'g']) {
        Some(Level::Debug)
    } else if range_eq_ignore_case(s, start, end, &['t', 'r', 'a', 'c', 'e']) {
        Some(Level::Trace)
    } else if range_eq_ignore_case(s, start, end, &['o', 'f', 'f']) {
        Some(Level::Off)
    } else {
        None
    }
}

fn level_from_digit(n: u64) -> (r: Level)
    requires
        n <= 5,
    ensures
        r == level_from_rank(n as int),
{
    match n {
        0u64 => Level::Off,
        1u64 => Level::Error,
        2u64 => Level::Warn,
        3u64 => Level::Info,
        4u64 => Level::Debug,
        _ => Level::Trace,
    }
}

} // verus!

// === value literals ===

verus! {

use crate::chars::{lemma_digit_run_end_unique, scan_digits_in};
use crate::legacy::matcher::{
    classify_value, compile_pattern_error, is_float_text, is_nan_text,
    pat_error_text, strip_sign, ValueMatch,
};
use vstd::string::StringExecFns;

/// Whether `[start, end)` of `s` reads as a not-a-number text.
fn is_nan_range(s: &str, start: usize, end: usize) -> (r: bool)
    requires
        start <= end <= s@.len(),
    ensures
        r == is_nan_text(s@.subrange(start as int, end as int)),
{
    let ghost sub = s@.subrange(start as int, end as int);
    let mut b = start;
    if start < end {
        let c = s.get_char(start);
        if c == '+' || c == '-' {
            b = start + 1;
        }
        proof {
            assert(sub[0] == s@[start as int]);
            if b > start {
                assert(strip_sign(sub) =~= s@.subrange(b as int, end as int));
            }
        }
    }
    proof {
        if b == start {
            assert(strip_sign(sub) =~= s@.subrange(b as int, end as int));
        }
    }
    range_eq_ignore_case(s, b, end, &['n', 'a', 'n'])
}

/// Whether `[start, end)` of `s` reads as a floating-point text.
#[verifier::rlimit(50)]
fn is_float_range(s: &str, start: usize, end: usize) -> (r: bool)
    requires
        start <= end <= s@.len(),
    ensures
        r == is_float_text(s@.subrange(start as int, end as int)),
{
    let ghost sub = s@.subrange(start as int, end as int);
    let mut b0 = start;
    if start < end {
        let c = s.get_char(start);
        if c == '+' || c == '-' {
            b0 = start + 1;
        }
        proof {
            assert(sub[0] == s@[start as int]);
            if b0 > start {
                assert(strip_sign(sub) =~= s@.subrange(b0 as int, end as int));
            }
        }
    }
    proof {
        if b0 == start {
            assert(strip_sign(sub) =~= s@.subrange(b0 as int, end as int));
        }
    }
    let ghost body = strip_sign(sub);
    if b0 == end {
        return false;
    }
    if range_eq_ignore_case(s, b0, end, &['i', 'n', 'f']) {
        return true;
    }
    if range_eq_ignore_case(s, b0, end, &['i', 'n', 'f', 'i', 'n', 'i', 't', 'y']) {
        return true;
    }
    if range_eq_ignore_case(s, b0, end, &['n', 'a', 'n']) {
        return true;
    }
    // decimal body
    let i1 = scan_digits_in(s, b0, end);
    proof {
        assert(forall|k: int| 0 <= k < body.len() ==> body[k] == s@[b0 + k]);
        lemma_digit_run_end_unique(body, 0, i1 - b0);
    }
    let mut i2 = i1;
    let mut digits_present = i1 > b0;
    if i1 < end && s.get_char(i1) == '.' {
        i2 = scan_digits_in(s, i1 + 1, end);
        digits_present = i1 > b0 || i2 > i1 + 1;
        proof {
            lemma_digit_run_end_unique(body, i1 - b0 + 1, i2 - b0);
        }
    }
    if !digits_present {
        return false;
    }
    if i2 == end {
        return true;
    }
    let c = s.get_char(i2);
    proof {
        assert(body[i2 - b0] == s@[i2 as int]);
    }
    if !(c == 'e' || c == 'E') {
        return false;
    }
    let mut j = i2 + 1;
    if j < end {
        let cs = s.get_char(j);
        if cs == '+' || cs == '-' {
            j = j + 1;
        }
        proof {
            assert(body[i2 - b0 + 1] == s@[(i2 + 1) as int]);
        }
    }
    if j == end {
        return false;
    }
    let je = scan_digits_in(s, j, end);
    proof {
        if je == end {
            lemma_digit_run_end_unique(body, j - b0, je - b0);
        }
    }
    if je == end {
        true
    } else {
        proof {
            assert(!is_digit_char(body[je - b0]));
            crate::chars::lemma_digit_run_end(body, j - b0);
        }
        false
    }
}

/// Parse one field value literal in `[start, end)` of `s`.
pub(crate) fn parse_value_range(s: &str, start: usize, end: usize) -> (r: Result<
    ValueMatch,
    IgnoredDirective,
>)
    requires
        start <= end <= s@.len(),
    ensures
        ({
            let sub = s@.subrange(start as int, end as int);
            match r {
                Result::Ok(v) => classify_value(sub) == Some(v@),
                Result::Err(e) => classify_value(sub) is None && e@
                    == (IgnoredDirectiveV::InvalidRegex {
                    message: pat_error_text(sub),
                    span: SourceRange { start, end },
                }),
            }
        }),
{
    let ghost sub = s@.subrange(start as int, end as int);
    if range_eq(s, start, end, &['t', 'r', 'u', 'e']) {
        return Ok(ValueMatch::Bool(true));
    }
    if range_eq(s, start, end, &['f', 'a', 'l', 's', 'e']) {
        return Ok(ValueMatch::Bool(false));
    }
    if let Option::Some(n) = parse_u64_range(s, start, end) {
        return Ok(ValueMatch::U64(n));
    }
    if let Option::Some(n) = parse_i64_range(s, start, end) {
        return Ok(ValueMatch::I64(n));
    }
    if is_float_range(s, start, end) {
        if is_nan_range(s, start, end) {
            return Ok(ValueMatch::NaN);
        }
        let text = String::from_str(s.substring_char(start, end));
        return Ok(ValueMatch::F64(text));
    }
    let text = String::from_str(s.substring_char(start, end));
    match compile_pattern_error(text.as_str()) {
        Option::None => Ok(ValueMatch::Pat(text)),
        Option::Some(message) => Err(
            IgnoredDirective::InvalidRegex { message, span: SourceRange { start, end } },
        ),
    }
}

} // verus!

// === field lists ===

verus! {

use crate::legacy::matcher::{FieldMatch, FieldMatchV};
use crate::legacy::directive::{DynamicDirective, DynDirectiveV};

/// A field item starting exactly at `p`: a word character opens a name
/// of word or dot characters; the item must reach the region's end, or
/// continue with `=` and a non-empty value that does.
pub open spec fn field_at(s: Seq<char>, p: int, fe: int) -> Option<(int, bool)> {
    if p < 0 || p >= fe || !is_word_char(s[p]) {
        None
    } else {
        let ne = field_run_end(s, p, fe);
        if ne == fe {
            Some((ne, false))
        } else if s[ne] == '=' && ne + 1 < fe {
            Some((ne, true))
        } else {
            None
        }
    }
}

/// The first position in `[p, fe)` where a field item starts.
pub open spec fn find_field(s: Seq<char>, p: int, fe: int) -> Option<(int, int, bool)>
    decreases fe - p,
{
    if p < 0 || p >= fe {
        None
    } else {
        match field_at(s, p, fe) {
            Option::Some((ne, hv)) => Some((p, ne, hv)),
            Option::None => find_field(s, p + 1, fe),
        }
    }
}

/// The field predicates of a field region: the first field item found,
/// its value classified; a value that fails to classify rejects the
/// whole clause.
pub open spec fn spec_parse_fields(s: Seq<char>, fs: int, fe: int) -> Result<
    Seq<FieldMatchV>,
    IgnoredDirectiveV,
> {
    match find_field(s, fs, fe) {
        Option::None => Ok(Seq::empty()),
        Option::Some((p, ne, false)) => Ok(
            seq![FieldMatchV { name: s.subrange(p, ne), value: None }],
        ),
        Option::Some((p, ne, true)) => match classify_value(s.subrange(ne + 1, fe)) {
            Option::Some(v) => Ok(seq![FieldMatchV { name: s.subrange(p, ne), value: Some(v) }]),
            Option::None => Err(
                IgnoredDirectiveV::InvalidRegex {
                    message: pat_error_text(s.subrange(ne + 1, fe)),
                    span: SourceRange { start: (ne + 1) as usize, end: fe as usize },
                },
            ),
        },
    }
}

/// Find the first field item in `[p, fe)`.
fn find_field_exec(s: &str, p: usize, fe: usize) -> (r: Option<(usize, usize, bool)>)
    requires
        p <= fe <= s@.len(),
    ensures
        match r {
            Option::Some((q, ne, hv)) => find_field(s@, p as int, fe as int) == Some(
                (q as int, ne as int, hv),
            ) && p <= q <= ne <= fe && (hv ==> ne + 1 < fe),
            Option::None => find_field(s@, p as int, fe as int) is None,
        },
    decreases fe - p,
{
    if p >= fe {
        return None;
    }
    let c = s.get_char(p);
    if word_char(c) {
        let ne = scan_field(s, p, fe);
        if ne == fe {
            return Some((p, ne, false));
        }
        let d = s.get_char(ne);
        if d == '=' && ne + 1 < fe {
            return Some((p, ne, true));
        }
    }
    find_field_exec(s, p + 1, fe)
}

/// Parse the field region `[fs, fe)`.
pub(crate) fn parse_fields_range(s: &str, fs: usize, fe: usize) -> (r: Result<
    Vec<FieldMatch>,
    IgnoredDirective,
>)
    requires
        fs <= fe <= s@.len(),
    ensures
        match r {
            Result::Ok(v) => spec_parse_fields(s@, fs as int, fe as int) == Result::<
                Seq<FieldMatchV>,
                IgnoredDirectiveV,
            >::Ok(crate::legacy::matcher::fields_v(v@)),
            Result::Err(e) => spec_parse_fields(s@, fs as int, fe as int) == Result::<
                Seq<FieldMatchV>,
                IgnoredDirectiveV,
            >::Err(e@),
        },
{
    match find_field_exec(s, fs, fe) {
        Option::None => {
            let v: Vec<FieldMatch> = Vec::new();
            proof {
                assert(crate::legacy::matcher::fields_v(v@) =~= Seq::<FieldMatchV>::empty());
            }
            Ok(v)
        },
        Option::Some((p, ne, hv)) => {
            let name = String::from_str(s.substring_char(p, ne));
            if !hv {
                let mut v: Vec<FieldMatch> = Vec::new();
                v.push(FieldMatch { name, value: None });
                proof {
                    assert(crate::legacy::matcher::fields_v(v@) =~= seq![
                        FieldMatchV { name: s@.subrange(p as int, ne as int), value: None },
                    ]);
                }
                Ok(v)
            } else {
                match parse_value_range(s, ne + 1, fe) {
                    Result::Ok(vm) => {
                        let mut v: Vec<FieldMatch> = Vec::new();
                        v.push(FieldMatch { name, value: Some(vm) });
                        proof {
                            assert(crate::legacy::matcher::fields_v(v@) =~= seq![
                                FieldMatchV {
                                    name: s@.subrange(p as int, ne as int),
                                    value: Some(v@[0].value->Some_0@),
                                },
                            ]);
                        }
                        Ok(v)
                    },
                    Result::Err(e) => Err(e),
                }
            }
        },
    }
}

} // verus!

// === clauses ===

verus! {

use crate::order::opt_str_view;

/// The parser's state between the two target/span passes.
#[verifier::ext_equal]
pub struct ParseStateV {
    pub pos: int,
    pub target: Option<Seq<char>>,
    pub span: Option<Seq<char>>,
    pub fields: Seq<FieldMatchV>,
}

/// One pass over the clause: consume a target (a run of target
/// characters), or a span part (`[`s, an optional name, an optional
/// braced field list, up to the closing `]`); on the first pass a
/// clause that offers neither is an invalid target. A second span
/// part replaces the first.
pub open spec fn spec_step(s: Seq<char>, end: int, st: ParseStateV, first: bool) -> Result<
    ParseStateV,
    IgnoredDirectiveV,
> {
    let p = st.pos;
    if p < end && is_target_char(s[p]) {
        Ok(
            ParseStateV {
                pos: target_run_end(s, p, end),
                target: Some(s.subrange(p, target_run_end(s, p, end))),
                span: st.span,
                fields: st.fields,
            },
        )
    } else if p < end && s[p] == '[' {
        let q = open_run_end(s, p, end);
        match find_char(s, q, end, ']') {
            Option::None => Err(
                IgnoredDirectiveV::UnclosedSpan {
                    open: SourceRange { start: (q - 1) as usize, end: q as usize },
                    close: SourceRange { start: end as usize, end: end as usize },
                },
            ),
            Option::Some(cb) => {
                let ne = name_run_end(s, q, cb);
                let name = if ne > q {
                    Some(s.subrange(q, ne))
                } else {
                    None
                };
                let fields_r = if ne < cb && s[ne] == '{' {
                    match find_char(s, ne + 1, cb, '}') {
                        Option::Some(fe) => spec_parse_fields(s, ne + 1, fe),
                        Option::None => Ok(Seq::empty()),
                    }
                } else {
                    Ok(Seq::empty())
                };
                match fields_r {
                    Result::Ok(fs) => Ok(
                        ParseStateV { pos: cb + 1, target: st.target, span: name, fields: fs },
                    ),
                    Result::Err(e) => Err(e),
                }
            },
        }
    } else if first {
        Err(
            IgnoredDirectiveV::InvalidTarget {
                span: SourceRange { start: p as usize, end: end as usize },
            },
        )
    } else {
        Ok(st)
    }
}

/// The directive a finished state makes, at a level.
pub open spec fn mk_directive(st: ParseStateV, level: Level) -> DynDirectiveV {
    DynDirectiveV { span: st.span, fields: st.fields, target: st.target, level }
}

/// What one comma-separated clause `[start, end)` of `s` means: a bare
/// level; or up to one target and one span part in either order,
/// followed by nothing (level `Trace`), a bare `=` (level `Trace`), or
/// `=` and a level.
pub open spec fn spec_parse_clause(s: Seq<char>, start: int, end: int) -> Result<
    DynDirectiveV,
    IgnoredDirectiveV,
> {
    if spec_parse_level(s.subrange(start, end)) is Some {
        Ok(
            DynDirectiveV {
                span: None,
                fields: Seq::empty(),
                target: None,
                level: spec_parse_level(s.subrange(start, end))->Some_0,
            },
        )
    } else {
        let st0 = ParseStateV { pos: start, target: None, span: None, fields: Seq::empty() };
        match spec_step(s, end, st0, true) {
            Result::Err(e) => Err(e),
            Result::Ok(st1) => {
                let st2r = if !(st1.pos < end && s[st1.pos] == '=') {
                    spec_step(s, end, st1, false)
                } else {
                    Ok(st1)
                };
                match st2r {
                    Result::Err(e) => Err(e),
                    Result::Ok(st2) => {
                        let p = st2.pos;
                        if p == end {
                            Ok(mk_directive(st2, Level::Trace))
                        } else if s[p] == '=' && p + 1 == end {
                            Ok(mk_directive(st2, Level::Trace))
                        } else if s[p] == '=' {
                            match spec_parse_level(s.subrange(p + 1, end)) {
                                Option::Some(l) => Ok(mk_directive(st2, l)),
                                Option::None => Err(
                                    IgnoredDirectiveV::InvalidLevel {
                                        span: SourceRange {
                                            start: (p + 1) as usize,
                                            end: end as usize,
                                        },
                                    },
                                ),
                            }
                        } else {
                            Err(
                                IgnoredDirectiveV::InvalidTrailing {
                                    span: SourceRange { start: p as usize, end: end as usize },
                                },
                            )
                        }
                    },
                }
            },
        }
    }
}

/// The parser's state between the two passes, executably.
pub struct ClauseState {
    pub pos: usize,
    pub target: Option<String>,
    pub span: Option<String>,
    pub fields: Vec<FieldMatch>,
}

impl View for ClauseState {
    type V = ParseStateV;

    open spec fn view(&self) -> ParseStateV {
        ParseStateV {
            pos: self.pos as int,
            target: opt_str_view(self.target),
            span: opt_str_view(self.span),
            fields: crate::legacy::matcher::fields_v(self.fields@),
        }
    }
}

/// One pass over the clause.
fn step_exec(s: &str, end: usize, st: ClauseState, first: bool) -> (r: Result<
    ClauseState,
    IgnoredDirective,
>)
    requires
        st@.pos <= end <= s@.len(),
    ensures
        match r {
            Result::Ok(st2) => spec_step(s@, end as int, st@, first) == Result::<
                ParseStateV,
                IgnoredDirectiveV,
            >::Ok(st2@) && st2@.pos <= end,
            Result::Err(e) => spec_step(s@, end as int, st@, first) == Result::<
                ParseStateV,
                IgnoredDirectiveV,
            >::Err(e@),
        },
{
    let p = st.pos;
    if p < end {
        let c = s.get_char(p);
        if target_char(c) {
            let e = scan_target(s, p, end);
            let target = String::from_str(s.substring_char(p, e));
            return Ok(ClauseState { pos: e, target: Some(target), span: st.span, fields: st.fields });
        }
        if c == '[' {
            let q = scan_opens(s, p, end);
            match scan_find(s, q, end, ']') {
                Option::None => {
                    proof {
                        assert(open_run_end(s@, p as int, end as int) > p) by {
                            assert(s@[p as int] == '[');
                            assert(open_run_end(s@, p as int, end as int) == open_run_end(
                                s@,
                                p + 1,
                                end as int,
                            ));
                            lemma_open_run_end(s@, p + 1, end as int);
                        }
                    }
                    return Err(
                        IgnoredDirective::UnclosedSpan {
                            open: SourceRange { start: q - 1, end: q },
                            close: SourceRange { start: end, end },
                        },
                    );
                },
                Option::Some(cb) => {
                    let ne = scan_name(s, q, cb);
                    let name = if ne > q {
                        Some(String::from_str(s.substring_char(q, ne)))
                    } else {
                        None
                    };
                    let mut fields: Vec<FieldMatch> = Vec::new();
                    if ne < cb && s.get_char(ne) == '{' {
                        match scan_find(s, ne + 1, cb, '}') {
                            Option::Some(fe) => {
                                match parse_fields_range(s, ne + 1, fe) {
                                    Result::Ok(fs) => {
                                        fields = fs;
                                    },
                                    Result::Err(e) => {
                                        return Err(e);
                                    },
                                }
                            },
                            Option::None => {},
                        }
                    }
                    proof {
                        if fields@.len() == 0 {
                            assert(crate::legacy::matcher::fields_v(fields@)
                                =~= Seq::<FieldMatchV>::empty());
                        }
                    }
                    return Ok(
                        ClauseState { pos: cb + 1, target: st.target, span: name, fields },
                    );
                },
            }
        }
    }
    if first {
        Err(IgnoredDirective::InvalidTarget { span: SourceRange { start: p, end } })
    } else {
        Ok(st)
    }
}

/// Parse one comma-separated clause `[start, end)` of `s`.
pub(crate) fn parse_clause(s: &str, start: usize, end: usize) -> (r: Result<
    DynamicDirective,
    IgnoredDirective,
>)
    requires
        start <= end <= s@.len(),
    ensures
        match r {
            Result::Ok(d) => spec_parse_clause(s@, start as int, end as int) == Result::<
                DynDirectiveV,
                IgnoredDirectiveV,
            >::Ok(d@),
            Result::Err(e) => spec_parse_clause(s@, start as int, end as int) == Result::<
                DynDirectiveV,
                IgnoredDirectiveV,
            >::Err(e@),
        },
{
    if let Option::Some(level) = parse_level_range(s, start, end) {
        let d = DynamicDirective { span: None, fields: Vec::new(), target: None, level };
        proof {
            assert(d@ =~= spec_parse_clause(s@, start as int, end as int)->Ok_0);
        }
        return Ok(d);
    }
    let st0 = ClauseState { pos: start, target: None, span: None, fields: Vec::new() };
    proof {
        assert(st0@ =~= ParseStateV {
            pos: start as int,
            target: None,
            span: None,
            fields: Seq::empty(),
        });
    }
    let st1 = match step_exec(s, end, st0, true) {
        Result::Ok(st) => st,
        Result::Err(e) => {
            return Err(e);
        },
    };
    let needs_second = !(st1.pos < end && s.get_char(st1.pos) == '=');
    let st2 = if needs_second {
        match step_exec(s, end, st1, false) {
            Result::Ok(st) => st,
            Result::Err(e) => {
                return Err(e);
            },
        }
    } else {
        st1
    };
    let p = st2.pos;
    if p == end {
        let d = DynamicDirective {
            span: st2.span,
            fields: st2.fields,
            target: st2.target,
            level: Level::Trace,
        };
        proof {
            assert(d@ =~= mk_directive(st2@, Level::Trace));
        }
        return Ok(d);
    }
    let c = s.get_char(p);
    if c == '=' && p + 1 == end {
        let d = DynamicDirective {
            span: st2.span,
            fields: st2.fields,
            target: st2.target,
            level: Level::Trace,
        };
        proof {
            assert(d@ =~= mk_directive(st2@, Level::Trace));
        }
        return Ok(d);
    }
    if c == '=' {
        match parse_level_range(s, p + 1, end) {
            Option::Some(level) => {
                let d = DynamicDirective {
                    span: st2.span,
                    fields: st2.fields,
                    target: st2.target,
                    level,
                };
                proof {
                    assert(d@ =~= mk_directive(st2@, level));
                }
                Ok(d)
            },
            Option::None => Err(
                IgnoredDirective::InvalidLevel { span: SourceRange { start: p + 1, end } },
            ),
        }
    } else {
        Err(IgnoredDirective::InvalidTrailing { span: SourceRange { start: p, end } })
    }
}

} // verus!

// === whole specifications ===

verus! {

use crate::diagnostics::{
    disabled_v, igs_v, DisabledDirective, DisabledDirectiveV, DisabledDirectives, Diagnostics,
    StaticMaxAdvice, StaticMaxAdviceV,
};
use crate::legacy::directive::{
    add_dyn, add_static, display_dyn, is_dynamic, is_static_convertible,
    to_static, wf_dynamics, wf_statics, Dynamics, DynamicsV, Statics, StaticsV, StaticDirective,
    StaticDirectiveV,
};
use crate::legacy::Filter;

/// Where the clause that starts at `start` ends: at the next comma, or
/// at the end of the input.
pub open spec fn clause_end(s: Seq<char>, start: int) -> int {
    match find_char(s, start, s.len() as int, ',') {
        Option::Some(p) => p,
        Option::None => s.len() as int,
    }
}

/// Every clause of the input, parsed, in order.
pub open spec fn spec_results(s: Seq<char>, start: int) -> Seq<
    Result<DynDirectiveV, IgnoredDirectiveV>,
>
    decreases s.len() - start,
{
    if !(0 <= start <= s.len()) {
        Seq::empty()
    } else {
        let ce = clause_end(s, start);
        let first = spec_parse_clause(s, start, ce);
        if start <= ce < s.len() {
            seq![first] + spec_results(s, ce + 1)
        } else {
            seq![first]
        }
    }
}

/// The directives among the clause results, in order.
pub open spec fn result_oks(rs: Seq<Result<DynDirectiveV, IgnoredDirectiveV>>) -> Seq<
    DynDirectiveV,
>
    decreases rs.len(),
{
    if rs.len() == 0 {
        Seq::empty()
    } else {
        match rs[0] {
            Result::Ok(d) => seq![d] + result_oks(rs.drop_first()),
            Result::Err(_) => result_oks(rs.drop_first()),
        }
    }
}

/// The reports among the clause results, in order.
pub open spec fn result_errs(rs: Seq<Result<DynDirectiveV, IgnoredDirectiveV>>) -> Seq<
    IgnoredDirectiveV,
>
    decreases rs.len(),
{
    if rs.len() == 0 {
        Seq::empty()
    } else {
        match rs[0] {
            Result::Ok(_) => result_errs(rs.drop_first()),
            Result::Err(e) => seq![e] + result_errs(rs.drop_first()),
        }
    }
}

/// The directives a specification text yields.
pub open spec fn spec_directives(s: Seq<char>) -> Seq<DynDirectiveV> {
    result_oks(spec_results(s, 0))
}

/// The reports a specification text yields.
pub open spec fn spec_ignored(s: Seq<char>) -> Seq<IgnoredDirectiveV> {
    result_errs(spec_results(s, 0))
}

/// Parse every clause from `start` on, appending directives and reports.
fn parse_all_from(
    s: &str,
    start: usize,
    dirs: &mut Vec<DynamicDirective>,
    igs: &mut Vec<IgnoredDirective>,
)
    requires
        start <= s@.len(),
    ensures
        crate::legacy::directive::dyns_v(final(dirs)@) == crate::legacy::directive::dyns_v(
            old(dirs)@,
        ) + result_oks(spec_results(s@, start as int)),
        igs_v(final(igs)@) == igs_v(old(igs)@) + result_errs(spec_results(s@, start as int)),
    decreases s@.len() - start,
{
    broadcast use vstd::seq::Seq::lemma_push_map_commute;

    let len = s.unicode_len();
    let ce = match scan_find(s, start, len, ',') {
        Option::Some(p) => p,
        Option::None => len,
    };
    let ghost rs = spec_results(s@, start as int);
    proof {
        assert(clause_end(s@, start as int) == ce as int);
        assert(rs[0] == spec_parse_clause(s@, start as int, ce as int));
    }
    let ghost d0 = crate::legacy::directive::dyns_v(dirs@);
    let ghost i0 = igs_v(igs@);
    match parse_clause(s, start, ce) {
        Result::Ok(d) => {
            let ghost dv = d@;
            dirs.push(d);
            proof {
                assert(crate::legacy::directive::dyns_v(dirs@) =~= d0 + seq![dv]);
                assert(igs_v(igs@) == i0);
            }
        },
        Result::Err(e) => {
            let ghost ev = e@;
            igs.push(e);
            proof {
                assert(igs_v(igs@) =~= i0 + seq![ev]);
                assert(crate::legacy::directive::dyns_v(dirs@) == d0);
            }
        },
    }
    let ghost d1 = crate::legacy::directive::dyns_v(dirs@);
    let ghost i1 = igs_v(igs@);
    if ce < len {
        parse_all_from(s, ce + 1, dirs, igs);
        proof {
            let rest = spec_results(s@, ce + 1);
            assert(rs == seq![rs[0]] + rest);
            assert(rs.drop_first() =~= rest);
            assert(crate::legacy::directive::dyns_v(dirs@) == d1 + result_oks(rest));
            assert(igs_v(igs@) == i1 + result_errs(rest));
            match rs[0] {
                Result::Ok(dv) => {
                    assert(result_oks(rs) == seq![dv] + result_oks(rest));
                    assert(result_errs(rs) == result_errs(rest));
                    assert(crate::legacy::directive::dyns_v(dirs@) =~= d0 + result_oks(rs));
                    assert(igs_v(igs@) =~= i0 + result_errs(rs));
                },
                Result::Err(ev) => {
                    assert(result_errs(rs) == seq![ev] + result_errs(rest));
                    assert(result_oks(rs) == result_oks(rest));
                    assert(crate::legacy::directive::dyns_v(dirs@) =~= d0 + result_oks(rs));
                    assert(igs_v(igs@) =~= i0 + result_errs(rs));
                },
            }
        }
    } else {
        proof {
            assert(rs =~= seq![rs[0]]);
            assert(rs.drop_first() =~= Seq::<Result<DynDirectiveV, IgnoredDirectiveV>>::empty());
            assert(result_oks(Seq::<Result<DynDirectiveV, IgnoredDirectiveV>>::empty())
                =~= Seq::<DynDirectiveV>::empty());
            assert(result_errs(Seq::<Result<DynDirectiveV, IgnoredDirectiveV>>::empty())
                =~= Seq::<IgnoredDirectiveV>::empty());
            assert(rs[0] == spec_parse_clause(s@, start as int, ce as int));
            match rs[0] {
                Result::Ok(dv) => {
                    assert(result_oks(rs) =~= seq![dv]);
                    assert(result_errs(rs) =~= Seq::<IgnoredDirectiveV>::empty());
                    assert(crate::legacy::directive::dyns_v(dirs@) =~= d0 + result_oks(rs));
                    assert(igs_v(igs@) =~= i0 + result_errs(rs));
                },
                Result::Err(ev) => {
                    assert(result_errs(rs) =~= seq![ev]);
                    assert(result_oks(rs) =~= Seq::<DynDirectiveV>::empty());
                    assert(crate::legacy::directive::dyns_v(dirs@) =~= d0 + result_oks(rs));
                    assert(igs_v(igs@) =~= i0 + result_errs(rs));
                },
            }
        }
    }
}

// === assembling a filter ===

/// One step of table building: a dynamic directive joins the dynamic
/// set; a static-convertible one contributes its projection to the
/// static set (a directive with presence-only fields does both).
pub open spec fn step_tables(t: (DynamicsV, StaticsV), d: DynDirectiveV) -> (DynamicsV, StaticsV) {
    (
        if is_dynamic(d) {
            add_dyn(t.0, d)
        } else {
            t.0
        },
        if is_static_convertible(d) {
            add_static(t.1, to_static(d))
        } else {
            t.1
        },
    )
}

pub open spec fn fold_tables(t: (DynamicsV, StaticsV), ds: Seq<DynDirectiveV>) -> (
    DynamicsV,
    StaticsV,
)
    decreases ds.len(),
{
    if ds.len() == 0 {
        t
    } else {
        fold_tables(step_tables(t, ds[0]), ds.drop_first())
    }
}

pub open spec fn empty_dynamics() -> DynamicsV {
    DynamicsV { directives: Seq::empty(), level: Level::Off }
}

pub open spec fn empty_statics() -> StaticsV {
    StaticsV { directives: Seq::empty(), level: Level::Off }
}

/// The baseline rule injected when nothing at all was retained.
pub open spec fn default_static() -> StaticDirectiveV {
    StaticDirectiveV { target: None, fields: Seq::empty(), level: Level::Error }
}

/// The two directive sets a directive list builds: the fold, and, when
/// it retains nothing at all, a baseline `error`-level static rule so
/// plain events keep a filter.
pub open spec fn spec_tables(ds: Seq<DynDirectiveV>) -> (DynamicsV, StaticsV) {
    let t = fold_tables((empty_dynamics(), empty_statics()), ds);
    if t.0.directives.len() == 0 && t.1.directives.len() == 0 {
        (t.0, add_static(empty_statics(), default_static()))
    } else {
        t
    }
}

/// Folding keeps both sets well formed.
pub proof fn lemma_fold_tables_wf(t: (DynamicsV, StaticsV), ds: Seq<DynDirectiveV>)
    requires
        wf_dynamics(t.0),
        wf_statics(t.1),
    ensures
        wf_dynamics(fold_tables(t, ds).0),
        wf_statics(fold_tables(t, ds).1),
    decreases ds.len(),
{
    if ds.len() > 0 {
        crate::legacy::directive::lemma_add_dyn_wf(t.0, ds[0]);
        crate::legacy::directive::lemma_add_static_wf(t.1, to_static(ds[0]));
        lemma_fold_tables_wf(step_tables(t, ds[0]), ds.drop_first());
    }
}

/// The description of what a directive applies to.
pub open spec fn target_desc(t: Option<Seq<char>>) -> Seq<char> {
    match t {
        Option::None => seq!['a', 'l', 'l', ' ', 't', 'a', 'r', 'g', 'e', 't', 's'],
        Option::Some(name) => seq!['t', 'h', 'e', ' ', '`'] + name + seq![
            '`',
            ' ',
            't',
            'a',
            'r',
            'g',
            'e',
            't',
        ],
    }
}

/// The directives whose level a ceiling makes unreachable, as advisory
/// records: canonical text, requested level, and what they applied to.
pub open spec fn spec_disabled_list(ds: Seq<DynDirectiveV>, ceiling: Level) -> Seq<
    DisabledDirectiveV,
>
    decreases ds.len(),
{
    if ds.len() == 0 {
        Seq::empty()
    } else {
        let rest = spec_disabled_list(ds.drop_first(), ceiling);
        if ds[0].level.rank() > ceiling.rank() {
            seq![
                DisabledDirectiveV {
                    directive: display_dyn(ds[0]),
                    level: ds[0].level,
                    target: target_desc(ds[0].target),
                },
            ] + rest
        } else {
            rest
        }
    }
}

/// A non-empty advisory list means the ceiling is below `Trace`.
pub proof fn lemma_disabled_ceiling_low(ds: Seq<DynDirectiveV>, ceiling: Level)
    requires
        spec_disabled_list(ds, ceiling).len() > 0,
    ensures
        ceiling.rank() < 5,
    decreases ds.len(),
{
    if ds.len() > 0 {
        if ds[0].level.rank() > ceiling.rank() {
        } else {
            lemma_disabled_ceiling_low(ds.drop_first(), ceiling);
        }
    }
}

/// The feature name that pins the ceiling, and the next level up.
pub open spec fn spec_feature_text(ceiling: Level) -> Seq<char> {
    match ceiling {
        Level::Off => seq!['m', 'a', 'x', '_', 'l', 'e', 'v', 'e', 'l', '_', 'o', 'f', 'f'],
        Level::Error => seq![
            'm', 'a', 'x', '_', 'l', 'e', 'v', 'e', 'l', '_', 'e', 'r', 'r', 'o', 'r',
        ],
        Level::Warn => seq!['m', 'a', 'x', '_', 'l', 'e', 'v', 'e', 'l', '_', 'w', 'a', 'r', 'n'],
        Level::Info => seq!['m', 'a', 'x', '_', 'l', 'e', 'v', 'e', 'l', '_', 'i', 'n', 'f', 'o'],
        Level::Debug => seq![
            'm', 'a', 'x', '_', 'l', 'e', 'v', 'e', 'l', '_', 'd', 'e', 'b', 'u', 'g',
        ],
        Level::Trace => Seq::empty(),
    }
}

/// The level a build would regain by removing the ceiling feature.
pub open spec fn spec_earlier_level(ceiling: Level) -> Option<Level> {
    match ceiling {
        Level::Off => None,
        Level::Error => Some(Level::Warn),
        Level::Warn => Some(Level::Info),
        Level::Info => Some(Level::Debug),
        Level::Debug => Some(Level::Trace),
        Level::Trace => None,
    }
}

} // verus!

// === building the filter ===

verus! {

/// The feature that pins the ceiling, and the level above it.
fn ceiling_feature(ceiling: Level) -> (r: (String, Option<Level>))
    requires
        ceiling.rank() < 5,
    ensures
        r.0@ == spec_feature_text(ceiling),
        r.1 == spec_earlier_level(ceiling),
{
    match ceiling {
        Level::Off => {
            let f = String::from_str("max_level_off");
            proof {
                reveal_strlit("max_level_off");
                assert(f@ =~= spec_feature_text(ceiling));
            }
            (f, None)
        },
        Level::Error => {
            let f = String::from_str("max_level_error");
            proof {
                reveal_strlit("max_level_error");
                assert(f@ =~= spec_feature_text(ceiling));
            }
            (f, Some(Level::Warn))
        },
        Level::Warn => {
            let f = String::from_str("max_level_warn");
            proof {
                reveal_strlit("max_level_warn");
                assert(f@ =~= spec_feature_text(ceiling));
            }
            (f, Some(Level::Info))
        },
        Level::Info => {
            let f = String::from_str("max_level_info");
            proof {
                reveal_strlit("max_level_info");
                assert(f@ =~= spec_feature_text(ceiling));
            }
            (f, Some(Level::Debug))
        },
        Level::Debug => {
            let f = String::from_str("max_level_debug");
            proof {
                reveal_strlit("max_level_debug");
                assert(f@ =~= spec_feature_text(ceiling));
            }
            (f, Some(Level::Trace))
        },
        Level::Trace => {
            proof {
                assert(false);
            }
            (String::new(), None)
        },
    }
}

/// The description of what a directive applies to.
fn describe_target(t: &Option<String>) -> (r: String)
    ensures
        r@ == target_desc(crate::order::opt_str_view(*t)),
{
    match t {
        Option::None => {
            let r = String::from_str("all targets");
            proof {
                reveal_strlit("all targets");
                assert(r@ =~= target_desc(None));
            }
            r
        },
        Option::Some(name) => {
            let mut r = String::from_str("the `");
            r.append(name.as_str());
            r.append("` target");
            proof {
                reveal_strlit("the `");
                reveal_strlit("` target");
                assert(r@ =~= target_desc(Some(name@)));
            }
            r
        },
    }
}

/// The advisory records for directives beyond the ceiling.
fn disabled_records(directives: &Vec<DynamicDirective>, ceiling: Level) -> (r: Vec<
    DisabledDirective,
>)
    ensures
        disabled_v(r@) == spec_disabled_list(crate::legacy::directive::dyns_v(directives@), ceiling),
{
    let ghost ds = crate::legacy::directive::dyns_v(directives@);
    let mut out: Vec<DisabledDirective> = Vec::new();
    let n = directives.len();
    let mut i: usize = 0;
    proof {
        assert(ds.skip(0) =~= ds);
    }
    while i < n
        invariant
            i <= n,
            n == directives.len(),
            ds == crate::legacy::directive::dyns_v(directives@),
            disabled_v(out@) + spec_disabled_list(ds.skip(i as int), ceiling) =~= spec_disabled_list(
                ds,
                ceiling,
            ),
        decreases n - i,
    {
        proof {
            assert(ds[i as int] == directives@[i as int]@);
            assert(ds.skip(i as int)[0] == ds[i as int]);
            assert(ds.skip(i as int).drop_first() =~= ds.skip(i + 1));
        }
        if directives[i].level.gt(ceiling) {
            let mut text = String::new();
            directives[i].push_display(&mut text);
            let target = describe_target(&directives[i].target);
            let level = directives[i].level;
            out.push(DisabledDirective { directive: text, level, target });
            proof {
                assert(disabled_v(out@) + spec_disabled_list(ds.skip(i + 1), ceiling)
                    =~= spec_disabled_list(ds, ceiling));
            }
        }
        i = i + 1;
    }
    proof {
        assert(ds.skip(n as int) =~= Seq::<DynDirectiveV>::empty());
        assert(disabled_v(out@) =~= spec_disabled_list(ds, ceiling));
    }
    out
}

impl Filter {
    /// Build a filter from parsed directives, under a compiled-in
    /// verbosity ceiling: partition into the two sets; when nothing at
    /// all was retained, keep a baseline `error` static rule; report
    /// directives the ceiling makes moot.
    pub fn from_directives(directives: Vec<DynamicDirective>, ceiling: Level) -> (r: (
        Filter,
        Option<DisabledDirectives>,
    ))
        ensures
            ({
                let ds = crate::legacy::directive::dyns_v(directives@);
                &&& r.0.dynamics@ == spec_tables(ds).0
                &&& r.0.statics@ == spec_tables(ds).1
                &&& crate::legacy::wf_filter(&r.0)
                &&& (match r.1 {
                    Option::Some(dd) => spec_disabled_list(ds, ceiling).len() > 0 && disabled_v(
                        dd.directives@,
                    ) == spec_disabled_list(ds, ceiling) && dd.static_max is Some
                        && dd.static_max->Some_0@ == (StaticMaxAdviceV {
                        static_level: ceiling,
                        earlier_level: spec_earlier_level(ceiling),
                        feature: spec_feature_text(ceiling),
                    }),
                    Option::None => spec_disabled_list(ds, ceiling).len() == 0,
                })
            }),
    {
        let ghost ds = crate::legacy::directive::dyns_v(directives@);
        let disabled_list = disabled_records(&directives, ceiling);
        let advice = if disabled_list.len() > 0 {
            proof {
                assert(disabled_v(disabled_list@).len() > 0);
                lemma_disabled_ceiling_low(ds, ceiling);
            }
            let (feature, earlier_level) = ceiling_feature(ceiling);
            Some(
                DisabledDirectives {
                    directives: disabled_list,
                    static_max: Some(
                        StaticMaxAdvice { static_level: ceiling, earlier_level, feature },
                    ),
                },
            )
        } else {
            proof {
                assert(spec_disabled_list(ds, ceiling).len() == 0);
            }
            None
        };
        let mut dynamics = Dynamics::empty();
        let mut statics = Statics::empty();
        proof {
            assert(dynamics@ =~= empty_dynamics());
            assert(statics@ =~= empty_statics());
            assert(ds.skip(0) =~= ds);
        }
        let mut rest = directives;
        let ghost total = ds;
        let ghost mut i: int = 0;
        while rest.len() > 0
            invariant
                0 <= i <= total.len(),
                crate::legacy::directive::dyns_v(rest@) =~= total.skip(i),
                wf_dynamics(dynamics@),
                wf_statics(statics@),
                fold_tables((dynamics@, statics@), total.skip(i)) == fold_tables(
                    (empty_dynamics(), empty_statics()),
                    total,
                ),
            decreases rest.len(),
        {
            let ghost prev = rest@;
            proof {
                assert(crate::legacy::directive::dyns_v(prev).len() == prev.len());
                assert(total.skip(i).len() > 0);
                assert(i < total.len());
            }
            let d = rest.remove(0);
            proof {
                assert(crate::legacy::directive::dyns_v(prev)[0] == prev[0]@);
                assert(d@ == total.skip(i)[0]);
                assert(total.skip(i).drop_first() =~= total.skip(i + 1));
                assert(rest@ =~= prev.drop_first());
                assert(crate::legacy::directive::dyns_v(rest@) =~= total.skip(i + 1)) by {
                    assert(forall|k: int|
                        0 <= k < rest@.len() ==> crate::legacy::directive::dyns_v(rest@)[k]
                            == rest@[k]@ && crate::legacy::directive::dyns_v(prev)[k + 1]
                            == prev[k + 1]@);
                }
            }
            let is_dyn = d.is_dynamic();
            let is_stat = d.is_static();
            if is_stat {
                statics.add(d.to_static());
            }
            if is_dyn {
                dynamics.add(d);
            }
            proof {
                i = i + 1;
            }
        }
        proof {
            assert(total.skip(total.len() as int) =~= Seq::<DynDirectiveV>::empty());
        }
        if dynamics.directives.len() == 0 && statics.directives.len() == 0 {
            proof {
                lemma_fold_statics_keeps(
                    (empty_dynamics(), empty_statics()),
                    total,
                );
                assert(statics@ =~= empty_statics());
            }
            let baseline = StaticDirective { target: None, fields: Vec::new(), level: Level::Error };
            proof {
                assert(crate::legacy::directive::names_v(Seq::<String>::empty())
                    =~= Seq::<Seq<char>>::empty());
                assert(baseline@ =~= default_static());
            }
            statics.add(baseline);
            proof {
                assert(statics@ == spec_tables(total).1);
            }
        }
        (Filter { statics, dynamics }, advice)
    }
}

/// Insertion never shrinks a set.
proof fn lemma_static_insert_len(s: Seq<StaticDirectiveV>, d: StaticDirectiveV)
    ensures
        crate::legacy::directive::static_insert(s, d).len() >= s.len(),
    decreases s.len(),
{
    if s.len() > 0 {
        match crate::legacy::directive::cmp_static(d, s[0]) {
            crate::order::Ord3::Less => {
                lemma_static_insert_len(s.drop_first(), d);
            },
            _ => {},
        }
    }
}

/// A fold whose static side comes out empty never touched it.
proof fn lemma_fold_statics_keeps(t: (DynamicsV, StaticsV), ds: Seq<DynDirectiveV>)
    ensures
        fold_tables(t, ds).1.directives.len() == 0 ==> fold_tables(t, ds).1 == t.1,
    decreases ds.len(),
{
    if ds.len() > 0 {
        let t2 = step_tables(t, ds[0]);
        lemma_fold_statics_keeps(t2, ds.drop_first());
        if is_static_convertible(ds[0]) {
            lemma_static_insert_len(t.1.directives, to_static(ds[0]));
        }
    }
}

} // verus!

// === the public entry points ===

verus! {

/// Relies on tracing's `STATIC_MAX_LEVEL`: the most verbose level the
/// host build can ever emit. A fact of the build; nothing more is
/// promised of the value.
#[verifier::external_body]
fn static_max_level() -> Level {
    if tracing::level_filters::STATIC_MAX_LEVEL == tracing::level_filters::LevelFilter::OFF {
        Level::Off
    } else if tracing::level_filters::STATIC_MAX_LEVEL == tracing::level_filters::LevelFilter::ERROR {
        Level::Error
    } else if tracing::level_filters::STATIC_MAX_LEVEL == tracing::level_filters::LevelFilter::WARN {
        Level::Warn
    } else if tracing::level_filters::STATIC_MAX_LEVEL == tracing::level_filters::LevelFilter::INFO {
        Level::Info
    } else if tracing::level_filters::STATIC_MAX_LEVEL == tracing::level_filters::LevelFilter::DEBUG {
        Level::Debug
    } else {
        Level::Trace
    }
}

impl Filter {
    /// Parse a filter from its text, under an explicit compiled-in
    /// verbosity ceiling.
    ///
    /// The filter's sets are exactly what the retained clauses build;
    /// the report, present exactly when something was ignored or made
    /// moot, carries every ignored clause with its location, and the
    /// advisory for each directive beyond the ceiling.
    pub fn parse_with_ceiling(text: &str, ceiling: Level) -> (r: (Filter, Option<Diagnostics>))
        ensures
            r.0.dynamics@ == spec_tables(spec_directives(text@)).0,
            r.0.statics@ == spec_tables(spec_directives(text@)).1,
            crate::legacy::wf_filter(&r.0),
            ({
                let ds = spec_directives(text@);
                match r.1 {
                    Option::None => spec_ignored(text@).len() == 0 && spec_disabled_list(
                        ds,
                        ceiling,
                    ).len() == 0,
                    Option::Some(dg) => (spec_ignored(text@).len() > 0 || spec_disabled_list(
                        ds,
                        ceiling,
                    ).len() > 0) && dg.error is None && igs_v(dg.ignored@) == spec_ignored(text@)
                        && dg.source@ == text@ && (match dg.disabled {
                        Option::Some(dd) => spec_disabled_list(ds, ceiling).len() > 0
                            && disabled_v(dd.directives@) == spec_disabled_list(ds, ceiling)
                            && dd.static_max is Some && dd.static_max->Some_0@
                            == (StaticMaxAdviceV {
                            static_level: ceiling,
                            earlier_level: spec_earlier_level(ceiling),
                            feature: spec_feature_text(ceiling),
                        }),
                        Option::None => spec_disabled_list(ds, ceiling).len() == 0,
                    }),
                }
            }),
    {
        let mut dirs: Vec<DynamicDirective> = Vec::new();
        let mut igs: Vec<IgnoredDirective> = Vec::new();
        parse_all_from(text, 0, &mut dirs, &mut igs);
        proof {
            assert(crate::legacy::directive::dyns_v(dirs@) =~= spec_directives(text@));
            assert(igs_v(igs@) =~= spec_ignored(text@));
        }
        let (filter, disabled) = Filter::from_directives(dirs, ceiling);
        let no_ignored = igs.len() == 0;
        let no_disabled = disabled.is_none();
        if no_ignored && no_disabled {
            (filter, None)
        } else {
            let source = String::from_str(text);
            (filter, Some(Diagnostics { error: None, ignored: igs, disabled, source }))
        }
    }

    /// Parse a filter from its text, under the build's own verbosity
    /// ceiling.
    pub fn parse(text: &str) -> (r: (Filter, Option<Diagnostics>))
        ensures
            r.0.dynamics@ == spec_tables(spec_directives(text@)).0,
            r.0.statics@ == spec_tables(spec_directives(text@)).1,
            crate::legacy::wf_filter(&r.0),
            match r.1 {
                Option::None => spec_ignored(text@).len() == 0,
                Option::Some(dg) => dg.error is None && igs_v(dg.ignored@) == spec_ignored(text@)
                    && dg.source@ == text@,
            },
            exists|ceiling: Level|
                match r.1 {
                    Option::None => spec_disabled_list(spec_directives(text@), ceiling).len()
                        == 0,
                    Option::Some(dg) => match dg.disabled {
                        Option::Some(dd) => disabled_v(dd.directives@) == #[trigger] spec_disabled_list(
                            spec_directives(text@),
                            ceiling,
                        ),
                        Option::None => spec_disabled_list(spec_directives(text@), ceiling).len()
                            == 0,
                    },
                },
    {
        let ceiling = static_max_level();
        let r = Filter::parse_with_ceiling(text, ceiling);
        proof {
            assert(match r.1 {
                Option::None => spec_disabled_list(spec_directives(text@), ceiling).len() == 0,
                Option::Some(dg) => match dg.disabled {
                    Option::Some(dd) => disabled_v(dd.directives@) == spec_disabled_list(
                        spec_directives(text@),
                        ceiling,
                    ),
                    Option::None => spec_disabled_list(spec_directives(text@), ceiling).len()
                        == 0,
                },
            });
        }
        r
    }

    /// Parse a filter from its text, discarding any report.
    pub fn new(text: &str) -> (r: Filter)
        ensures
            r.dynamics@ == spec_tables(spec_directives(text@)).0,
            r.statics@ == spec_tables(spec_directives(text@)).1,
            crate::legacy::wf_filter(&r),
    {
        let (filter, _diagnostics) = Filter::parse(text);
        filter
    }
}

impl core::str::FromStr for Filter {
    type Err = Diagnostics;

    /// Parse a filter from its text; any report at all is an error.
    fn from_str(text: &str) -> Result<Filter, Diagnostics> {
        let (filter, diagnostics) = Filter::parse(text);
        match diagnostics {
            Option::Some(d) => Err(d),
            Option::None => Ok(filter),
        }
    }
}

impl core::str::FromStr for DynamicDirective {
    type Err = Diagnostics;

    /// Parse a single directive clause.
    fn from_str(text: &str) -> Result<DynamicDirective, Diagnostics> {
        let len = text.unicode_len();
        match parse_clause(text, 0, len) {
            Result::Ok(d) => Ok(d),
            Result::Err(e) => {
                let mut ignored: Vec<IgnoredDirective> = Vec::new();
                ignored.push(e);
                Err(
                    Diagnostics {
                        error: None,
                        ignored,
                        disabled: None,
                        source: <String as StringExecFns>::from_str(text),
                    },
                )
            },
        }
    }
}

} // verus!
