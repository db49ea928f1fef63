//! The round-trip law: a filter's canonical text, parsed again, yields
//! the directives it was printed from.

use vstd::prelude::*;

use crate::chars::{
    all_digits, dec_digits, digit_to_char, digits_val, eq_ignore_case, is_digit_char,
    is_target_char, lower_code,
};
use crate::level::{level_text, Level};
use crate::legacy::matcher::{
    classify_value, display_value, is_float_text, is_nan_text, ValueMatchV,
};
use crate::legacy::parse::{spec_parse_level};

verus! {

/// Decimal digit characters carry their value.
proof fn lemma_digit_to_char_code(k: int)
    requires
        0 <= k < 10,
    ensures
        digit_to_char(k) as u32 == 48 + k,
        is_digit_char(digit_to_char(k)),
        digit_to_char(k) != '+',
        digit_to_char(k) != '-',
{
    if k == 0 {
        vstd::utf8::char_u32_cast('0', 48);
    } else if k == 1 {
        vstd::utf8::char_u32_cast('1', 49);
    } else if k == 2 {
        vstd::utf8::char_u32_cast('2', 50);
    } else if k == 3 {
        vstd::utf8::char_u32_cast('3', 51);
    } else if k == 4 {
        vstd::utf8::char_u32_cast('4', 52);
    } else if k == 5 {
        vstd::utf8::char_u32_cast('5', 53);
    } else if k == 6 {
        vstd::utf8::char_u32_cast('6', 54);
    } else if k == 7 {
        vstd::utf8::char_u32_cast('7', 55);
    } else if k == 8 {
        vstd::utf8::char_u32_cast('8', 56);
    } else {
        vstd::utf8::char_u32_cast('9', 57);
    }
}

/// The decimal text of a number reads back as that number.
pub proof fn lemma_dec_digits_value(n: int)
    requires
        n >= 0,
    ensures
        dec_digits(n).len() >= 1,
        all_digits(dec_digits(n)),
        digits_val(dec_digits(n)) == n,
    decreases n,
{
    if n < 10 {
        lemma_digit_to_char_code(n);
        assert(dec_digits(n) =~= seq![digit_to_char(n)]);
        assert(seq![digit_to_char(n)].drop_last() =~= Seq::<char>::empty());
        assert(digits_val(Seq::<char>::empty()) == 0);
        assert(digits_val(seq![digit_to_char(n)]) == 0 * 10 + (seq![digit_to_char(n)].last()
            as u32 - '0' as u32));
    } else {
        lemma_dec_digits_value(n / 10);
        lemma_digit_to_char_code(n % 10);
        let s = dec_digits(n / 10).push(digit_to_char(n % 10));
        assert(s.drop_last() =~= dec_digits(n / 10));
        assert(s.last() == digit_to_char(n % 10));
        assert(all_digits(s)) by {
            assert(forall|i: int|
                0 <= i < s.len() - 1 ==> s[i] == dec_digits(n / 10)[i]);
        }
        assert(digits_val(s) == digits_val(dec_digits(n / 10)) * 10 + (s.last() as u32 - '0'
            as u32));
    }
}

} // verus!

// === the level's text reads back as the level ===

verus! {

use crate::chars::spec_parse_u64;
use crate::chars::spec_parse_i64;

/// No level name hides a digit or a sign.
proof fn lemma_level_text_shape(l: Level)
    ensures
        level_text(l).len() >= 3,
        !is_digit_char(level_text(l)[0]),
        level_text(l)[0] != '+',
        level_text(l)[0] != '-',
{
}

/// The canonical text of a level reads back as that level.
pub proof fn lemma_level_text_reparse(l: Level)
    ensures
        spec_parse_level(level_text(l)) == Some(l),
{
    let s = level_text(l);
    lemma_level_text_shape(l);
    assert(!(s.len() > 0 && s[0] == '+'));
    assert(!all_digits(s)) by {
        assert(!is_digit_char(s[0]));
    }
    let error_t = seq!['e', 'r', 'r', 'o', 'r'];
    let warn_t = seq!['w', 'a', 'r', 'n'];
    let info_t = seq!['i', 'n', 'f', 'o'];
    let debug_t = seq!['d', 'e', 'b', 'u', 'g'];
    let trace_t = seq!['t', 'r', 'a', 'c', 'e'];
    let off_t = seq!['o', 'f', 'f'];
    match l {
        Level::Off => {
            assert(!eq_ignore_case(s, error_t));
            assert(!eq_ignore_case(s, warn_t));
            assert(!eq_ignore_case(s, info_t));
            assert(!eq_ignore_case(s, debug_t));
            assert(!eq_ignore_case(s, trace_t));
            assert(eq_ignore_case(s, off_t));
        },
        Level::Error => {
            assert(eq_ignore_case(s, error_t));
        },
        Level::Warn => {
            assert(!eq_ignore_case(s, error_t));
            assert(eq_ignore_case(s, warn_t));
        },
        Level::Info => {
            assert(!eq_ignore_case(s, error_t));
            assert(!eq_ignore_case(s, warn_t)) by {
                assert(lower_code(s[0]) != lower_code(warn_t[0]));
            }
            assert(eq_ignore_case(s, info_t));
        },
        Level::Debug => {
            assert(!eq_ignore_case(s, error_t)) by {
                assert(lower_code(s[0]) != lower_code(error_t[0]));
            }
            assert(!eq_ignore_case(s, warn_t));
            assert(!eq_ignore_case(s, info_t));
            assert(eq_ignore_case(s, debug_t));
        },
        Level::Trace => {
            assert(!eq_ignore_case(s, error_t)) by {
                assert(lower_code(s[0]) != lower_code(error_t[0]));
            }
            assert(!eq_ignore_case(s, warn_t));
            assert(!eq_ignore_case(s, info_t));
            assert(!eq_ignore_case(s, debug_t)) by {
                assert(lower_code(s[0]) != lower_code(debug_t[0]));
            }
            assert(eq_ignore_case(s, trace_t));
        },
    }
}

// === a value's canonical text reads back as the value ===

/// The well-formedness the parser guarantees of a stored value: its
/// canonical text classifies back to it, and contains none of the
/// characters that delimit clauses, field regions or span parts.
pub open spec fn rt_wf_value(v: ValueMatchV) -> bool {
    &&& (match v {
        ValueMatchV::I64(n) => n < 0,
        ValueMatchV::F64(t) => classify_value(t) == Some(ValueMatchV::F64(t)),
        ValueMatchV::Pat(p) => classify_value(p) == Some(ValueMatchV::Pat(p)) && p.len() > 0,
        _ => true,
    })
    &&& (forall|i: int|
        0 <= i < display_value(v).len() ==> display_value(v)[i] != ','
            && display_value(v)[i] != '}' && display_value(v)[i] != ']')
}

/// The canonical text of a well-formed value classifies back to it.
pub proof fn lemma_classify_display_value(v: ValueMatchV)
    requires
        rt_wf_value(v),
    ensures
        classify_value(display_value(v)) == Some(v),
{
    let s = display_value(v);
    match v {
        ValueMatchV::Bool(b) => {
            if b {
                assert(s == seq!['t', 'r', 'u', 'e']);
            } else {
                assert(s == seq!['f', 'a', 'l', 's', 'e']);
                assert(s != seq!['t', 'r', 'u', 'e']) by {
                    assert(s[0] != 't');
                }
            }
        },
        ValueMatchV::U64(n) => {
            lemma_dec_digits_value(n as int);
            assert(!(s == seq!['t', 'r', 'u', 'e'])) by {
                if s == seq!['t', 'r', 'u', 'e'] {
                    assert(is_digit_char(s[0]));
                    assert(s[0] == 't');
                }
            }
            assert(!(s == seq!['f', 'a', 'l', 's', 'e'])) by {
                if s == seq!['f', 'a', 'l', 's', 'e'] {
                    assert(is_digit_char(s[0]));
                    assert(s[0] == 'f');
                }
            }
            assert(s[0] != '+') by {
                assert(is_digit_char(s[0]));
            }
            assert(spec_parse_u64(s) == Some(n));
        },
        ValueMatchV::I64(n) => {
            lemma_dec_digits_value(-n as int);
            assert(s =~= seq!['-'] + dec_digits(-n as int));
            assert(s[0] == '-');
            assert(!(s == seq!['t', 'r', 'u', 'e'])) by {
                assert(s[0] != 't');
            }
            assert(!(s == seq!['f', 'a', 'l', 's', 'e'])) by {
                assert(s[0] != 'f');
            }
            assert(spec_parse_u64(s) is None) by {
                assert(!all_digits(s)) by {
                    assert(!is_digit_char(s[0]));
                }
            }
            assert(spec_parse_i64(s) == Some(n)) by {
                assert(s.drop_first() =~= dec_digits(-n as int));
                assert(digits_val(dec_digits(-n as int)) == -n as int);
            }
        },
        ValueMatchV::NaN => {
            assert(s == seq!['N', 'a', 'N']);
            assert(!(s == seq!['t', 'r', 'u', 'e'])) by {
                assert(s.len() != 4);
            }
            assert(!(s == seq!['f', 'a', 'l', 's', 'e'])) by {
                assert(s.len() != 5);
            }
            assert(spec_parse_u64(s) is None) by {
                assert(!is_digit_char(s[0]));
                assert(s[0] != '+');
                assert(!all_digits(s));
            }
            assert(spec_parse_i64(s) is None) by {
                assert(s[0] != '-' && s[0] != '+');
                assert(!all_digits(s));
            }
            assert(is_nan_text(s)) by {
                assert(crate::legacy::matcher::strip_sign(s) == s);
                assert(lower_code(s[0]) == 110);
                assert(lower_code(s[1]) == 97);
                assert(lower_code(s[2]) == 110);
                assert(eq_ignore_case(s, seq!['n', 'a', 'n']));
            }
            assert(is_float_text(s)) by {
                assert(crate::legacy::matcher::strip_sign(s) == s);
                assert(eq_ignore_case(s, seq!['n', 'a', 'n']));
            }
        },
        ValueMatchV::F64(t) => {
            assert(s == t);
        },
        ValueMatchV::Pat(p) => {
            assert(s == p);
        },
    }
}

} // verus!

// === pinning the scans on known text ===

verus! {

use crate::legacy::parse::{
    field_at, field_run_end, find_char, find_field, mk_directive, name_run_end, open_run_end,
    spec_parse_clause, spec_parse_fields, spec_step, target_run_end, ParseStateV,
};
use crate::legacy::matcher::FieldMatchV;
use crate::legacy::directive::{display_dyn, display_fields_block, display_fields_items, DynDirectiveV};
use crate::legacy::matcher::display_field;
use crate::chars::{is_field_char, is_word_char};
use crate::diagnostics::IgnoredDirectiveV;

proof fn lemma_target_run_end_unique(s: Seq<char>, i: int, end: int, r: int)
    requires
        0 <= i <= r <= end <= s.len(),
        forall|k: int| i <= k < r ==> is_target_char(#[trigger] s[k]),
        r < end ==> !is_target_char(s[r]),
    ensures
        target_run_end(s, i, end) == r,
    decreases r - i,
{
    if i < r {
        assert(is_target_char(s[i]));
        lemma_target_run_end_unique(s, i + 1, end, r);
    }
}

proof fn lemma_find_char_at(s: Seq<char>, i: int, end: int, c: char, p: int)
    requires
        0 <= i <= p < end <= s.len(),
        s[p] == c,
        forall|k: int| i <= k < p ==> s[k] != c,
    ensures
        find_char(s, i, end, c) == Some(p),
    decreases p - i,
{
    if i < p {
        lemma_find_char_at(s, i + 1, end, c, p);
    }
}

proof fn lemma_find_char_none(s: Seq<char>, i: int, end: int, c: char)
    requires
        0 <= i <= end <= s.len(),
        forall|k: int| i <= k < end ==> s[k] != c,
    ensures
        find_char(s, i, end, c) is None,
    decreases end - i,
{
    if i < end {
        lemma_find_char_none(s, i + 1, end, c);
    }
}

proof fn lemma_name_run_end_unique(s: Seq<char>, i: int, end: int, r: int)
    requires
        0 <= i <= r <= end <= s.len(),
        forall|k: int| i <= k < r ==> s[k] != '{',
        r < end ==> s[r] == '{',
    ensures
        name_run_end(s, i, end) == r,
    decreases r - i,
{
    if i < r {
        lemma_name_run_end_unique(s, i + 1, end, r);
    }
}

proof fn lemma_field_run_end_unique(s: Seq<char>, i: int, end: int, r: int)
    requires
        0 <= i <= r <= end <= s.len(),
        forall|k: int| i <= k < r ==> is_field_char(#[trigger] s[k]),
        r < end ==> !is_field_char(s[r]),
    ensures
        field_run_end(s, i, end) == r,
    decreases r - i,
{
    if i < r {
        assert(is_field_char(s[i]));
        lemma_field_run_end_unique(s, i + 1, end, r);
    }
}

/// The well-formedness the parser guarantees of a stored directive: the
/// texts are non-empty, drawn from the right character classes, free of
/// the delimiters that would change how the canonical text reads back,
/// and there is at most one field predicate.
pub open spec fn rt_wf_dyn(d: DynDirectiveV) -> bool {
    &&& (match d.target {
        Option::None => true,
        Option::Some(t) => t.len() > 0 && forall|i: int|
            0 <= i < t.len() ==> is_target_char(#[trigger] t[i]),
    })
    &&& (match d.span {
        Option::None => true,
        Option::Some(n) => n.len() > 0 && n[0] != '[' && forall|i: int|
            0 <= i < n.len() ==> #[trigger] n[i] != '{' && n[i] != ']' && n[i] != ',',
    })
    &&& d.fields.len() <= 1
    &&& (forall|j: int| 0 <= j < d.fields.len() ==> rt_wf_field(#[trigger] d.fields[j]))
}

pub open spec fn rt_wf_field(f: FieldMatchV) -> bool {
    &&& f.name.len() > 0
    &&& is_word_char(f.name[0])
    &&& (forall|i: int| 0 <= i < f.name.len() ==> is_field_char(#[trigger] f.name[i]))
    &&& (match f.value {
        Option::None => true,
        Option::Some(v) => rt_wf_value(v),
    })
}

/// A field region holding exactly one well-formed field's canonical
/// text parses back to that field.
proof fn lemma_fields_region_reparses(s: Seq<char>, fs: int, fe: int, f: FieldMatchV)
    requires
        0 <= fs <= fe <= s.len(),
        fe - fs == display_field(f).len(),
        forall|k: int| 0 <= k < fe - fs ==> s[fs + k] == display_field(f)[k],
        rt_wf_field(f),
    ensures
        spec_parse_fields(s, fs, fe) == Result::<Seq<FieldMatchV>, IgnoredDirectiveV>::Ok(
            seq![f],
        ),
{
    let nl = f.name.len() as int;
    match f.value {
        Option::None => {
            assert(display_field(f) == f.name);
            assert(forall|k: int| 0 <= k < nl ==> s[fs + k] == f.name[k]);
            assert forall|m: int| fs <= m < fe implies is_field_char(#[trigger] s[m]) by {
                assert(s[m] == f.name[m - fs]);
            }
            lemma_field_run_end_unique(s, fs, fe, fe);
            assert(field_at(s, fs, fe) == Some((fe, false)));
            assert(find_field(s, fs, fe) == Some((fs, fe, false)));
            assert(s.subrange(fs, fe) =~= f.name);
            assert(seq![FieldMatchV { name: s.subrange(fs, fe), value: None }] =~= seq![f]);
        },
        Option::Some(v) => {
            let vt = display_value(v);
            let dtext = display_field(f);
            assert(dtext =~= f.name + seq!['='] + vt);
            assert forall|k: int| 0 <= k < nl implies s[fs + k] == f.name[k] by {
                assert(s[fs + k] == dtext[k]);
                assert(dtext[k] == (f.name + seq!['='] + vt)[k]);
            }
            assert(s[fs + nl] == '=') by {
                assert(s[fs + nl] == dtext[nl]);
                assert(dtext[nl] == (f.name + seq!['='] + vt)[nl]);
            }
            assert forall|k: int| 0 <= k < vt.len() implies s[fs + nl + 1 + k] == vt[k] by {
                assert(s[fs + nl + 1 + k] == dtext[nl + 1 + k]);
                assert(dtext[nl + 1 + k] == (f.name + seq!['='] + vt)[nl + 1 + k]);
            }
            assert forall|m: int| fs <= m < fs + nl implies is_field_char(#[trigger] s[m]) by {
                assert(s[m] == f.name[m - fs]);
            }
            assert(!is_field_char(s[fs + nl]));
            assert(vt.len() > 0) by {
                lemma_classify_display_value(v);
                match v {
                    ValueMatchV::U64(n) => {
                        lemma_dec_digits_value(n as int);
                    },
                    ValueMatchV::I64(n) => {
                        lemma_dec_digits_value(-n as int);
                        assert(vt =~= seq!['-'] + dec_digits(-n as int));
                    },
                    _ => {},
                }
            }
            lemma_field_run_end_unique(s, fs, fe, fs + nl);
            assert(field_at(s, fs, fe) == Some((fs + nl, true)));
            assert(find_field(s, fs, fe) == Some((fs, fs + nl, true)));
            assert(s.subrange(fs, fs + nl) =~= f.name);
            assert(s.subrange(fs + nl + 1, fe) =~= vt);
            lemma_classify_display_value(v);
            assert(classify_value(s.subrange(fs + nl + 1, fe)) == Some(v));
            assert(seq![FieldMatchV { name: s.subrange(fs, fs + nl), value: Some(v) }]
                =~= seq![f]);
        },
    }
}

} // verus!

// === one pass over a displayed part ===

verus! {

/// The span part of a directive's canonical text.
pub open spec fn span_text(name: Option<Seq<char>>, fields: Seq<FieldMatchV>) -> Seq<char> {
    seq!['['] + (match name {
        Option::None => Seq::<char>::empty(),
        Option::Some(n) => n,
    }) + display_fields_block(fields) + seq![']']
}

/// A well-formed field's canonical text holds none of the delimiters.
proof fn lemma_display_field_chars(f: FieldMatchV)
    requires
        rt_wf_field(f),
    ensures
        forall|k: int|
            0 <= k < display_field(f).len() ==> #[trigger] display_field(f)[k] != ']'
                && display_field(f)[k] != '}' && display_field(f)[k] != ',',
{
    let nl = f.name.len() as int;
    match f.value {
        Option::None => {
            assert forall|k: int| 0 <= k < display_field(f).len() implies #[trigger] display_field(
                f,
            )[k] != ']' && display_field(f)[k] != '}' && display_field(f)[k] != ',' by {
                assert(display_field(f)[k] == f.name[k]);
                assert(is_field_char(f.name[k]));
            }
        },
        Option::Some(v) => {
            let vt = display_value(v);
            let dtext = display_field(f);
            assert(dtext =~= f.name + seq!['='] + vt);
            assert forall|k: int| 0 <= k < dtext.len() implies #[trigger] dtext[k] != ']'
                && dtext[k] != '}' && dtext[k] != ',' by {
                assert(dtext[k] == (f.name + seq!['='] + vt)[k]);
                if k < nl {
                    assert(is_field_char(f.name[k]));
                } else if k > nl {
                    assert(dtext[k] == vt[k - nl - 1]);
                }
            }
        },
    }
}

/// One pass of the clause parser over a displayed span part.
#[verifier::rlimit(100)]
proof fn lemma_step_span(
    s: Seq<char>,
    end: int,
    st: ParseStateV,
    first: bool,
    name: Option<Seq<char>>,
    fields: Seq<FieldMatchV>,
)
    requires
        0 <= st.pos,
        st.pos + span_text(name, fields).len() <= end <= s.len(),
        forall|k: int|
            0 <= k < span_text(name, fields).len() ==> s[st.pos + k] == #[trigger] span_text(
                name,
                fields,
            )[k],
        match name {
            Option::None => true,
            Option::Some(n) => n.len() > 0 && n[0] != '[' && forall|i: int|
                0 <= i < n.len() ==> #[trigger] n[i] != '{' && n[i] != ']' && n[i] != ',',
        },
        fields.len() <= 1,
        forall|j: int| 0 <= j < fields.len() ==> rt_wf_field(#[trigger] fields[j]),
    ensures
        spec_step(s, end, st, first) == Result::<ParseStateV, IgnoredDirectiveV>::Ok(
            ParseStateV {
                pos: st.pos + span_text(name, fields).len(),
                target: st.target,
                span: name,
                fields,
            },
        ),
{
    let p = st.pos;
    let sp = span_text(name, fields);
    let ntext = match name {
        Option::None => Seq::<char>::empty(),
        Option::Some(n) => n,
    };
    let fblock = display_fields_block(fields);
    let nl = ntext.len() as int;
    assert(sp =~= seq!['['] + ntext + fblock + seq![']']);
    assert(s[p] == '[') by {
        assert(sp[0] == '[');
    }
    assert(!is_target_char('['));
    // the name region
    assert forall|k: int| 0 <= k < nl implies s[p + 1 + k] == ntext[k] by {
        assert(s[p + 1 + k] == sp[1 + k]);
        assert(sp[1 + k] == (seq!['['] + ntext + fblock + seq![']'])[1 + k]);
    }
    // the fields block
    assert forall|k: int| 0 <= k < fblock.len() implies s[p + 1 + nl + k] == fblock[k] by {
        assert(s[p + 1 + nl + k] == sp[1 + nl + k]);
        assert(sp[1 + nl + k] == (seq!['['] + ntext + fblock + seq![']'])[1 + nl + k]);
    }
    let cb = p + sp.len() - 1;
    assert(s[cb] == ']') by {
        assert(sp[sp.len() - 1] == ']');
    }
    // only one opening bracket
    assert(open_run_end(s, p, end) == p + 1) by {
        assert(open_run_end(s, p, end) == open_run_end(s, p + 1, end));
        if nl > 0 {
            assert(s[p + 1] == ntext[0]);
            assert(ntext[0] != '[') by {
                assert(is_target_char('[') == false);
            }
        } else if fields.len() > 0 {
            assert(fblock[0] == '{');
            assert(s[p + 1] == '{');
        } else {
            assert(s[p + 1] == ']');
        }
        assert(s[p + 1] != '[');
        assert(open_run_end(s, p + 1, end) == p + 1);
    }
    let q = p + 1;
    // the written `]` is the first one
    if fields.len() > 0 {
        lemma_display_field_chars(fields[0]);
        assert(display_fields_items(fields) == display_field(fields[0]));
        assert(fblock =~= seq!['{'] + display_field(fields[0]) + seq!['}']);
    } else {
        assert(fblock =~= Seq::<char>::empty());
    }
    assert forall|k: int| q <= k < cb implies s[k] != ']' by {
        if k < q + nl {
            assert(s[k] == ntext[k - q]);
        } else {
            assert(s[k] == fblock[k - q - nl]);
            if fields.len() > 0 {
                let fb = k - q - nl;
                assert(fblock[fb] == (seq!['{'] + display_field(fields[0]) + seq!['}'])[fb]);
                if 0 < fb < fblock.len() - 1 {
                    assert(fblock[fb] == display_field(fields[0])[fb - 1]);
                }
            }
        }
    }
    lemma_find_char_at(s, q, end, ']', cb);
    // the name ends at the first `{`, or at the `]`
    if fields.len() > 0 {
        assert(s[q + nl] == '{') by {
            assert(fblock[0] == '{');
        }
        assert forall|k: int| q <= k < q + nl implies s[k] != '{' by {
            assert(s[k] == ntext[k - q]);
        }
        lemma_name_run_end_unique(s, q, cb, q + nl);
        // the closing `}` is the first one after the `{`
        assert(s[cb - 1] == '}') by {
            assert(fblock[fblock.len() - 1] == '}');
        }
        assert forall|k: int| q + nl + 1 <= k < cb - 1 implies s[k] != '}' by {
            assert(s[k] == fblock[k - q - nl]);
            assert(fblock[k - q - nl] == (seq!['{'] + display_field(fields[0]) + seq!['}'])[k - q
                - nl]);
            assert(fblock[k - q - nl] == display_field(fields[0])[k - q - nl - 1]);
        }
        lemma_find_char_at(s, q + nl + 1, cb, '}', cb - 1);
        assert(cb - 1 - (q + nl + 1) == display_field(fields[0]).len());
        assert forall|k: int| 0 <= k < cb - 1 - (q + nl + 1) implies s[q + nl + 1 + k]
            == display_field(fields[0])[k] by {
            assert(s[q + nl + 1 + k] == fblock[1 + k]);
            assert(fblock[1 + k] == (seq!['{'] + display_field(fields[0]) + seq!['}'])[1 + k]);
        }
        lemma_fields_region_reparses(s, q + nl + 1, cb - 1, fields[0]);
        assert(spec_parse_fields(s, q + nl + 1, cb - 1) == Result::<
            Seq<FieldMatchV>,
            IgnoredDirectiveV,
        >::Ok(seq![fields[0]]));
        assert(seq![fields[0]] =~= fields);
    } else {
        assert forall|k: int| q <= k < cb implies s[k] != '{' by {
            assert(s[k] == ntext[k - q]);
        }
        lemma_name_run_end_unique(s, q, cb, cb);
    }
    // the recovered name
    if name is Some {
        assert(s.subrange(q, q + nl) =~= ntext);
    }
    match name {
        Option::None => {
            assert(name_run_end(s, q, cb) == q);
        },
        Option::Some(n) => {
            assert(name_run_end(s, q, cb) == q + nl);
            assert(nl > 0);
        },
    }
    assert(find_char(s, q, end, ']') == Some(cb));
    assert(spec_step(s, end, st, first) is Ok);
    let got = spec_step(s, end, st, first)->Ok_0;
    assert(got.pos == cb + 1);
    assert(cb + 1 == p + sp.len());
    assert(got.span == name);
    assert(got.fields =~= fields);
    assert(got =~= ParseStateV {
        pos: p + sp.len(),
        target: st.target,
        span: name,
        fields,
    });
}

} // verus!

// === the whole clause ===

verus! {

/// One pass of the clause parser over a displayed target.
proof fn lemma_step_target(s: Seq<char>, end: int, st: ParseStateV, first: bool, t: Seq<char>)
    requires
        0 <= st.pos,
        st.pos + t.len() <= end <= s.len(),
        t.len() > 0,
        forall|k: int| 0 <= k < t.len() ==> s[st.pos + k] == t[k],
        forall|i: int| 0 <= i < t.len() ==> is_target_char(#[trigger] t[i]),
        st.pos + t.len() < end ==> !is_target_char(s[st.pos + t.len()]),
    ensures
        spec_step(s, end, st, first) == Result::<ParseStateV, IgnoredDirectiveV>::Ok(
            ParseStateV { pos: st.pos + t.len(), target: Some(t), span: st.span, fields: st.fields },
        ),
{
    let p = st.pos;
    assert(s[p] == t[0]);
    assert(is_target_char(s[p]));
    assert forall|k: int| p <= k < p + t.len() implies is_target_char(#[trigger] s[k]) by {
        assert(s[k] == t[k - p]);
    }
    lemma_target_run_end_unique(s, p, end, p + t.len());
    assert(s.subrange(p, p + t.len()) =~= t);
    assert(spec_step(s, end, st, first) is Ok);
    let got = spec_step(s, end, st, first)->Ok_0;
    assert(got =~= ParseStateV {
        pos: p + t.len(),
        target: Some(t),
        span: st.span,
        fields: st.fields,
    });
}

/// A text holding an `=` (and not starting with `+`) is no level text.
proof fn lemma_not_a_level(s: Seq<char>, ep: int)
    requires
        0 <= ep < s.len(),
        s[ep] == '=',
        s[0] != '+',
    ensures
        spec_parse_level(s) is None,
{
    assert(!all_digits(s)) by {
        assert(!is_digit_char(s[ep]));
    }
    assert(lower_code('=') == 61);
    let error_t = seq!['e', 'r', 'r', 'o', 'r'];
    let warn_t = seq!['w', 'a', 'r', 'n'];
    let info_t = seq!['i', 'n', 'f', 'o'];
    let debug_t = seq!['d', 'e', 'b', 'u', 'g'];
    let trace_t = seq!['t', 'r', 'a', 'c', 'e'];
    let off_t = seq!['o', 'f', 'f'];
    assert(forall|j: int| 0 <= j < error_t.len() ==> lower_code(#[trigger] error_t[j]) >= 97);
    assert(forall|j: int| 0 <= j < warn_t.len() ==> lower_code(#[trigger] warn_t[j]) >= 97);
    assert(forall|j: int| 0 <= j < info_t.len() ==> lower_code(#[trigger] info_t[j]) >= 97);
    assert(forall|j: int| 0 <= j < debug_t.len() ==> lower_code(#[trigger] debug_t[j]) >= 97);
    assert(forall|j: int| 0 <= j < trace_t.len() ==> lower_code(#[trigger] trace_t[j]) >= 97);
    assert(forall|j: int| 0 <= j < off_t.len() ==> lower_code(#[trigger] off_t[j]) >= 97);
    assert(!eq_ignore_case(s, error_t)) by {
        if eq_ignore_case(s, error_t) {
            assert(lower_code(s[ep]) == lower_code(error_t[ep]));
        }
    }
    assert(!eq_ignore_case(s, warn_t)) by {
        if eq_ignore_case(s, warn_t) {
            assert(lower_code(s[ep]) == lower_code(warn_t[ep]));
        }
    }
    assert(!eq_ignore_case(s, info_t)) by {
        if eq_ignore_case(s, info_t) {
            assert(lower_code(s[ep]) == lower_code(info_t[ep]));
        }
    }
    assert(!eq_ignore_case(s, debug_t)) by {
        if eq_ignore_case(s, debug_t) {
            assert(lower_code(s[ep]) == lower_code(debug_t[ep]));
        }
    }
    assert(!eq_ignore_case(s, trace_t)) by {
        if eq_ignore_case(s, trace_t) {
            assert(lower_code(s[ep]) == lower_code(trace_t[ep]));
        }
    }
    assert(!eq_ignore_case(s, off_t)) by {
        if eq_ignore_case(s, off_t) {
            assert(lower_code(s[ep]) == lower_code(off_t[ep]));
        }
    }
}

/// The canonical text of a directive with parts: the regions and the
/// delimiters around them.
proof fn lemma_display_dyn_layout(d: DynDirectiveV)
    requires
        rt_wf_dyn(d),
        d.target is Some || d.span is Some || d.fields.len() > 0,
    ensures
        ({
            let s = display_dyn(d);
            let tp = match d.target {
                Option::None => Seq::<char>::empty(),
                Option::Some(t) => t,
            };
            let has_span_part = d.span is Some || d.fields.len() > 0;
            let sp = if has_span_part {
                span_text(d.span, d.fields)
            } else {
                Seq::<char>::empty()
            };
            let lt = level_text(d.level);
            let ep = tp.len() + sp.len() as int;
            &&& s.len() == tp.len() + sp.len() + 1 + lt.len()
            &&& s[ep] == '='
            &&& (forall|k: int| 0 <= k < tp.len() ==> s[k] == tp[k])
            &&& (forall|k: int| 0 <= k < sp.len() ==> s[tp.len() + k] == sp[k])
            &&& (forall|k: int| 0 <= k < lt.len() ==> s[ep + 1 + k] == lt[k])
            &&& s[0] != '+'
            &&& (has_span_part ==> sp.len() >= 2)
        }),
{
    let s = display_dyn(d);
    let lt = level_text(d.level);
    let tp = match d.target {
        Option::None => Seq::<char>::empty(),
        Option::Some(t) => t,
    };
    let has_span_part = d.span is Some || d.fields.len() > 0;
    let sp = if has_span_part {
        span_text(d.span, d.fields)
    } else {
        Seq::<char>::empty()
    };
    let tl = tp.len() as int;
    let sl = sp.len() as int;
    assert(s =~= tp + sp + seq!['='] + lt);
    if has_span_part {
        assert(sp =~= seq!['['] + (match d.span {
            Option::None => Seq::<char>::empty(),
            Option::Some(n) => n,
        }) + display_fields_block(d.fields) + seq![']']);
        assert(sl >= 2);
    }
    let ep = tl + sl;
    assert(s[ep] == '=') by {
        assert(s[ep] == (tp + sp + seq!['='] + lt)[ep]);
    }
    assert forall|k: int| 0 <= k < tl implies s[k] == tp[k] by {
        assert(s[k] == (tp + sp + seq!['='] + lt)[k]);
    }
    assert forall|k: int| 0 <= k < sl implies s[tl + k] == sp[k] by {
        assert(s[tl + k] == (tp + sp + seq!['='] + lt)[tl + k]);
    }
    assert forall|k: int| 0 <= k < lt.len() implies s[ep + 1 + k] == lt[k] by {
        assert(s[ep + 1 + k] == (tp + sp + seq!['='] + lt)[ep + 1 + k]);
    }
    assert(s[0] != '+') by {
        if tl > 0 {
            assert(s[0] == tp[0]);
            assert(is_target_char(tp[0]));
        } else {
            assert(s[0] == sp[0]);
            assert(sp[0] == '[');
        }
    }
}

/// The round-trip law at any position, for a directive with parts.
#[verifier::rlimit(100)]
proof fn lemma_display_dyn_reparses_at_parts(s: Seq<char>, a: int, b: int, d: DynDirectiveV)
    requires
        rt_wf_dyn(d),
        d.target is Some || d.span is Some || d.fields.len() > 0,
        0 <= a <= b <= s.len(),
        b - a == display_dyn(d).len(),
        forall|k: int| 0 <= k < b - a ==> s[a + k] == display_dyn(d)[k],
        spec_parse_level(s.subrange(a, b)) is None,
    ensures
        spec_parse_clause(s, a, b) == Result::<DynDirectiveV, IgnoredDirectiveV>::Ok(d),
{
    let t = display_dyn(d);
    let lt = level_text(d.level);
    let tp = match d.target {
        Option::None => Seq::<char>::empty(),
        Option::Some(x) => x,
    };
    let has_span_part = d.span is Some || d.fields.len() > 0;
    let sp = if has_span_part {
        span_text(d.span, d.fields)
    } else {
        Seq::<char>::empty()
    };
    let tl = tp.len() as int;
    let sl = sp.len() as int;
    let ep = a + tl + sl;
    lemma_display_dyn_layout(d);
    assert(s[ep] == '=') by {
        assert(s[ep] == t[tl + sl]);
    }
    assert forall|k: int| 0 <= k < tl implies s[a + k] == tp[k] by {
        assert(s[a + k] == t[k]);
    }
    assert forall|k: int| 0 <= k < sl implies s[a + tl + k] == sp[k] by {
        assert(s[a + tl + k] == t[tl + k]);
    }
    assert forall|k: int| 0 <= k < lt.len() implies s[ep + 1 + k] == lt[k] by {
        assert(s[ep + 1 + k] == t[tl + sl + 1 + k]);
    }
    // first pass: the target, or the span part
    let st0 = ParseStateV { pos: a, target: None, span: None, fields: Seq::empty() };
    let st1 = if d.target is Some {
        assert(a + tl < b);
        assert(!is_target_char(s[a + tl])) by {
            if has_span_part {
                assert(s[a + tl] == sp[0]);
                assert(sp[0] == '[') by {
                    assert(sp =~= seq!['['] + (match d.span {
                        Option::None => Seq::<char>::empty(),
                        Option::Some(n) => n,
                    }) + display_fields_block(d.fields) + seq![']']);
                }
            } else {
                assert(a + tl == ep);
                assert(s[ep] == '=');
            }
        }
        lemma_step_target(s, b, st0, true, tp);
        ParseStateV { pos: a + tl, target: Some(tp), span: None, fields: Seq::empty() }
    } else {
        lemma_step_span(s, b, st0, true, d.span, d.fields);
        ParseStateV { pos: a + sl, target: None, span: d.span, fields: d.fields }
    };
    assert(spec_step(s, b, st0, true) == Result::<ParseStateV, IgnoredDirectiveV>::Ok(st1));
    // second pass, unless a `=` follows already
    let st2 = if d.target is Some && has_span_part {
        assert(s[a + tl] == sp[0]);
        assert(sp[0] == '[') by {
            assert(sp =~= seq!['['] + (match d.span {
                Option::None => Seq::<char>::empty(),
                Option::Some(n) => n,
            }) + display_fields_block(d.fields) + seq![']']);
        }
        lemma_step_span(s, b, st1, false, d.span, d.fields);
        ParseStateV { pos: ep, target: Some(tp), span: d.span, fields: d.fields }
    } else {
        assert(st1.pos == ep);
        assert(s[st1.pos] == '=');
        st1
    };
    if !(st1.pos < b && s[st1.pos] == '=') {
        assert(spec_step(s, b, st1, false) == Result::<ParseStateV, IgnoredDirectiveV>::Ok(
            st2,
        ));
    }
    // the level suffix
    assert(st2.pos == ep);
    assert(ep + 1 < b) by {
        assert(lt.len() >= 3);
    }
    assert(s.subrange(ep + 1, b) =~= lt);
    lemma_level_text_reparse(d.level);
    assert(spec_parse_clause(s, a, b) is Ok);
    let got = spec_parse_clause(s, a, b)->Ok_0;
    assert(got =~= mk_directive(st2, d.level));
    assert(mk_directive(st2, d.level) =~= d) by {
        if d.target is None {
            assert(st2.target == d.target);
        }
        if !has_span_part {
            assert(st2.span is None && st2.fields =~= Seq::<FieldMatchV>::empty());
            assert(d.fields =~= Seq::<FieldMatchV>::empty());
        }
    }
}

/// The round-trip law for one directive, at any position: a stretch of
/// text holding the directive's canonical text, parsed as a clause,
/// yields the directive back.
pub proof fn lemma_display_dyn_reparses_at(s: Seq<char>, a: int, b: int, d: DynDirectiveV)
    requires
        rt_wf_dyn(d),
        0 <= a <= b <= s.len(),
        b - a == display_dyn(d).len(),
        forall|k: int| 0 <= k < b - a ==> s[a + k] == display_dyn(d)[k],
    ensures
        spec_parse_clause(s, a, b) == Result::<DynDirectiveV, IgnoredDirectiveV>::Ok(d),
{
    let t = display_dyn(d);
    let lt = level_text(d.level);
    assert(s.subrange(a, b) =~= t);
    let wrote = d.target is Some || d.span is Some || d.fields.len() > 0;
    if !wrote {
        assert(t == lt);
        lemma_level_text_reparse(d.level);
        assert(spec_parse_clause(s, a, b) is Ok);
        let got = spec_parse_clause(s, a, b)->Ok_0;
        assert(got =~= d);
        return;
    }
    let tp = match d.target {
        Option::None => Seq::<char>::empty(),
        Option::Some(x) => x,
    };
    let has_span_part = d.span is Some || d.fields.len() > 0;
    let sp = if has_span_part {
        span_text(d.span, d.fields)
    } else {
        Seq::<char>::empty()
    };
    let tl = tp.len() as int;
    let sl = sp.len() as int;
    lemma_display_dyn_layout(d);
    assert(t[tl + sl] == '=');
    assert(t[0] != '+') by {
        if tl > 0 {
            assert(is_target_char(tp[0]));
        }
    }
    lemma_not_a_level(t, tl + sl);
    assert(spec_parse_level(s.subrange(a, b)) is None);
    lemma_display_dyn_reparses_at_parts(s, a, b, d);
}

/// The round-trip law for one directive: its canonical text, parsed as
/// a clause, yields the directive back.
pub proof fn lemma_display_dyn_reparses(d: DynDirectiveV)
    requires
        rt_wf_dyn(d),
    ensures
        spec_parse_clause(display_dyn(d), 0, display_dyn(d).len() as int) == Result::<
            DynDirectiveV,
            IgnoredDirectiveV,
        >::Ok(d),
{
    lemma_display_dyn_reparses_at(display_dyn(d), 0, display_dyn(d).len() as int, d);
}

} // verus!

// === statics re-read as presence-only dynamic directives ===

verus! {

use crate::legacy::directive::{display_static, to_static, StaticDirectiveV};

/// A static directive, read back as a directive: a presence-only
/// predicate for each field name.
pub open spec fn lift_static(st: StaticDirectiveV) -> DynDirectiveV {
    DynDirectiveV {
        span: None,
        fields: st.fields.map_values(|n: Seq<char>| FieldMatchV { name: n, value: None }),
        target: st.target,
        level: st.level,
    }
}

/// The well-formedness the parser guarantees of a stored static
/// directive.
pub open spec fn rt_wf_static(st: StaticDirectiveV) -> bool {
    &&& (match st.target {
        Option::None => true,
        Option::Some(t) => t.len() > 0 && forall|i: int|
            0 <= i < t.len() ==> is_target_char(#[trigger] t[i]),
    })
    &&& st.fields.len() <= 1
    &&& (forall|j: int|
        0 <= j < st.fields.len() ==> {
            let n = #[trigger] st.fields[j];
            n.len() > 0 && is_word_char(n[0]) && forall|i: int|
                0 <= i < n.len() ==> is_field_char(#[trigger] n[i])
        })
}

/// Lifting preserves well-formedness, projecting back gives the static
/// directive, and the two canonical texts agree.
pub proof fn lemma_lift_static(st: StaticDirectiveV)
    requires
        rt_wf_static(st),
    ensures
        rt_wf_dyn(lift_static(st)),
        to_static(lift_static(st)) == st,
        crate::legacy::directive::is_static_convertible(lift_static(st)),
        crate::legacy::directive::is_dynamic(lift_static(st)) == (st.fields.len() > 0),
        display_dyn(lift_static(st)) == display_static(st),
{
    let d = lift_static(st);
    assert(to_static(d) =~= st) by {
        assert(to_static(d).fields =~= st.fields);
    }
    assert forall|j: int| 0 <= j < d.fields.len() implies rt_wf_field(#[trigger] d.fields[j]) by {
        assert(d.fields[j].name == st.fields[j]);
    }
    if st.fields.len() == 0 {
        assert(display_fields_block(d.fields) =~= Seq::<char>::empty());
        assert(crate::legacy::directive::display_names_block(st.fields)
            =~= Seq::<char>::empty());
        assert(display_dyn(d) =~= display_static(st));
    } else {
        assert(d.fields.len() == 1);
        assert(display_field(d.fields[0]) == st.fields[0]);
        assert(display_fields_items(d.fields) == display_field(d.fields[0]));
        assert(crate::legacy::directive::display_names_items(st.fields) == st.fields[0]);
        assert(display_fields_block(d.fields) =~= crate::legacy::directive::display_names_block(
            st.fields,
        ));
        assert(display_dyn(d) =~= display_static(st));
    }
}

/// A well-formed directive's canonical text holds no comma.
proof fn lemma_display_dyn_comma_free(d: DynDirectiveV)
    requires
        rt_wf_dyn(d),
    ensures
        forall|k: int| 0 <= k < display_dyn(d).len() ==> #[trigger] display_dyn(d)[k] != ',',
{
    let s = display_dyn(d);
    let lt = level_text(d.level);
    let wrote = d.target is Some || d.span is Some || d.fields.len() > 0;
    if !wrote {
        assert(s == lt);
        assert forall|k: int| 0 <= k < s.len() implies #[trigger] s[k] != ',' by {
            assert(lower_code(',') == 44);
            assert(lower_code(s[k]) >= 97);
        }
        return;
    }
    let tp = match d.target {
        Option::None => Seq::<char>::empty(),
        Option::Some(t) => t,
    };
    let has_span_part = d.span is Some || d.fields.len() > 0;
    let sp = if has_span_part {
        span_text(d.span, d.fields)
    } else {
        Seq::<char>::empty()
    };
    let ntext = match d.span {
        Option::None => Seq::<char>::empty(),
        Option::Some(n) => n,
    };
    let fblock = display_fields_block(d.fields);
    let tl = tp.len() as int;
    let sl = sp.len() as int;
    lemma_display_dyn_layout(d);
    if has_span_part {
        assert(sp =~= seq!['['] + ntext + fblock + seq![']']);
    }
    if d.fields.len() > 0 {
        lemma_display_field_chars(d.fields[0]);
        assert(display_fields_items(d.fields) == display_field(d.fields[0]));
        assert(fblock =~= seq!['{'] + display_field(d.fields[0]) + seq!['}']);
    } else {
        assert(fblock =~= Seq::<char>::empty());
    }
    assert forall|k: int| 0 <= k < s.len() implies #[trigger] s[k] != ',' by {
        if k < tl {
            assert(s[k] == tp[k]);
            assert(is_target_char(tp[k]));
        } else if k < tl + sl {
            let j = k - tl;
            assert(s[k] == sp[j]);
            assert(sp[j] == (seq!['['] + ntext + fblock + seq![']'])[j]);
            if 1 <= j < 1 + ntext.len() {
                assert(sp[j] == ntext[j - 1]);
            } else if 1 + ntext.len() <= j < 1 + ntext.len() + fblock.len() {
                let fb = j - 1 - ntext.len();
                assert(sp[j] == fblock[fb]);
                if d.fields.len() > 0 && 0 < fb < fblock.len() - 1 {
                    assert(fblock[fb] == display_field(d.fields[0])[fb - 1]);
                }
            }
        } else if k == tl + sl {
            assert(s[k] == '=');
        } else {
            assert(s[k] == lt[k - tl - sl - 1]);
            assert(lower_code(',') == 44);
            assert(lower_code(lt[k - tl - sl - 1]) >= 97);
        }
    }
}

} // verus!

// === the whole canonical text, clause by clause ===

verus! {

use crate::legacy::parse::{clause_end, result_errs, result_oks, spec_results};
use crate::legacy::directive::display_names_items;

/// The canonical texts of a directive list.
pub open spec fn dyn_texts(ds: Seq<DynDirectiveV>) -> Seq<Seq<char>> {
    ds.map_values(|d: DynDirectiveV| display_dyn(d))
}

/// Parsing a comma-join of canonical directive texts yields exactly
/// those directives, clause by clause.
#[verifier::rlimit(100)]
proof fn lemma_join_reparses(s: Seq<char>, start: int, ds: Seq<DynDirectiveV>)
    requires
        0 <= start <= s.len(),
        ds.len() > 0,
        forall|j: int| 0 <= j < ds.len() ==> rt_wf_dyn(#[trigger] ds[j]),
        s.len() - start == display_names_items(dyn_texts(ds)).len(),
        forall|k: int|
            0 <= k < s.len() - start ==> s[start + k] == #[trigger] display_names_items(
                dyn_texts(ds),
            )[k],
    ensures
        spec_results(s, start) == Seq::new(ds.len() as nat, |i: int| Result::<
            DynDirectiveV,
            IgnoredDirectiveV,
        >::Ok(ds[i])),
    decreases ds.len(),
{
    let texts = dyn_texts(ds);
    let joined = display_names_items(texts);
    let t0 = display_dyn(ds[0]);
    assert(texts[0] == t0);
    let tl = t0.len() as int;
    lemma_display_dyn_comma_free(ds[0]);
    if ds.len() == 1 {
        assert(joined == t0);
        assert forall|k: int| start <= k < s.len() implies s[k] != ',' by {
            assert(s[k] == t0[k - start]);
        }
        lemma_find_char_none(s, start, s.len() as int, ',');
        assert(clause_end(s, start) == s.len());
        lemma_display_dyn_reparses_at(s, start, s.len() as int, ds[0]);
        assert(spec_results(s, start) =~= Seq::new(ds.len() as nat, |i: int| Result::<
            DynDirectiveV,
            IgnoredDirectiveV,
        >::Ok(ds[i])));
    } else {
        let rest = display_names_items(dyn_texts(ds.drop_first()));
        assert(dyn_texts(ds).drop_first() =~= dyn_texts(ds.drop_first()));
        assert(joined == t0 + seq![','] + rest) by {
            assert(display_names_items(texts) == texts[0] + seq![','] + display_names_items(
                texts.drop_first(),
            ));
        }
        let ce = start + tl;
        assert(s[ce] == ',') by {
            assert(s[ce] == joined[tl]);
            assert(joined[tl] == (t0 + seq![','] + rest)[tl]);
        }
        assert forall|k: int| start <= k < ce implies s[k] != ',' by {
            assert(s[k] == joined[k - start]);
            assert(joined[k - start] == (t0 + seq![','] + rest)[k - start]);
            assert(joined[k - start] == t0[k - start]);
        }
        lemma_find_char_at(s, start, s.len() as int, ',', ce);
        assert(clause_end(s, start) == ce);
        assert forall|k: int| 0 <= k < tl implies s[start + k] == t0[k] by {
            assert(s[start + k] == joined[k]);
            assert(joined[k] == (t0 + seq![','] + rest)[k]);
        }
        lemma_display_dyn_reparses_at(s, start, ce, ds[0]);
        assert forall|k: int| 0 <= k < s.len() - (ce + 1) implies s[ce + 1 + k]
            == #[trigger] display_names_items(dyn_texts(ds.drop_first()))[k] by {
            assert(s[ce + 1 + k] == joined[tl + 1 + k]);
            assert(joined[tl + 1 + k] == (t0 + seq![','] + rest)[tl + 1 + k]);
        }
        lemma_join_reparses(s, ce + 1, ds.drop_first());
        assert(spec_results(s, start) =~= Seq::new(ds.len() as nat, |i: int| Result::<
            DynDirectiveV,
            IgnoredDirectiveV,
        >::Ok(ds[i]))) by {
            let whole = Seq::new(ds.len() as nat, |i: int| Result::<
                DynDirectiveV,
                IgnoredDirectiveV,
            >::Ok(ds[i]));
            let tail = Seq::new(ds.drop_first().len() as nat, |i: int| Result::<
                DynDirectiveV,
                IgnoredDirectiveV,
            >::Ok(ds.drop_first()[i]));
            assert(spec_results(s, ce + 1) == tail);
            assert(spec_results(s, start) == seq![Result::<
                DynDirectiveV,
                IgnoredDirectiveV,
            >::Ok(ds[0])] + spec_results(s, ce + 1));
        }
    }
}

/// A run of successful clause results retains every directive and
/// reports nothing.
proof fn lemma_all_ok_results(ds: Seq<DynDirectiveV>)
    ensures
        result_oks(Seq::new(ds.len() as nat, |i: int| Result::<
            DynDirectiveV,
            IgnoredDirectiveV,
        >::Ok(ds[i]))) =~= ds,
        result_errs(Seq::new(ds.len() as nat, |i: int| Result::<
            DynDirectiveV,
            IgnoredDirectiveV,
        >::Ok(ds[i]))) =~= Seq::<IgnoredDirectiveV>::empty(),
    decreases ds.len(),
{
    let rs = Seq::new(ds.len() as nat, |i: int| Result::<
        DynDirectiveV,
        IgnoredDirectiveV,
    >::Ok(ds[i]));
    if ds.len() > 0 {
        lemma_all_ok_results(ds.drop_first());
        assert(rs.drop_first() =~= Seq::new(ds.drop_first().len() as nat, |i: int| Result::<
            DynDirectiveV,
            IgnoredDirectiveV,
        >::Ok(ds.drop_first()[i])));
        assert(result_oks(rs) == seq![ds[0]] + result_oks(rs.drop_first()));
        assert(seq![ds[0]] + ds.drop_first() =~= ds);
    }
}

} // verus!

// === the whole filter ===

verus! {

use crate::legacy::parse::{spec_directives, spec_ignored};
use crate::legacy::directive::{dyn_sorted, static_sorted, is_dynamic, is_static_convertible, cmp_dyn, cmp_static};
use crate::legacy::{display_filter, filter_texts, Filter};

/// What parsing reads a filter's members back as: each static directive
/// as a presence-only rule, then the dynamic directives.
pub open spec fn reread_directives(f: &Filter) -> Seq<DynDirectiveV> {
    f.statics@.directives.map_values(|st: StaticDirectiveV| lift_static(st))
        + f.dynamics@.directives.map_values(|d: DynDirectiveV| d)
}

/// The well-formedness the parser guarantees of a whole filter: ordered
/// sets of well-formed directives, at least one member somewhere, every
/// dynamic member genuinely dynamic, every static member with fields
/// the projection of a dynamic member, and every convertible dynamic
/// member projected into the statics.
pub open spec fn rt_wf_filter(f: &Filter) -> bool {
    &&& crate::legacy::wf_filter(f)
    &&& f.statics@.directives.len() + f.dynamics@.directives.len() > 0
    &&& (forall|j: int|
        0 <= j < f.statics@.directives.len() ==> rt_wf_static(
            #[trigger] f.statics@.directives[j],
        ))
    &&& (forall|j: int|
        0 <= j < f.dynamics@.directives.len() ==> rt_wf_dyn(#[trigger] f.dynamics@.directives[j]))
    &&& (forall|j: int|
        0 <= j < f.dynamics@.directives.len() ==> is_dynamic(#[trigger] f.dynamics@.directives[j]))
    &&& (forall|j: int|
        0 <= j < f.statics@.directives.len() ==> (#[trigger] f.statics@.directives[j]).fields.len()
            > 0 ==> f.dynamics@.directives.contains(lift_static(f.statics@.directives[j])))
    &&& (forall|j: int|
        0 <= j < f.dynamics@.directives.len() ==> is_static_convertible(
            #[trigger] f.dynamics@.directives[j],
        ) ==> exists|k: int|
            0 <= k < f.statics@.directives.len() && cmp_static(
                #[trigger] f.statics@.directives[k],
                to_static(f.dynamics@.directives[j]),
            ) == crate::order::Ord3::Equal)
}

/// Half of the round-trip law: a filter's canonical text parses without
/// a single report, and retains exactly the directives it was printed
/// from — each static one as a presence-only rule, then the dynamic
/// ones, in order.
pub proof fn lemma_display_reparses_directives(f: &Filter)
    requires
        rt_wf_filter(f),
    ensures
        spec_directives(display_filter(f)) == reread_directives(f),
        spec_ignored(display_filter(f)) =~= Seq::<IgnoredDirectiveV>::empty(),
{
    let ds = reread_directives(f);
    let sn = f.statics@.directives.len() as int;
    assert forall|j: int| 0 <= j < ds.len() implies rt_wf_dyn(#[trigger] ds[j]) by {
        if j < sn {
            assert(ds[j] == lift_static(f.statics@.directives[j]));
            lemma_lift_static(f.statics@.directives[j]);
        } else {
            assert(ds[j] == f.dynamics@.directives[j - sn]);
        }
    }
    assert(filter_texts(f) =~= dyn_texts(ds)) by {
        assert forall|j: int| 0 <= j < ds.len() implies filter_texts(f)[j] == #[trigger] dyn_texts(
            ds,
        )[j] by {
            if j < sn {
                assert(filter_texts(f)[j] == display_static(f.statics@.directives[j]));
                lemma_lift_static(f.statics@.directives[j]);
                assert(ds[j] == lift_static(f.statics@.directives[j]));
            } else {
                assert(filter_texts(f)[j] == display_dyn(f.dynamics@.directives[j - sn]));
                assert(ds[j] == f.dynamics@.directives[j - sn]);
            }
        }
    }
    let s = display_filter(f);
    assert(ds.len() > 0);
    lemma_join_reparses(s, 0, ds);
    lemma_all_ok_results(ds);
    assert(spec_directives(s) =~= ds);
}

} // verus!

// === rebuilding the sets from the reread directives ===

verus! {

use crate::order::Ord3;
use crate::legacy::directive::{
    dyn_insert, static_insert, lemma_cmp_dyn_flip, lemma_cmp_dyn_refl,
    lemma_cmp_static_equal, lemma_cmp_static_flip,
    lemma_dyn_insert_sorted,
};
use crate::legacy::parse::{fold_tables, step_tables, spec_tables, empty_dynamics, empty_statics};
use crate::legacy::directive::{DynamicsV, StaticsV};

/// Insertion keeps every member, and leaves some member the order
/// cannot tell from the inserted one.
proof fn lemma_dyn_insert_keeps(s: Seq<DynDirectiveV>, d: DynDirectiveV)
    ensures
        forall|x: DynDirectiveV| s.contains(x) ==> dyn_insert(s, d).contains(x),
        exists|e: DynDirectiveV|
            #[trigger] dyn_insert(s, d).contains(e) && cmp_dyn(e, d) == Ord3::Equal,
    decreases s.len(),
{
    lemma_cmp_dyn_refl(d);
    if s.len() == 0 {
        assert(dyn_insert(s, d) =~= seq![d]);
        assert(dyn_insert(s, d)[0] == d);
        assert(dyn_insert(s, d).contains(d) && cmp_dyn(d, d) == Ord3::Equal);
    } else {
        match cmp_dyn(d, s[0]) {
            Ord3::Greater => {
                let r = seq![d] + s;
                assert(dyn_insert(s, d) == r);
                assert forall|x: DynDirectiveV| s.contains(x) implies r.contains(x) by {
                    let i = choose|i: int| 0 <= i < s.len() && s[i] == x;
                    assert(r[i + 1] == x);
                }
                assert(r[0] == d);
                assert(dyn_insert(s, d).contains(d));
            },
            Ord3::Equal => {
                lemma_cmp_dyn_flip(d, s[0]);
                assert(dyn_insert(s, d) == s);
                assert(s[0] == s[0] && 0 < s.len());
                assert(s.contains(s[0]));
                assert(dyn_insert(s, d).contains(s[0]));
                assert(cmp_dyn(s[0], d) == Ord3::Equal);
            },
            Ord3::Less => {
                let tail = s.drop_first();
                lemma_dyn_insert_keeps(tail, d);
                let rest = dyn_insert(tail, d);
                let r = seq![s[0]] + rest;
                assert(dyn_insert(s, d) == r);
                assert forall|x: DynDirectiveV| s.contains(x) implies r.contains(x) by {
                    let i = choose|i: int| 0 <= i < s.len() && s[i] == x;
                    if i == 0 {
                        assert(r[0] == x);
                    } else {
                        assert(tail[i - 1] == x);
                        assert(tail.contains(x));
                        assert(rest.contains(x));
                        let j = choose|j: int| 0 <= j < rest.len() && rest[j] == x;
                        assert(r[j + 1] == x);
                    }
                }
                let e = choose|e: DynDirectiveV|
                    #[trigger] rest.contains(e) && cmp_dyn(e, d) == Ord3::Equal;
                let j = choose|j: int| 0 <= j < rest.len() && rest[j] == e;
                assert(r[j + 1] == e);
                assert(dyn_insert(s, d).contains(e));
            },
        }
    }
}

/// Inserting something less specific than everything present appends it.
proof fn lemma_static_insert_append(s: Seq<StaticDirectiveV>, d: StaticDirectiveV)
    requires
        forall|i: int| 0 <= i < s.len() ==> cmp_static(#[trigger] s[i], d) == Ord3::Greater,
    ensures
        static_insert(s, d) =~= s.push(d),
    decreases s.len(),
{
    if s.len() == 0 {
    } else {
        assert(cmp_static(s[0], d) == Ord3::Greater);
        lemma_cmp_static_flip(d, s[0]);
        lemma_static_insert_append(s.drop_first(), d);
        assert(seq![s[0]] + s.drop_first().push(d) =~= s.push(d));
    }
}

/// Inserting something the order cannot tell from a present member
/// changes nothing.
proof fn lemma_static_insert_absorb(s: Seq<StaticDirectiveV>, d: StaticDirectiveV, k: int)
    requires
        static_sorted(s),
        0 <= k < s.len(),
        cmp_static(s[k], d) == Ord3::Equal,
    ensures
        static_insert(s, d) == s,
    decreases s.len(),
{
    lemma_cmp_static_equal(s[k], d);
    if k == 0 {
        lemma_cmp_static_flip(d, s[0]);
        assert(cmp_static(d, s[0]) == Ord3::Equal);
    } else {
        assert(cmp_static(s[0], s[k]) == Ord3::Greater);
        assert(cmp_static(s[0], d) == Ord3::Greater) by {
            assert(s[k].target == d.target && s[k].fields == d.fields);
        }
        lemma_cmp_static_flip(d, s[0]);
        assert(cmp_static(d, s[0]) == Ord3::Less);
        let tail = s.drop_first();
        assert(static_sorted(tail)) by {
            assert(forall|i: int, j: int|
                0 <= i < j < tail.len() ==> tail[i] == s[i + 1] && tail[j] == s[j + 1]);
        }
        assert(tail[k - 1] == s[k]);
        lemma_static_insert_absorb(tail, d, k - 1);
        assert(seq![s[0]] + tail =~= s);
    }
}

/// Two strictly ordered sequences with the same members are the same.
proof fn lemma_dyn_sorted_unique(x: Seq<DynDirectiveV>, y: Seq<DynDirectiveV>)
    requires
        dyn_sorted(x),
        dyn_sorted(y),
        forall|e: DynDirectiveV| x.contains(e) <==> y.contains(e),
    ensures
        x =~= y,
    decreases x.len(),
{
    if x.len() == 0 {
        if y.len() > 0 {
            assert(y.contains(y[0]));
            assert(x.contains(y[0]));
        }
        assert(x =~= y);
    } else {
        assert(x.contains(x[0]));
        assert(y.contains(x[0]));
        let j = choose|j: int| 0 <= j < y.len() && y[j] == x[0];
        assert(y.contains(y[0]));
        assert(x.contains(y[0]));
        let i = choose|i: int| 0 <= i < x.len() && x[i] == y[0];
        assert(x[0] == y[0]) by {
            if j > 0 {
                assert(cmp_dyn(y[0], y[j]) == Ord3::Greater);
                if i == 0 {
                    lemma_cmp_dyn_refl(x[0]);
                    assert(cmp_dyn(y[0], y[j]) == cmp_dyn(x[i], x[0]));
                } else {
                    assert(cmp_dyn(x[0], x[i]) == Ord3::Greater);
                    lemma_cmp_dyn_flip(x[0], x[i]);
                }
            }
        }
        let xt = x.drop_first();
        let yt = y.drop_first();
        assert(dyn_sorted(xt)) by {
            assert(forall|a: int, b: int|
                0 <= a < b < xt.len() ==> xt[a] == x[a + 1] && xt[b] == x[b + 1]);
        }
        assert(dyn_sorted(yt)) by {
            assert(forall|a: int, b: int|
                0 <= a < b < yt.len() ==> yt[a] == y[a + 1] && yt[b] == y[b + 1]);
        }
        assert forall|e: DynDirectiveV| xt.contains(e) <==> yt.contains(e) by {
            lemma_head_tail_membership(x, e);
            lemma_head_tail_membership(y, e);
        }
        lemma_dyn_sorted_unique(xt, yt);
        assert(x =~= seq![x[0]] + xt);
        assert(y =~= seq![y[0]] + yt);
    }
}

/// In a strictly ordered sequence, the tail holds exactly the members
/// other than the head.
proof fn lemma_head_tail_membership(x: Seq<DynDirectiveV>, e: DynDirectiveV)
    requires
        dyn_sorted(x),
        x.len() > 0,
    ensures
        x.drop_first().contains(e) <==> (x.contains(e) && e != x[0]),
{
    let xt = x.drop_first();
    if xt.contains(e) {
        let i = choose|i: int| 0 <= i < xt.len() && xt[i] == e;
        assert(x[i + 1] == e);
        assert(x.contains(e));
        if e == x[0] {
            assert(cmp_dyn(x[0], x[i + 1]) == Ord3::Greater);
            lemma_cmp_dyn_refl(x[0]);
        }
    }
    if x.contains(e) && e != x[0] {
        let i = choose|i: int| 0 <= i < x.len() && x[i] == e;
        assert(i > 0);
        assert(xt[i - 1] == e);
        assert(xt.contains(e));
    }
}

/// Folding over a split list folds each part in turn.
proof fn lemma_fold_tables_append(
    t: (DynamicsV, StaticsV),
    a: Seq<DynDirectiveV>,
    b: Seq<DynDirectiveV>,
)
    ensures
        fold_tables(t, a + b) == fold_tables(fold_tables(t, a), b),
    decreases a.len(),
{
    if a.len() == 0 {
        assert(a + b =~= b);
    } else {
        assert((a + b)[0] == a[0]);
        assert((a + b).drop_first() =~= a.drop_first() + b);
        lemma_fold_tables_append(step_tables(t, a[0]), a.drop_first(), b);
    }
}

} // verus!

// === the fold over the reread directives rebuilds both sets ===

verus! {

use crate::legacy::directive::{lemma_cmp_static_trans};

/// Folding the statics' presence-only rereadings rebuilds the static
/// set in order; the dynamic side gains only dynamic members.
#[verifier::rlimit(100)]
proof fn lemma_fold_phase_statics(f: &Filter, i: int, acc: (DynamicsV, StaticsV))
    requires
        rt_wf_filter(f),
        0 <= i <= f.statics@.directives.len(),
        acc.1.directives == f.statics@.directives.take(i),
        dyn_sorted(acc.0.directives),
        forall|x: DynDirectiveV|
            acc.0.directives.contains(x) ==> f.dynamics@.directives.contains(x),
    ensures
        ({
            let l = f.statics@.directives.map_values(|st: StaticDirectiveV| lift_static(st));
            let r = fold_tables(acc, l.skip(i));
            &&& r.1.directives == f.statics@.directives
            &&& dyn_sorted(r.0.directives)
            &&& (forall|x: DynDirectiveV|
                r.0.directives.contains(x) ==> f.dynamics@.directives.contains(x))
        }),
    decreases f.statics@.directives.len() - i,
{
    let ss = f.statics@.directives;
    let l = ss.map_values(|st: StaticDirectiveV| lift_static(st));
    if i == ss.len() {
        assert(l.skip(i) =~= Seq::<DynDirectiveV>::empty());
        assert(ss.take(i) =~= ss);
    } else {
        assert(l.skip(i)[0] == l[i]);
        assert(l[i] == lift_static(ss[i]));
        assert(l.skip(i).drop_first() =~= l.skip(i + 1));
        lemma_lift_static(ss[i]);
        let d = lift_static(ss[i]);
        let acc2 = step_tables(acc, d);
        // the static side appends exactly the next member
        assert(acc2.1.directives == ss.take(i + 1)) by {
            assert(to_static(d) == ss[i]);
            assert forall|k: int| 0 <= k < acc.1.directives.len() implies cmp_static(
                #[trigger] acc.1.directives[k],
                ss[i],
            ) == Ord3::Greater by {
                assert(acc.1.directives[k] == ss[k]);
            }
            lemma_static_insert_append(acc.1.directives, ss[i]);
            assert(ss.take(i).push(ss[i]) =~= ss.take(i + 1));
        }
        // the dynamic side stays ordered, all members known
        assert(dyn_sorted(acc2.0.directives) && forall|x: DynDirectiveV|
            acc2.0.directives.contains(x) ==> f.dynamics@.directives.contains(x)) by {
            if crate::legacy::directive::is_dynamic(d) {
                assert(ss[i].fields.len() > 0);
                assert(f.dynamics@.directives.contains(d));
                lemma_dyn_insert_sorted(acc.0.directives, d);
                lemma_dyn_insert_keeps(acc.0.directives, d);
                assert forall|x: DynDirectiveV|
                    acc2.0.directives.contains(x) implies f.dynamics@.directives.contains(
                    x,
                ) by {
                    let ii = choose|ii: int|
                        0 <= ii < acc2.0.directives.len() && acc2.0.directives[ii] == x;
                }
            }
        }
        lemma_fold_phase_statics(f, i + 1, acc2);
    }
}

/// Folding the dynamic members leaves the static set alone (their
/// projections are already present) and ends with every member placed.
#[verifier::rlimit(100)]
proof fn lemma_fold_phase_dynamics(f: &Filter, i: int, acc: (DynamicsV, StaticsV))
    requires
        rt_wf_filter(f),
        0 <= i <= f.dynamics@.directives.len(),
        acc.1.directives == f.statics@.directives,
        dyn_sorted(acc.0.directives),
        forall|x: DynDirectiveV|
            acc.0.directives.contains(x) ==> f.dynamics@.directives.contains(x),
    ensures
        ({
            let m = f.dynamics@.directives;
            let r = fold_tables(acc, m.skip(i));
            &&& r.1.directives == f.statics@.directives
            &&& dyn_sorted(r.0.directives)
            &&& (forall|x: DynDirectiveV| r.0.directives.contains(x) ==> m.contains(x))
            &&& (forall|x: DynDirectiveV|
                acc.0.directives.contains(x) ==> r.0.directives.contains(x))
            &&& (forall|j: int|
                i <= j < m.len() ==> exists|e: DynDirectiveV|
                    r.0.directives.contains(e) && cmp_dyn(e, #[trigger] m[j]) == Ord3::Equal)
        }),
    decreases f.dynamics@.directives.len() - i,
{
    let m = f.dynamics@.directives;
    if i == m.len() {
        assert(m.skip(i) =~= Seq::<DynDirectiveV>::empty());
    } else {
        assert(m.skip(i)[0] == m[i]);
        assert(m.skip(i).drop_first() =~= m.skip(i + 1));
        let d = m[i];
        assert(crate::legacy::directive::is_dynamic(d));
        let acc2 = step_tables(acc, d);
        // the static side absorbs the projection, when there is one
        assert(acc2.1.directives == f.statics@.directives) by {
            if crate::legacy::directive::is_static_convertible(d) {
                let k = choose|k: int|
                    0 <= k < f.statics@.directives.len() && cmp_static(
                        #[trigger] f.statics@.directives[k],
                        to_static(d),
                    ) == Ord3::Equal;
                lemma_static_insert_absorb(acc.1.directives, to_static(d), k);
            }
        }
        // the dynamic side inserts the member
        lemma_dyn_insert_sorted(acc.0.directives, d);
        lemma_dyn_insert_keeps(acc.0.directives, d);
        assert(m.contains(d));
        assert forall|x: DynDirectiveV| acc2.0.directives.contains(x) implies m.contains(x) by {
            let ii = choose|ii: int|
                0 <= ii < acc2.0.directives.len() && acc2.0.directives[ii] == x;
        }
        lemma_fold_phase_dynamics(f, i + 1, acc2);
        let r = fold_tables(acc, m.skip(i));
        assert(r == fold_tables(acc2, m.skip(i + 1)));
        assert forall|j: int| i <= j < m.len() implies exists|e: DynDirectiveV|
            r.0.directives.contains(e) && cmp_dyn(e, #[trigger] m[j]) == Ord3::Equal by {
            if j == i {
                let e = choose|e: DynDirectiveV|
                    #[trigger] acc2.0.directives.contains(e) && cmp_dyn(e, d) == Ord3::Equal;
                assert(r.0.directives.contains(e));
                assert(r.0.directives.contains(e) && cmp_dyn(e, m[j]) == Ord3::Equal);
            }
        }
    }
}

/// The round-trip law: a filter's canonical text, parsed and compiled
/// again, rebuilds exactly the same static and dynamic directives, and
/// reports nothing ignored.
pub proof fn lemma_filter_roundtrip(f: &Filter)
    requires
        rt_wf_filter(f),
    ensures
        spec_tables(spec_directives(display_filter(f))).0.directives == f.dynamics@.directives,
        spec_tables(spec_directives(display_filter(f))).1.directives == f.statics@.directives,
        spec_ignored(display_filter(f)) =~= Seq::<IgnoredDirectiveV>::empty(),
{
    lemma_display_reparses_directives(f);
    let ss = f.statics@.directives;
    let m = f.dynamics@.directives;
    let l = ss.map_values(|st: StaticDirectiveV| lift_static(st));
    let ds = reread_directives(f);
    assert(ds =~= l + m) by {
        assert(m.map_values(|d: DynDirectiveV| d) =~= m);
    }
    let t0 = (empty_dynamics(), empty_statics());
    lemma_fold_tables_append(t0, l, m);
    assert(l.skip(0) =~= l);
    assert(ss.take(0) =~= Seq::<StaticDirectiveV>::empty());
    lemma_fold_phase_statics(f, 0, t0);
    let r1 = fold_tables(t0, l);
    assert(m.skip(0) =~= m);
    lemma_fold_phase_dynamics(f, 0, r1);
    let r2 = fold_tables(r1, m);
    assert(fold_tables(t0, ds) == r2);
    // the dynamic members come back exactly
    assert forall|e: DynDirectiveV| r2.0.directives.contains(e) <==> m.contains(e) by {
        if m.contains(e) {
            let j = choose|j: int| 0 <= j < m.len() && m[j] == e;
            let w = choose|w: DynDirectiveV|
                r2.0.directives.contains(w) && cmp_dyn(w, #[trigger] m[j]) == Ord3::Equal;
            assert(m.contains(w));
            let a = choose|a: int| 0 <= a < m.len() && m[a] == w;
            assert(w == e) by {
                if a < j {
                    assert(cmp_dyn(m[a], m[j]) == Ord3::Greater);
                } else if a > j {
                    assert(cmp_dyn(m[j], m[a]) == Ord3::Greater);
                    lemma_cmp_dyn_flip(m[j], m[a]);
                }
            }
            assert(r2.0.directives.contains(e));
        }
    }
    lemma_dyn_sorted_unique(r2.0.directives, m);
    // nothing was retained only when the filter held nothing: excluded
    assert(r2.0.directives.len() + r2.1.directives.len() > 0);
    assert(spec_tables(spec_directives(display_filter(f))) == r2);
}

} // verus!
