//! Value matchers: the predicates a directive may attach to a span's
//! fields, and the per-callsite / per-span runtime match state.

use vstd::prelude::*;

use crate::level::Level;
use crate::order::{chain, cmp_bool, cmp_chars, cmp_int, flip, Ord3};

verus! {

use crate::order::str_compare;

broadcast use vstd::seq::Seq::lemma_push_map_commute, vstd::seq::Seq::lemma_map_take_succ;

/// What an unanchored pattern match against some input text returns.
///
/// Stands for the result of compiling the pattern with
/// `matchers::Pattern::from_str` and running `Pattern::matches` on the
/// input: a function of the two texts alone. A pattern that does not
/// compile matches nothing.
pub uninterp spec fn pat_match(pattern: Seq<char>, input: Seq<char>) -> bool;

/// Whether a pattern text compiles as a pattern.
///
/// Stands for `matchers::Pattern::from_str` succeeding on the text:
/// a function of the text alone.
pub uninterp spec fn pat_ok(pattern: Seq<char>) -> bool;

/// The text of the compile error a pattern text provokes.
///
/// Stands for the display text of the error `matchers::Pattern::from_str`
/// returns: a function of the pattern text alone.
pub uninterp spec fn pat_error_text(pattern: Seq<char>) -> Seq<char>;

/// Relies on `matchers::Pattern::from_str`: `None` exactly when the
/// pattern text compiles, else the compile error's text.
#[verifier::external_body]
pub(crate) fn compile_pattern_error(pattern: &str) -> (r: Option<String>)
    ensures
        (r is None) == pat_ok(pattern@),
        r is Some ==> r->Some_0@ == pat_error_text(pattern@),
{
    match pattern.parse::<matchers::Pattern>() {
        Ok(_) => None,
        Err(e) => Some(format!("{}", e)),
    }
}

/// Relies on `matchers::Pattern::from_str` and `matchers::Pattern::matches`:
/// whether the unanchored pattern matches the input text; `false` when the
/// pattern does not compile. The result depends on the two texts alone.
#[verifier::external_body]
pub(crate) fn pattern_matches(pattern: &str, input: &str) -> (r: bool)
    ensures
        r == pat_match(pattern@, input@),
{
    match pattern.parse::<matchers::Pattern>() {
        Ok(p) => p.matches(&input),
        Err(_) => false,
    }
}

/// One predicate over a field's value.
///
/// A floating-point literal is held as its text: its recognition is part
/// of the value grammar, while its numeric reading is no business of the
/// directive language (a matched value is compared through its canonical
/// text). `NaN` matches exactly the not-a-number values.
#[derive(Debug, PartialEq, Eq)]
pub enum ValueMatch {
    Bool(bool),
    F64(String),
    NaN,
    U64(u64),
    I64(i64),
    Pat(String),
}

/// The mathematical value of a [`ValueMatch`].
#[verifier::ext_equal]
pub enum ValueMatchV {
    Bool(bool),
    F64(Seq<char>),
    NaN,
    U64(u64),
    I64(i64),
    Pat(Seq<char>),
}

impl View for ValueMatch {
    type V = ValueMatchV;

    open spec fn view(&self) -> ValueMatchV {
        match self {
            ValueMatch::Bool(b) => ValueMatchV::Bool(*b),
            ValueMatch::F64(s) => ValueMatchV::F64(s@),
            ValueMatch::NaN => ValueMatchV::NaN,
            ValueMatch::U64(n) => ValueMatchV::U64(*n),
            ValueMatch::I64(n) => ValueMatchV::I64(*n),
            ValueMatch::Pat(s) => ValueMatchV::Pat(s@),
        }
    }
}

impl Clone for ValueMatch {
    fn clone(&self) -> (r: Self)
        ensures
            r@ == self@,
    {
        match self {
            ValueMatch::Bool(b) => ValueMatch::Bool(*b),
            ValueMatch::F64(s) => ValueMatch::F64(s.clone()),
            ValueMatch::NaN => ValueMatch::NaN,
            ValueMatch::U64(n) => ValueMatch::U64(*n),
            ValueMatch::I64(n) => ValueMatch::I64(*n),
            ValueMatch::Pat(s) => ValueMatch::Pat(s.clone()),
        }
    }
}

/// The rank of a value matcher's shape in the storage order:
/// `Bool < F64 < NaN < U64 < I64 < Pat`.
pub open spec fn value_rank(v: ValueMatchV) -> int {
    match v {
        ValueMatchV::Bool(_) => 0,
        ValueMatchV::F64(_) => 1,
        ValueMatchV::NaN => 2,
        ValueMatchV::U64(_) => 3,
        ValueMatchV::I64(_) => 4,
        ValueMatchV::Pat(_) => 5,
    }
}

/// The storage order on value matchers: by shape, ties broken by payload.
pub open spec fn cmp_value(a: ValueMatchV, b: ValueMatchV) -> Ord3 {
    match (a, b) {
        (ValueMatchV::Bool(x), ValueMatchV::Bool(y)) => cmp_bool(x, y),
        (ValueMatchV::F64(x), ValueMatchV::F64(y)) => cmp_chars(x, y),
        (ValueMatchV::NaN, ValueMatchV::NaN) => Ord3::Equal,
        (ValueMatchV::U64(x), ValueMatchV::U64(y)) => cmp_int(x as int, y as int),
        (ValueMatchV::I64(x), ValueMatchV::I64(y)) => cmp_int(x as int, y as int),
        (ValueMatchV::Pat(x), ValueMatchV::Pat(y)) => cmp_chars(x, y),
        _ => cmp_int(value_rank(a), value_rank(b)),
    }
}

pub proof fn lemma_cmp_value_refl(a: ValueMatchV)
    ensures
        cmp_value(a, a) == Ord3::Equal,
{
    match a {
        ValueMatchV::F64(x) => crate::order::lemma_cmp_chars_refl(x),
        ValueMatchV::Pat(x) => crate::order::lemma_cmp_chars_refl(x),
        _ => {},
    }
}

pub proof fn lemma_cmp_value_equal(a: ValueMatchV, b: ValueMatchV)
    requires
        cmp_value(a, b) == Ord3::Equal,
    ensures
        a == b,
{
    match (a, b) {
        (ValueMatchV::F64(x), ValueMatchV::F64(y)) => {
            crate::order::lemma_cmp_chars_equal(x, y);
            assert(a =~= b);
        },
        (ValueMatchV::Pat(x), ValueMatchV::Pat(y)) => {
            crate::order::lemma_cmp_chars_equal(x, y);
            assert(a =~= b);
        },
        _ => {},
    }
}

pub proof fn lemma_cmp_value_flip(a: ValueMatchV, b: ValueMatchV)
    ensures
        cmp_value(a, b) == flip(cmp_value(b, a)),
{
    match (a, b) {
        (ValueMatchV::F64(x), ValueMatchV::F64(y)) => crate::order::lemma_cmp_chars_flip(x, y),
        (ValueMatchV::Pat(x), ValueMatchV::Pat(y)) => crate::order::lemma_cmp_chars_flip(x, y),
        _ => {},
    }
}

pub proof fn lemma_cmp_value_trans(a: ValueMatchV, b: ValueMatchV, c: ValueMatchV)
    requires
        cmp_value(a, b) == Ord3::Greater,
        cmp_value(b, c) == Ord3::Greater,
    ensures
        cmp_value(a, c) == Ord3::Greater,
{
    match (a, b, c) {
        (ValueMatchV::F64(x), ValueMatchV::F64(y), ValueMatchV::F64(z)) => {
            crate::order::lemma_cmp_chars_trans(x, y, z);
        },
        (ValueMatchV::Pat(x), ValueMatchV::Pat(y), ValueMatchV::Pat(z)) => {
            crate::order::lemma_cmp_chars_trans(x, y, z);
        },
        _ => {},
    }
}

/// One field predicate of a directive: a field name, and optionally a
/// value the field must match (no value means the field need only exist).
#[derive(Debug, PartialEq, Eq)]
pub struct FieldMatch {
    pub name: String,
    pub value: Option<ValueMatch>,
}

/// The mathematical value of a [`FieldMatch`].
#[verifier::ext_equal]
pub struct FieldMatchV {
    pub name: Seq<char>,
    pub value: Option<ValueMatchV>,
}

impl View for FieldMatch {
    type V = FieldMatchV;

    open spec fn view(&self) -> FieldMatchV {
        FieldMatchV {
            name: self.name@,
            value: match &self.value {
                Option::None => None,
                Option::Some(v) => Some(v@),
            },
        }
    }
}

impl Clone for FieldMatch {
    fn clone(&self) -> (r: Self)
        ensures
            r@ == self@,
    {
        FieldMatch {
            name: self.name.clone(),
            value: match &self.value {
                Option::None => None,
                Option::Some(v) => Some(v.clone()),
            },
        }
    }
}

/// The storage order on field predicates: a predicate that matches a value
/// orders after one that only requires presence; ties are broken by name,
/// then by the value matcher.
pub open spec fn cmp_field(a: FieldMatchV, b: FieldMatchV) -> Ord3 {
    chain(
        cmp_bool(a.value is Some, b.value is Some),
        chain(
            cmp_chars(a.name, b.name),
            match (a.value, b.value) {
                (Option::Some(x), Option::Some(y)) => cmp_value(x, y),
                _ => Ord3::Equal,
            },
        ),
    )
}

pub proof fn lemma_cmp_field_refl(a: FieldMatchV)
    ensures
        cmp_field(a, a) == Ord3::Equal,
{
    crate::order::lemma_cmp_chars_refl(a.name);
    if a.value is Some {
        lemma_cmp_value_refl(a.value->Some_0);
    }
}

pub proof fn lemma_cmp_field_equal(a: FieldMatchV, b: FieldMatchV)
    requires
        cmp_field(a, b) == Ord3::Equal,
    ensures
        a == b,
{
    crate::order::lemma_cmp_chars_equal(a.name, b.name);
    match (a.value, b.value) {
        (Option::Some(x), Option::Some(y)) => {
            lemma_cmp_value_equal(x, y);
            assert(a =~= b);
        },
        _ => {
            assert(a =~= b);
        },
    }
}

pub proof fn lemma_cmp_field_flip(a: FieldMatchV, b: FieldMatchV)
    ensures
        cmp_field(a, b) == flip(cmp_field(b, a)),
{
    crate::order::lemma_cmp_chars_flip(a.name, b.name);
    match (a.value, b.value) {
        (Option::Some(x), Option::Some(y)) => lemma_cmp_value_flip(x, y),
        _ => {},
    }
}

pub proof fn lemma_cmp_field_trans(a: FieldMatchV, b: FieldMatchV, c: FieldMatchV)
    requires
        cmp_field(a, b) == Ord3::Greater,
        cmp_field(b, c) == Ord3::Greater,
    ensures
        cmp_field(a, c) == Ord3::Greater,
{
    lemma_cmp_field_equal_parts(a, b);
    lemma_cmp_field_equal_parts(b, c);
    lemma_cmp_field_equal_parts(a, c);
    if cmp_chars(a.name, b.name) == Ord3::Greater && cmp_chars(b.name, c.name) == Ord3::Greater {
        crate::order::lemma_cmp_chars_trans(a.name, b.name, c.name);
    }
    if cmp_chars(a.name, b.name) == Ord3::Equal {
        crate::order::lemma_cmp_chars_equal(a.name, b.name);
    }
    if cmp_chars(b.name, c.name) == Ord3::Equal {
        crate::order::lemma_cmp_chars_equal(b.name, c.name);
    }
    match (a.value, b.value, c.value) {
        (Option::Some(x), Option::Some(y), Option::Some(z)) => {
            if cmp_value(x, y) == Ord3::Greater && cmp_value(y, z) == Ord3::Greater {
                lemma_cmp_value_trans(x, y, z);
            }
            if cmp_value(x, y) == Ord3::Equal {
                lemma_cmp_value_equal(x, y);
            }
            if cmp_value(y, z) == Ord3::Equal {
                lemma_cmp_value_equal(y, z);
            }
        },
        _ => {},
    }
}

/// Helper: nothing to prove, but naming the sub-comparisons helps the
/// case analysis in the transitivity proof.
proof fn lemma_cmp_field_equal_parts(a: FieldMatchV, b: FieldMatchV)
    ensures
        cmp_field(a, b) == chain(
            cmp_bool(a.value is Some, b.value is Some),
            chain(
                cmp_chars(a.name, b.name),
                match (a.value, b.value) {
                    (Option::Some(x), Option::Some(y)) => cmp_value(x, y),
                    _ => Ord3::Equal,
                },
            ),
        ),
{
}

/// Lexicographic order on field predicate lists.
pub open spec fn cmp_fields(a: Seq<FieldMatchV>, b: Seq<FieldMatchV>) -> Ord3
    decreases a.len(),
{
    if a.len() == 0 && b.len() == 0 {
        Ord3::Equal
    } else if a.len() == 0 {
        Ord3::Less
    } else if b.len() == 0 {
        Ord3::Greater
    } else if cmp_field(a[0], b[0]) == Ord3::Equal {
        cmp_fields(a.drop_first(), b.drop_first())
    } else {
        cmp_field(a[0], b[0])
    }
}

pub proof fn lemma_cmp_fields_refl(a: Seq<FieldMatchV>)
    ensures
        cmp_fields(a, a) == Ord3::Equal,
    decreases a.len(),
{
    if a.len() > 0 {
        lemma_cmp_field_refl(a[0]);
        lemma_cmp_fields_refl(a.drop_first());
    }
}

pub proof fn lemma_cmp_fields_equal(a: Seq<FieldMatchV>, b: Seq<FieldMatchV>)
    requires
        cmp_fields(a, b) == Ord3::Equal,
    ensures
        a =~= b,
    decreases a.len(),
{
    if a.len() > 0 && b.len() > 0 {
        lemma_cmp_field_equal(a[0], b[0]);
        lemma_cmp_fields_equal(a.drop_first(), b.drop_first());
        assert(a =~= seq![a[0]] + a.drop_first());
        assert(b =~= seq![b[0]] + b.drop_first());
    }
}

pub proof fn lemma_cmp_fields_flip(a: Seq<FieldMatchV>, b: Seq<FieldMatchV>)
    ensures
        cmp_fields(a, b) == flip(cmp_fields(b, a)),
    decreases a.len(),
{
    if a.len() > 0 && b.len() > 0 {
        lemma_cmp_field_flip(a[0], b[0]);
        if cmp_field(a[0], b[0]) == Ord3::Equal {
            lemma_cmp_fields_flip(a.drop_first(), b.drop_first());
        }
    }
}

pub proof fn lemma_cmp_fields_trans(a: Seq<FieldMatchV>, b: Seq<FieldMatchV>, c: Seq<FieldMatchV>)
    requires
        cmp_fields(a, b) == Ord3::Greater,
        cmp_fields(b, c) == Ord3::Greater,
    ensures
        cmp_fields(a, c) == Ord3::Greater,
    decreases a.len(),
{
    if b.len() == 0 {
        assert(false);
    } else if a.len() > 0 && c.len() > 0 {
        if cmp_field(a[0], b[0]) == Ord3::Equal {
            lemma_cmp_field_equal(a[0], b[0]);
        }
        if cmp_field(b[0], c[0]) == Ord3::Equal {
            lemma_cmp_field_equal(b[0], c[0]);
        }
        if cmp_field(a[0], b[0]) == Ord3::Greater && cmp_field(b[0], c[0]) == Ord3::Greater {
            lemma_cmp_field_trans(a[0], b[0], c[0]);
        }
        if cmp_field(a[0], b[0]) == Ord3::Equal && cmp_field(b[0], c[0]) == Ord3::Equal {
            lemma_cmp_fields_trans(a.drop_first(), b.drop_first(), c.drop_first());
        }
    }
}

} // verus!

// === executable comparators ===

verus! {

/// Three-way comparison of two value matchers in the storage order.
pub fn value_compare(a: &ValueMatch, b: &ValueMatch) -> (r: Ord3)
    ensures
        r == cmp_value(a@, b@),
{
    match (a, b) {
        (ValueMatch::Bool(x), ValueMatch::Bool(y)) => match (x, y) {
            (false, true) => Ord3::Less,
            (true, false) => Ord3::Greater,
            _ => Ord3::Equal,
        },
        (ValueMatch::F64(x), ValueMatch::F64(y)) => str_compare(x.as_str(), y.as_str()),
        (ValueMatch::NaN, ValueMatch::NaN) => Ord3::Equal,
        (ValueMatch::U64(x), ValueMatch::U64(y)) => {
            if x < y {
                Ord3::Less
            } else if x == y {
                Ord3::Equal
            } else {
                Ord3::Greater
            }
        },
        (ValueMatch::I64(x), ValueMatch::I64(y)) => {
            if x < y {
                Ord3::Less
            } else if x == y {
                Ord3::Equal
            } else {
                Ord3::Greater
            }
        },
        (ValueMatch::Pat(x), ValueMatch::Pat(y)) => str_compare(x.as_str(), y.as_str()),
        _ => {
            let ra = value_rank_index(a);
            let rb = value_rank_index(b);
            if ra < rb {
                Ord3::Less
            } else if ra == rb {
                Ord3::Equal
            } else {
                Ord3::Greater
            }
        },
    }
}

fn value_rank_index(v: &ValueMatch) -> (r: u8)
    ensures
        r as int == value_rank(v@),
{
    match v {
        ValueMatch::Bool(_) => 0,
        ValueMatch::F64(_) => 1,
        ValueMatch::NaN => 2,
        ValueMatch::U64(_) => 3,
        ValueMatch::I64(_) => 4,
        ValueMatch::Pat(_) => 5,
    }
}

/// Three-way comparison of two field predicates in the storage order.
pub fn field_compare(a: &FieldMatch, b: &FieldMatch) -> (r: Ord3)
    ensures
        r == cmp_field(a@, b@),
{
    let has = match (&a.value, &b.value) {
        (Option::None, Option::Some(_)) => Ord3::Less,
        (Option::Some(_), Option::None) => Ord3::Greater,
        _ => Ord3::Equal,
    };
    if !matches!(has, Ord3::Equal) {
        return has;
    }
    let names = str_compare(a.name.as_str(), b.name.as_str());
    if !matches!(names, Ord3::Equal) {
        return names;
    }
    match (&a.value, &b.value) {
        (Option::Some(x), Option::Some(y)) => value_compare(x, y),
        _ => Ord3::Equal,
    }
}

/// The views of a field predicate list.
pub open spec fn fields_v(s: Seq<FieldMatch>) -> Seq<FieldMatchV> {
    s.map_values(|f: FieldMatch| f@)
}

/// Three-way comparison of two field predicate lists.
pub fn fields_compare(a: &Vec<FieldMatch>, b: &Vec<FieldMatch>) -> (r: Ord3)
    ensures
        r == cmp_fields(fields_v(a@), fields_v(b@)),
{
    let mut i: usize = 0;
    proof {
        assert(fields_v(a@).skip(0) =~= fields_v(a@));
        assert(fields_v(b@).skip(0) =~= fields_v(b@));
    }
    while i < a.len() && i < b.len()
        invariant
            i <= a.len(),
            i <= b.len(),
            cmp_fields(fields_v(a@), fields_v(b@)) == cmp_fields(
                fields_v(a@).skip(i as int),
                fields_v(b@).skip(i as int),
            ),
        decreases a.len() - i,
    {
        let c = field_compare(&a[i], &b[i]);
        proof {
            assert(fields_v(a@).skip(i as int)[0] == fields_v(a@)[i as int]);
            assert(fields_v(b@).skip(i as int)[0] == fields_v(b@)[i as int]);
        }
        if !matches!(c, Ord3::Equal) {
            return c;
        }
        proof {
            assert(fields_v(a@).skip(i + 1) =~= fields_v(a@).skip(i as int).drop_first());
            assert(fields_v(b@).skip(i + 1) =~= fields_v(b@).skip(i as int).drop_first());
        }
        i = i + 1;
    }
    proof {
        if a.len() == b.len() {
            assert(fields_v(a@).skip(i as int) =~= Seq::<FieldMatchV>::empty());
            assert(fields_v(b@).skip(i as int) =~= Seq::<FieldMatchV>::empty());
        }
    }
    if a.len() == b.len() {
        Ord3::Equal
    } else if i == a.len() {
        Ord3::Less
    } else {
        Ord3::Greater
    }
}

} // verus!

// === recorded field values and the runtime match state ===

verus! {

/// A value the host records for a span's field, as a plain datum: a
/// floating-point value arrives as its canonical display text together
/// with whether it is a not-a-number value; a value without a more
/// specific shape arrives as its debug-formatted text.
#[derive(Debug, PartialEq)]
pub enum FieldValue {
    Bool(bool),
    I64(i64),
    U64(u64),
    Float { text: String, is_nan: bool },
    Str(String),
    Debugged(String),
}

/// The mathematical value of a [`FieldValue`].
#[verifier::ext_equal]
pub enum FieldValueV {
    Bool(bool),
    I64(i64),
    U64(u64),
    Float { text: Seq<char>, is_nan: bool },
    Str(Seq<char>),
    Debugged(Seq<char>),
}

impl View for FieldValue {
    type V = FieldValueV;

    open spec fn view(&self) -> FieldValueV {
        match self {
            FieldValue::Bool(b) => FieldValueV::Bool(*b),
            FieldValue::I64(n) => FieldValueV::I64(*n),
            FieldValue::U64(n) => FieldValueV::U64(*n),
            FieldValue::Float { text, is_nan } => FieldValueV::Float {
                text: text@,
                is_nan: *is_nan,
            },
            FieldValue::Str(s) => FieldValueV::Str(s@),
            FieldValue::Debugged(s) => FieldValueV::Debugged(s@),
        }
    }
}

/// Whether a recorded value satisfies a value matcher. Each recorded
/// shape is tested only against the matcher shapes that can speak about
/// it: a boolean against `Bool`, a float against `F64` and `NaN`, a
/// signed integer against `I64` and `U64`, an unsigned integer against
/// `U64`, and a text against `Pat`.
pub open spec fn value_satisfies(m: ValueMatchV, v: FieldValueV) -> bool {
    match (m, v) {
        (ValueMatchV::Bool(e), FieldValueV::Bool(x)) => x == e,
        (ValueMatchV::NaN, FieldValueV::Float { is_nan, .. }) => is_nan,
        (ValueMatchV::F64(t), FieldValueV::Float { text, is_nan }) => !is_nan && text == t,
        (ValueMatchV::U64(e), FieldValueV::U64(x)) => x == e,
        (ValueMatchV::U64(e), FieldValueV::I64(x)) => 0 <= x && x as int == e as int,
        (ValueMatchV::I64(e), FieldValueV::I64(x)) => x == e,
        (ValueMatchV::Pat(p), FieldValueV::Str(s)) => pat_match(p, s),
        (ValueMatchV::Pat(p), FieldValueV::Debugged(s)) => pat_match(p, s),
        _ => false,
    }
}

/// Whether a recorded value satisfies a value matcher.
pub fn matches_value(m: &ValueMatch, v: &FieldValue) -> (r: bool)
    ensures
        r == value_satisfies(m@, v@),
{
    match (m, v) {
        (ValueMatch::Bool(e), FieldValue::Bool(x)) => *x == *e,
        (ValueMatch::NaN, FieldValue::Float { is_nan, .. }) => *is_nan,
        (ValueMatch::F64(t), FieldValue::Float { text, is_nan }) => !*is_nan && *text == *t,
        (ValueMatch::U64(e), FieldValue::U64(x)) => *x == *e,
        (ValueMatch::U64(e), FieldValue::I64(x)) => {
            *x >= 0 && *e <= i64::MAX as u64 && *x as u64 == *e
        },
        (ValueMatch::I64(e), FieldValue::I64(x)) => *x == *e,
        (ValueMatch::Pat(p), FieldValue::Str(s)) => pattern_matches(p.as_str(), s.as_str()),
        (ValueMatch::Pat(p), FieldValue::Debugged(s)) => pattern_matches(p.as_str(), s.as_str()),
        _ => false,
    }
}

/// One matcher compiled for a callsite from one matching dynamic
/// directive: the value predicates to check once spans of the callsite
/// record their fields, and the level the directive enables.
#[derive(Debug)]
pub struct CallsiteMatch {
    pub fields: Vec<(String, ValueMatch)>,
    pub level: Level,
}

/// The mathematical value of a [`CallsiteMatch`].
#[verifier::ext_equal]
pub struct CallsiteMatchV {
    pub fields: Seq<(Seq<char>, ValueMatchV)>,
    pub level: Level,
}

pub open spec fn pairs_v(s: Seq<(String, ValueMatch)>) -> Seq<(Seq<char>, ValueMatchV)> {
    s.map_values(|p: (String, ValueMatch)| (p.0@, p.1@))
}

impl View for CallsiteMatch {
    type V = CallsiteMatchV;

    open spec fn view(&self) -> CallsiteMatchV {
        CallsiteMatchV { fields: pairs_v(self.fields@), level: self.level }
    }
}

/// All matchers compiled for one callsite, with the base level enabled
/// for its spans when no field-bearing matcher is satisfied.
#[derive(Debug)]
pub struct CallsiteMatcher {
    pub fields: Vec<CallsiteMatch>,
    pub base_level: Level,
}

/// The mathematical value of a [`CallsiteMatcher`].
#[verifier::ext_equal]
pub struct CallsiteMatcherV {
    pub fields: Seq<CallsiteMatchV>,
    pub base_level: Level,
}

pub open spec fn callsite_matches_v(s: Seq<CallsiteMatch>) -> Seq<CallsiteMatchV> {
    s.map_values(|m: CallsiteMatch| m@)
}

impl View for CallsiteMatcher {
    type V = CallsiteMatcherV;

    open spec fn view(&self) -> CallsiteMatcherV {
        CallsiteMatcherV { fields: callsite_matches_v(self.fields@), base_level: self.base_level }
    }
}

/// The live state of one field predicate of one span instance: sticky,
/// the flag is only ever raised.
#[derive(Debug)]
pub struct FieldState {
    pub name: String,
    pub matcher: ValueMatch,
    pub satisfied: bool,
}

/// The mathematical value of a [`FieldState`].
#[verifier::ext_equal]
pub struct FieldStateV {
    pub name: Seq<char>,
    pub matcher: ValueMatchV,
    pub satisfied: bool,
}

impl View for FieldState {
    type V = FieldStateV;

    open spec fn view(&self) -> FieldStateV {
        FieldStateV { name: self.name@, matcher: self.matcher@, satisfied: self.satisfied }
    }
}

/// The live state of one compiled matcher for one span instance.
#[derive(Debug)]
pub struct SpanMatch {
    pub fields: Vec<FieldState>,
    pub level: Level,
    pub matched: bool,
}

/// The mathematical value of a [`SpanMatch`].
#[verifier::ext_equal]
pub struct SpanMatchV {
    pub fields: Seq<FieldStateV>,
    pub level: Level,
    pub matched: bool,
}

pub open spec fn field_states_v(s: Seq<FieldState>) -> Seq<FieldStateV> {
    s.map_values(|f: FieldState| f@)
}

impl View for SpanMatch {
    type V = SpanMatchV;

    open spec fn view(&self) -> SpanMatchV {
        SpanMatchV {
            fields: field_states_v(self.fields@),
            level: self.level,
            matched: self.matched,
        }
    }
}

/// The live state of all compiled matchers for one span instance.
#[derive(Debug)]
pub struct SpanMatcher {
    pub fields: Vec<SpanMatch>,
    pub base_level: Level,
}

/// The mathematical value of a [`SpanMatcher`].
#[verifier::ext_equal]
pub struct SpanMatcherV {
    pub fields: Seq<SpanMatchV>,
    pub base_level: Level,
}

pub open spec fn span_matches_v(s: Seq<SpanMatch>) -> Seq<SpanMatchV> {
    s.map_values(|m: SpanMatch| m@)
}

impl View for SpanMatcher {
    type V = SpanMatcherV;

    open spec fn view(&self) -> SpanMatcherV {
        SpanMatcherV { fields: span_matches_v(self.fields@), base_level: self.base_level }
    }
}

// === the record protocol ===

/// Recording a value for one field state: the flag is raised when the
/// names agree and the value satisfies the matcher; it is never cleared.
pub open spec fn record_field_state(fs: FieldStateV, name: Seq<char>, v: FieldValueV)
    -> FieldStateV {
    FieldStateV {
        satisfied: fs.satisfied || (fs.name == name && value_satisfies(fs.matcher, v)),
        ..fs
    }
}

/// Recording a value across one span matcher's field states.
pub open spec fn record_span_match(m: SpanMatchV, name: Seq<char>, v: FieldValueV) -> SpanMatchV {
    SpanMatchV {
        fields: m.fields.map_values(|fs: FieldStateV| record_field_state(fs, name, v)),
        ..m
    }
}

/// Recording a list of name/value pairs, first pair first.
pub open spec fn record_values_span_match(m: SpanMatchV, values: Seq<(Seq<char>, FieldValueV)>)
    -> SpanMatchV
    decreases values.len(),
{
    if values.len() == 0 {
        m
    } else {
        record_values_span_match(
            record_span_match(m, values[0].0, values[0].1),
            values.drop_first(),
        )
    }
}

/// Whether every field predicate of the matcher has been satisfied.
pub open spec fn all_satisfied(m: SpanMatchV) -> bool {
    forall|i: int| 0 <= i < m.fields.len() ==> #[trigger] m.fields[i].satisfied
}

/// The cached "fully satisfied" flag may only say what the field flags
/// show: it is sound to trust it when set.
pub open spec fn wf_span_match(m: SpanMatchV) -> bool {
    m.matched ==> all_satisfied(m)
}

pub open spec fn wf_span_matcher(m: SpanMatcherV) -> bool {
    forall|i: int| 0 <= i < m.fields.len() ==> wf_span_match(#[trigger] m.fields[i])
}

/// A span matcher after one enablement check: each entry's cached flag
/// now reflects its field flags.
pub open spec fn checked_span_match(m: SpanMatchV) -> SpanMatchV {
    SpanMatchV { matched: all_satisfied(m), ..m }
}

pub open spec fn checked_span_matcher(m: SpanMatcherV) -> SpanMatcherV {
    SpanMatcherV { fields: m.fields.map_values(|e: SpanMatchV| checked_span_match(e)), ..m }
}

/// The level the span matcher currently enables: the most verbose level
/// among entries whose predicates are all satisfied, else the base level.
pub open spec fn max_satisfied_level(fields: Seq<SpanMatchV>) -> Option<Level>
    decreases fields.len(),
{
    if fields.len() == 0 {
        None
    } else {
        let rest = max_satisfied_level(fields.drop_first());
        if all_satisfied(fields[0]) {
            match rest {
                Option::None => Some(fields[0].level),
                Option::Some(l) => Some(fields[0].level.spec_max(l)),
            }
        } else {
            rest
        }
    }
}

pub open spec fn span_level(m: SpanMatcherV) -> Level {
    match max_satisfied_level(m.fields) {
        Option::None => m.base_level,
        Option::Some(l) => l,
    }
}

impl SpanMatch {
    /// Record one field value: a satisfied predicate stays satisfied
    /// whatever is recorded later.
    pub fn record(&mut self, name: &String, value: &FieldValue)
        ensures
            final(self)@ == record_span_match(old(self)@, name@, value@),
    {
        let ghost orig = self@;
        let n = self.fields.len();
        let mut i: usize = 0;
        while i < n
            invariant
                n == self.fields.len(),
                i <= n,
                self.level == orig.level,
                self.matched == orig.matched,
                orig.fields == field_states_v(old(self).fields@),
                forall|k: int|
                    0 <= k < i ==> field_states_v(self.fields@)[k] == record_field_state(
                        orig.fields[k],
                        name@,
                        value@,
                    ),
                forall|k: int| i <= k < n ==> field_states_v(self.fields@)[k] == orig.fields[k],
            decreases n - i,
        {
            let ghost before = self.fields@;
            proof {
                assert(field_states_v(before)[i as int] == before[i as int]@);
            }
            let name_eq = self.fields[i].name == *name;
            let sat = matches_value(&self.fields[i].matcher, value);
            let new_sat = self.fields[i].satisfied || (name_eq && sat);
            self.fields[i].satisfied = new_sat;
            proof {
                assert(self.fields@ =~= before.update(i as int, self.fields@[i as int]));
                assert(self.fields@[i as int]@ =~= record_field_state(
                    orig.fields[i as int],
                    name@,
                    value@,
                ));
                assert(forall|k: int|
                    0 <= k < n && k != i ==> self.fields@[k] == before[k]);
                assert(forall|k: int|
                    0 <= k < n ==> field_states_v(self.fields@)[k] == self.fields@[k]@);
                assert(forall|k: int|
                    0 <= k < n ==> field_states_v(before)[k] == before[k]@);
                assert forall|k: int| 0 <= k < i + 1 implies field_states_v(self.fields@)[k]
                    == record_field_state(orig.fields[k], name@, value@) by {
                    if k < i {
                        assert(field_states_v(before)[k] == record_field_state(
                            orig.fields[k],
                            name@,
                            value@,
                        ));
                        assert(self.fields@[k] == before[k]);
                    }
                }
            }
            i = i + 1;
        }
        proof {
            assert(final(self)@.fields =~= record_span_match(orig, name@, value@).fields);
            assert(final(self)@ =~= record_span_match(orig, name@, value@));
        }
    }

    /// Whether every predicate is satisfied, through the cached flag: a
    /// set flag short-circuits; a clear one triggers a full re-scan, and
    /// the flag is set when the scan succeeds.
    pub fn check_matched(&mut self) -> (r: bool)
        requires
            wf_span_match(old(self)@),
        ensures
            r == all_satisfied(old(self)@),
            final(self)@ == checked_span_match(old(self)@),
            wf_span_match(final(self)@),
    {
        if self.matched {
            proof {
                assert(self@ =~= checked_span_match(self@));
            }
            return true;
        }
        let n = self.fields.len();
        let mut i: usize = 0;
        while i < n
            invariant
                n == self.fields.len(),
                self.fields@ == old(self).fields@,
                self.level == old(self).level,
                self.matched == old(self).matched,
                !self.matched,
                i <= n,
                forall|k: int| 0 <= k < i ==> #[trigger] old(self)@.fields[k].satisfied,
            decreases n - i,
        {
            proof {
                assert(old(self)@.fields[i as int] == old(self).fields@[i as int]@);
            }
            if !self.fields[i].satisfied {
                proof {
                    assert(!old(self)@.fields[i as int].satisfied);
                    assert(!all_satisfied(old(self)@));
                    assert(final(self)@ =~= checked_span_match(old(self)@));
                }
                return false;
            }
            i = i + 1;
        }
        self.matched = true;
        proof {
            assert(all_satisfied(old(self)@));
            assert(final(self)@ =~= checked_span_match(old(self)@));
        }
        true
    }
}

} // verus!

// === span matcher lifecycle ===

verus! {

/// Recording a value across all of a span's live matchers.
pub open spec fn record_span_matcher(m: SpanMatcherV, name: Seq<char>, v: FieldValueV)
    -> SpanMatcherV {
    SpanMatcherV { fields: m.fields.map_values(|e: SpanMatchV| record_span_match(e, name, v)), ..m }
}

/// The views of a recorded name/value list.
pub open spec fn vals_v(s: Seq<(String, FieldValue)>) -> Seq<(Seq<char>, FieldValueV)> {
    s.map_values(|p: (String, FieldValue)| (p.0@, p.1@))
}

/// A fresh live matcher for one compiled matcher: no predicate satisfied.
pub open spec fn new_span_match(cm: CallsiteMatchV) -> SpanMatchV {
    SpanMatchV {
        fields: cm.fields.map_values(
            |p: (Seq<char>, ValueMatchV)| FieldStateV { name: p.0, matcher: p.1, satisfied: false },
        ),
        level: cm.level,
        matched: false,
    }
}

/// The live matchers for a new span: fresh states seeded with the span's
/// initial field values.
pub open spec fn new_span_matcher(cm: CallsiteMatcherV, values: Seq<(Seq<char>, FieldValueV)>)
    -> SpanMatcherV {
    SpanMatcherV {
        fields: cm.fields.map_values(
            |c: CallsiteMatchV| record_values_span_match(new_span_match(c), values),
        ),
        base_level: cm.base_level,
    }
}

/// Recording values does not move the cached flag, the level, or which
/// predicates are present: only the satisfied flags, and only upward.
pub proof fn lemma_record_values_shape(m: SpanMatchV, values: Seq<(Seq<char>, FieldValueV)>)
    ensures
        record_values_span_match(m, values).matched == m.matched,
        record_values_span_match(m, values).level == m.level,
        record_values_span_match(m, values).fields.len() == m.fields.len(),
        forall|i: int|
            0 <= i < m.fields.len() ==> {
                let after = #[trigger] record_values_span_match(m, values).fields[i];
                after.name == m.fields[i].name && after.matcher == m.fields[i].matcher && (
                m.fields[i].satisfied ==> after.satisfied)
            },
    decreases values.len(),
{
    if values.len() > 0 {
        lemma_record_values_shape(record_span_match(m, values[0].0, values[0].1),
            values.drop_first());
    }
}

/// A satisfied predicate stays satisfied under any later recording.
pub proof fn lemma_record_is_sticky(m: SpanMatchV, name: Seq<char>, v: FieldValueV)
    ensures
        forall|i: int|
            0 <= i < m.fields.len() && m.fields[i].satisfied
                ==> #[trigger] record_span_match(m, name, v).fields[i].satisfied,
{
}

/// Recording preserves the soundness of the cached flag.
pub proof fn lemma_record_preserves_wf(m: SpanMatchV, name: Seq<char>, v: FieldValueV)
    requires
        wf_span_match(m),
    ensures
        wf_span_match(record_span_match(m, name, v)),
{
    if m.matched {
        assert forall|i: int|
            0 <= i < record_span_match(m, name, v).fields.len() implies #[trigger] record_span_match(
            m,
            name,
            v,
        ).fields[i].satisfied by {
            assert(m.fields[i].satisfied);
        }
    }
}

impl CallsiteMatch {
    /// A fresh live matcher for a new span of this callsite.
    pub fn to_span_match(&self) -> (r: SpanMatch)
        ensures
            r@ == new_span_match(self@),
    {
        let mut fields: Vec<FieldState> = Vec::new();
        let n = self.fields.len();
        let mut i: usize = 0;
        while i < n
            invariant
                n == self.fields.len(),
                i <= n,
                field_states_v(fields@) =~= new_span_match(self@).fields.take(i as int),
            decreases n - i,
        {
            let name = self.fields[i].0.clone();
            let matcher = self.fields[i].1.clone();
            fields.push(FieldState { name, matcher, satisfied: false });
            proof {
                assert(field_states_v(fields@) =~= new_span_match(self@).fields.take(i + 1));
            }
            i = i + 1;
        }
        let r = SpanMatch { fields, level: self.level, matched: false };
        proof {
            assert(new_span_match(self@).fields.take(n as int) =~= new_span_match(self@).fields);
            assert(r@ =~= new_span_match(self@));
        }
        r
    }
}

impl SpanMatch {
    /// Record a list of name/value pairs in order.
    pub fn record_all(&mut self, values: &Vec<(String, FieldValue)>)
        ensures
            final(self)@ == record_values_span_match(old(self)@, vals_v(values@)),
    {
        let n = values.len();
        let mut j: usize = 0;
        proof {
            assert(vals_v(values@).skip(0) =~= vals_v(values@));
        }
        while j < n
            invariant
                n == values.len(),
                j <= n,
                record_values_span_match(self@, vals_v(values@).skip(j as int))
                    == record_values_span_match(old(self)@, vals_v(values@)),
            decreases n - j,
        {
            let ghost pre = self@;
            proof {
                assert(vals_v(values@).skip(j as int)[0] == vals_v(values@)[j as int]);
                assert(vals_v(values@).skip(j as int).drop_first() =~= vals_v(values@).skip(
                    j + 1,
                ));
            }
            self.record(&values[j].0, &values[j].1);
            j = j + 1;
        }
        proof {
            assert(vals_v(values@).skip(n as int) =~= Seq::<(Seq<char>, FieldValueV)>::empty());
        }
    }
}

impl CallsiteMatcher {
    /// The live matchers for a new span of this callsite, seeded with the
    /// span's initial field values.
    pub fn to_span_matcher(&self, values: &Vec<(String, FieldValue)>) -> (r: SpanMatcher)
        ensures
            r@ == new_span_matcher(self@, vals_v(values@)),
            wf_span_matcher(r@),
    {
        let mut fields: Vec<SpanMatch> = Vec::new();
        let n = self.fields.len();
        let mut i: usize = 0;
        while i < n
            invariant
                n == self.fields.len(),
                i <= n,
                span_matches_v(fields@) =~= new_span_matcher(self@, vals_v(values@)).fields.take(
                    i as int,
                ),
            decreases n - i,
        {
            let mut m = self.fields[i].to_span_match();
            m.record_all(values);
            fields.push(m);
            proof {
                assert(callsite_matches_v(self.fields@)[i as int] == self.fields@[i as int]@);
                assert(span_matches_v(fields@) =~= new_span_matcher(self@, vals_v(values@))
                    .fields.take(i + 1));
            }
            i = i + 1;
        }
        let r = SpanMatcher { fields, base_level: self.base_level };
        proof {
            let target = new_span_matcher(self@, vals_v(values@));
            assert(target.fields.take(n as int) =~= target.fields);
            assert(r@ =~= target);
            assert forall|k: int| 0 <= k < r@.fields.len() implies wf_span_match(
                #[trigger] r@.fields[k],
            ) by {
                let c = self@.fields[k];
                lemma_record_values_shape(new_span_match(c), vals_v(values@));
            }
        }
        r
    }
}

/// The more verbose of two optional levels, an absent one counting least.
pub open spec fn opt_level_max(a: Option<Level>, b: Option<Level>) -> Option<Level> {
    match (a, b) {
        (Option::None, r) => r,
        (l, Option::None) => l,
        (Option::Some(x), Option::Some(y)) => Some(x.spec_max(y)),
    }
}

impl SpanMatcher {
    /// The level this span currently enables: the most verbose level among
    /// entries whose predicates all hold, else the base level. Each entry's
    /// cached flag is refreshed along the way.
    pub fn level(&mut self) -> (r: Level)
        requires
            wf_span_matcher(old(self)@),
        ensures
            r == span_level(old(self)@),
            final(self)@ == checked_span_matcher(old(self)@),
            wf_span_matcher(final(self)@),
    {
        let ghost orig = old(self)@;
        let n = self.fields.len();
        let mut best: Option<Level> = None;
        let mut i: usize = 0;
        proof {
            assert(orig.fields.skip(0) =~= orig.fields);
        }
        let mut out: Vec<SpanMatch> = Vec::new();
        // check entries one by one, rebuilding the vector so each cached
        // flag is refreshed exactly once
        while i < n
            invariant
                n == self.fields.len(),
                i <= n,
                self.base_level == orig.base_level,
                span_matches_v(self.fields@) == orig.fields,
                wf_span_matcher(orig),
                opt_level_max(best, max_satisfied_level(orig.fields.skip(i as int)))
                    == max_satisfied_level(orig.fields),
                span_matches_v(out@) =~= checked_span_matcher(orig).fields.take(i as int),
            decreases n - i,
        {
            proof {
                assert(span_matches_v(self.fields@)[i as int] == self.fields@[i as int]@);
                assert(orig.fields.skip(i as int)[0] == orig.fields[i as int]);
                assert(orig.fields.skip(i as int).drop_first() =~= orig.fields.skip(i + 1));
            }
            let mut entry = self.fields[i].clone_state();
            let sat = entry.check_matched();
            if sat {
                let lvl = entry.level;
                best = match best {
                    Option::None => Some(lvl),
                    Option::Some(b) => Some(lvl.max(b)),
                };
            }
            out.push(entry);
            proof {
                assert(span_matches_v(out@) =~= checked_span_matcher(orig).fields.take(i + 1));
            }
            i = i + 1;
        }
        self.fields = out;
        proof {
            assert(orig.fields.skip(n as int) =~= Seq::<SpanMatchV>::empty());
            assert(final(self)@ =~= checked_span_matcher(orig)) by {
                assert(checked_span_matcher(orig).fields.take(n as int) =~= checked_span_matcher(
                    orig,
                ).fields);
            }
        }
        match best {
            Option::None => self.base_level,
            Option::Some(l) => l,
        }
    }

    /// Record one field value across all live matchers.
    pub fn record_update(&mut self, name: &String, value: &FieldValue)
        ensures
            final(self)@ == record_span_matcher(old(self)@, name@, value@),
            wf_span_matcher(old(self)@) ==> wf_span_matcher(final(self)@),
    {
        let ghost orig = old(self)@;
        let n = self.fields.len();
        let mut i: usize = 0;
        while i < n
            invariant
                n == self.fields.len(),
                i <= n,
                self.base_level == orig.base_level,
                orig.fields == span_matches_v(old(self).fields@),
                forall|k: int|
                    0 <= k < i ==> span_matches_v(self.fields@)[k] == record_span_match(
                        orig.fields[k],
                        name@,
                        value@,
                    ),
                forall|k: int| i <= k < n ==> span_matches_v(self.fields@)[k] == orig.fields[k],
            decreases n - i,
        {
            let ghost before = self.fields@;
            proof {
                assert(span_matches_v(before)[i as int] == before[i as int]@);
            }
            let mut entry = self.fields[i].clone_state();
            entry.record(name, value);
            self.fields[i] = entry;
            proof {
                assert(self.fields@ =~= before.update(i as int, self.fields@[i as int]));
                assert(self.fields@[i as int]@ =~= record_span_match(
                    orig.fields[i as int],
                    name@,
                    value@,
                ));
                assert(forall|k: int|
                    0 <= k < n && k != i ==> self.fields@[k] == before[k]);
                assert(forall|k: int|
                    0 <= k < n ==> span_matches_v(self.fields@)[k] == self.fields@[k]@);
                assert(forall|k: int|
                    0 <= k < n ==> span_matches_v(before)[k] == before[k]@);
                assert forall|k: int| 0 <= k < i + 1 implies span_matches_v(self.fields@)[k]
                    == record_span_match(orig.fields[k], name@, value@) by {
                    if k < i {
                        assert(span_matches_v(before)[k] == record_span_match(
                            orig.fields[k],
                            name@,
                            value@,
                        ));
                        assert(self.fields@[k] == before[k]);
                    }
                }
            }
            i = i + 1;
        }
        proof {
            assert(final(self)@.fields =~= record_span_matcher(orig, name@, value@).fields);
            assert(final(self)@ =~= record_span_matcher(orig, name@, value@));
            if wf_span_matcher(orig) {
                assert forall|k: int| 0 <= k < final(self)@.fields.len() implies wf_span_match(
                    #[trigger] final(self)@.fields[k],
                ) by {
                    lemma_record_preserves_wf(orig.fields[k], name@, value@);
                }
            }
        }
    }
}

impl SpanMatch {
    /// An identical copy of this live matcher state.
    pub fn clone_state(&self) -> (r: SpanMatch)
        ensures
            r@ == self@,
    {
        let mut fields: Vec<FieldState> = Vec::new();
        let n = self.fields.len();
        let mut i: usize = 0;
        while i < n
            invariant
                n == self.fields.len(),
                i <= n,
                field_states_v(fields@) =~= field_states_v(self.fields@).take(i as int),
            decreases n - i,
        {
            proof {
                assert(field_states_v(self.fields@)[i as int] == self.fields@[i as int]@);
            }
            fields.push(
                FieldState {
                    name: self.fields[i].name.clone(),
                    matcher: self.fields[i].matcher.clone(),
                    satisfied: self.fields[i].satisfied,
                },
            );
            proof {
                assert(field_states_v(fields@) =~= field_states_v(self.fields@).take(i + 1));
            }
            i = i + 1;
        }
        let r = SpanMatch { fields, level: self.level, matched: self.matched };
        proof {
            assert(field_states_v(self.fields@).take(n as int) =~= field_states_v(self.fields@));
            assert(r@ =~= self@);
        }
        r
    }
}

} // verus!

// === the texts a value literal may take ===

verus! {

use crate::chars::{digit_run_end, eq_ignore_case, spec_parse_i64, spec_parse_u64};

/// The text with one leading sign removed.
pub open spec fn strip_sign(s: Seq<char>) -> Seq<char> {
    if s.len() > 0 && (s[0] == '+' || s[0] == '-') {
        s.drop_first()
    } else {
        s
    }
}

/// The texts that read as a boolean.
pub open spec fn is_bool_text(s: Seq<char>) -> bool {
    s == seq!['t', 'r', 'u', 'e'] || s == seq!['f', 'a', 'l', 's', 'e']
}

/// The texts that read as a not-a-number value.
pub open spec fn is_nan_text(s: Seq<char>) -> bool {
    eq_ignore_case(strip_sign(s), seq!['n', 'a', 'n'])
}

/// A decimal floating-point body: digits around at most one point,
/// with at least one digit, and an optional exponent with at least one
/// digit.
pub open spec fn is_decimal_body(b: Seq<char>) -> bool {
    let i1 = digit_run_end(b, 0);
    if i1 < b.len() && b[i1] == '.' {
        let i2 = digit_run_end(b, i1 + 1);
        (i1 > 0 || i2 > i1 + 1) && exponent_ok(b, i2)
    } else {
        i1 > 0 && exponent_ok(b, i1)
    }
}

/// From `i` on, either nothing, or `e`/`E`, an optional sign, and at
/// least one digit reaching the end.
pub open spec fn exponent_ok(b: Seq<char>, i: int) -> bool {
    if i == b.len() {
        true
    } else if 0 <= i < b.len() && (b[i] == 'e' || b[i] == 'E') {
        let j = if i + 1 < b.len() && (b[i + 1] == '+' || b[i + 1] == '-') {
            i + 2
        } else {
            i + 1
        };
        j < b.len() && digit_run_end(b, j) == b.len()
    } else {
        false
    }
}

/// The texts that read as a floating-point value: a sign, then an
/// infinity word, a not-a-number word, or a decimal body.
pub open spec fn is_float_text(s: Seq<char>) -> bool {
    let b = strip_sign(s);
    b.len() > 0 && (eq_ignore_case(b, seq!['i', 'n', 'f']) || eq_ignore_case(
        b,
        seq!['i', 'n', 'f', 'i', 'n', 'i', 't', 'y'],
    ) || eq_ignore_case(b, seq!['n', 'a', 'n']) || is_decimal_body(b))
}

/// How a field value literal reads, first shape that fits wins:
/// a boolean, an unsigned integer, a signed integer, a float (the
/// not-a-number texts become the `NaN` matcher), else a pattern —
/// which must compile, or the literal is rejected.
pub open spec fn classify_value(s: Seq<char>) -> Option<ValueMatchV> {
    if is_bool_text(s) {
        Some(ValueMatchV::Bool(s == seq!['t', 'r', 'u', 'e']))
    } else if spec_parse_u64(s) is Some {
        Some(ValueMatchV::U64(spec_parse_u64(s)->Some_0))
    } else if spec_parse_i64(s) is Some {
        Some(ValueMatchV::I64(spec_parse_i64(s)->Some_0))
    } else if is_float_text(s) {
        if is_nan_text(s) {
            Some(ValueMatchV::NaN)
        } else {
            Some(ValueMatchV::F64(s))
        }
    } else if pat_ok(s) {
        Some(ValueMatchV::Pat(s))
    } else {
        None
    }
}

} // verus!

// === canonical text ===

verus! {

use crate::chars::{dec_digits, i64_text, push_char, push_i64_text, push_u64_text};
use vstd::string::StringExecFns;

/// The canonical text of a value matcher. A stored float or pattern
/// renders as the text it was written as; `NaN` renders as the standard
/// not-a-number text.
pub open spec fn display_value(v: ValueMatchV) -> Seq<char> {
    match v {
        ValueMatchV::Bool(b) => if b {
            seq!['t', 'r', 'u', 'e']
        } else {
            seq!['f', 'a', 'l', 's', 'e']
        },
        ValueMatchV::F64(t) => t,
        ValueMatchV::NaN => seq!['N', 'a', 'N'],
        ValueMatchV::U64(n) => dec_digits(n as int),
        ValueMatchV::I64(n) => i64_text(n as int),
        ValueMatchV::Pat(p) => p,
    }
}

/// The canonical text of a field predicate: the name, and `=value`
/// when a value is matched.
pub open spec fn display_field(f: FieldMatchV) -> Seq<char> {
    match f.value {
        Option::None => f.name,
        Option::Some(v) => f.name + seq!['='] + display_value(v),
    }
}

impl ValueMatch {
    /// Append this matcher's canonical text.
    pub fn push_display(&self, out: &mut String)
        ensures
            final(out)@ == old(out)@ + display_value(self@),
    {
        match self {
            ValueMatch::Bool(b) => {
                if *b {
                    out.append("true");
                    proof {
                        reveal_strlit("true");
                        assert(old(out)@ + "true"@ =~= old(out)@ + display_value(self@));
                    }
                } else {
                    out.append("false");
                    proof {
                        reveal_strlit("false");
                        assert(old(out)@ + "false"@ =~= old(out)@ + display_value(self@));
                    }
                }
            },
            ValueMatch::F64(t) => {
                out.append(t.as_str());
            },
            ValueMatch::NaN => {
                out.append("NaN");
                proof {
                    reveal_strlit("NaN");
                    assert(old(out)@ + "NaN"@ =~= old(out)@ + display_value(self@));
                }
            },
            ValueMatch::U64(n) => {
                push_u64_text(out, *n);
            },
            ValueMatch::I64(n) => {
                push_i64_text(out, *n);
            },
            ValueMatch::Pat(p) => {
                out.append(p.as_str());
            },
        }
    }
}

impl FieldMatch {
    /// Append this predicate's canonical text.
    pub fn push_display(&self, out: &mut String)
        ensures
            final(out)@ == old(out)@ + display_field(self@),
    {
        out.append(self.name.as_str());
        if let Option::Some(v) = &self.value {
            push_char(out, '=');
            v.push_display(out);
            proof {
                assert(old(out)@ + self.name@ + seq!['='] + display_value(v@) =~= old(out)@
                    + display_field(self@));
            }
        }
    }
}

} // verus!
