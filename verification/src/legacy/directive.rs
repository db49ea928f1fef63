//! Directives and the specificity-ordered directive sets.

use vstd::prelude::*;

use crate::level::Level;
use crate::legacy::matcher::{
    cmp_fields, fields_v, FieldMatch, FieldMatchV,
};
use crate::order::{
    chain, cmp_bool, cmp_chars, cmp_int, cmp_opt_chars, cmp_opt_len, flip, opt_str_view, Ord3,
};

verus! {

use crate::order::{opt_len_compare, opt_str_compare, str_compare};
use crate::legacy::matcher::fields_compare;

broadcast use vstd::seq::Seq::lemma_push_map_commute, vstd::seq::Seq::lemma_map_take_succ;

/// One filter rule: an optional target prefix, an optional span name, a
/// list of field predicates, and the level the rule enables. A directive
/// with a span name or any field predicate is *dynamic*: it can only be
/// fully decided once spans are created and record their fields.
#[derive(Debug, PartialEq, Eq)]
pub struct DynamicDirective {
    pub span: Option<String>,
    pub fields: Vec<FieldMatch>,
    pub target: Option<String>,
    pub level: Level,
}

/// The mathematical value of a [`DynamicDirective`].
#[verifier::ext_equal]
pub struct DynDirectiveV {
    pub span: Option<Seq<char>>,
    pub fields: Seq<FieldMatchV>,
    pub target: Option<Seq<char>>,
    pub level: Level,
}

impl View for DynamicDirective {
    type V = DynDirectiveV;

    open spec fn view(&self) -> DynDirectiveV {
        DynDirectiveV {
            span: opt_str_view(self.span),
            fields: fields_v(self.fields@),
            target: opt_str_view(self.target),
            level: self.level,
        }
    }
}

impl Clone for DynamicDirective {
    fn clone(&self) -> (r: Self)
        ensures
            r@ == self@,
    {
        let mut fields: Vec<FieldMatch> = Vec::new();
        let n = self.fields.len();
        let mut i: usize = 0;
        while i < n
            invariant
                n == self.fields.len(),
                i <= n,
                fields_v(fields@) =~= fields_v(self.fields@).take(i as int),
            decreases n - i,
        {
            fields.push(self.fields[i].clone());
            i = i + 1;
        }
        let r = DynamicDirective {
            span: clone_opt_string(&self.span),
            fields,
            target: clone_opt_string(&self.target),
            level: self.level,
        };
        proof {
            assert(fields_v(self.fields@).take(n as int) =~= fields_v(self.fields@));
            assert(r@ =~= self@);
        }
        r
    }
}

/// A directive already resolvable from a code site alone: a target
/// prefix, field names that need only be present, and a level.
#[derive(Debug, PartialEq, Eq)]
pub struct StaticDirective {
    pub target: Option<String>,
    pub fields: Vec<String>,
    pub level: Level,
}

/// The mathematical value of a [`StaticDirective`].
#[verifier::ext_equal]
pub struct StaticDirectiveV {
    pub target: Option<Seq<char>>,
    pub fields: Seq<Seq<char>>,
    pub level: Level,
}

pub open spec fn names_v(s: Seq<String>) -> Seq<Seq<char>> {
    s.map_values(|n: String| n@)
}

impl View for StaticDirective {
    type V = StaticDirectiveV;

    open spec fn view(&self) -> StaticDirectiveV {
        StaticDirectiveV {
            target: opt_str_view(self.target),
            fields: names_v(self.fields@),
            level: self.level,
        }
    }
}

impl Clone for StaticDirective {
    fn clone(&self) -> (r: Self)
        ensures
            r@ == self@,
    {
        let mut fields: Vec<String> = Vec::new();
        let n = self.fields.len();
        let mut i: usize = 0;
        while i < n
            invariant
                n == self.fields.len(),
                i <= n,
                names_v(fields@) =~= names_v(self.fields@).take(i as int),
            decreases n - i,
        {
            fields.push(self.fields[i].clone());
            i = i + 1;
        }
        let r = StaticDirective {
            target: clone_opt_string(&self.target),
            fields,
            level: self.level,
        };
        proof {
            assert(names_v(self.fields@).take(n as int) =~= names_v(self.fields@));
            assert(r@ =~= self@);
        }
        r
    }
}

pub(crate) fn clone_opt_string(o: &Option<String>) -> (r: Option<String>)
    ensures
        opt_str_view(r) == opt_str_view(*o),
        r is Some <==> o is Some,
{
    match o {
        Option::None => None,
        Option::Some(s) => Some(s.clone()),
    }
}

// === the specificity order ===

/// The specificity order on dynamic directives, most specific greatest:
/// longer target first (an absent target counting least), then presence
/// of a span name, then more field predicates, with ties broken by the
/// texts so that the order is total.
pub open spec fn cmp_dyn(a: DynDirectiveV, b: DynDirectiveV) -> Ord3 {
    chain(
        cmp_opt_len(a.target, b.target),
        chain(
            cmp_bool(a.span is Some, b.span is Some),
            chain(
                cmp_int(a.fields.len() as int, b.fields.len() as int),
                chain(
                    cmp_opt_chars(a.target, b.target),
                    chain(cmp_opt_chars(a.span, b.span), cmp_fields(a.fields, b.fields)),
                ),
            ),
        ),
    )
}

/// The specificity order on static directives: longer target first, then
/// more field names, with ties broken by the texts.
pub open spec fn cmp_static(a: StaticDirectiveV, b: StaticDirectiveV) -> Ord3 {
    chain(
        cmp_opt_len(a.target, b.target),
        chain(
            cmp_int(a.fields.len() as int, b.fields.len() as int),
            chain(cmp_opt_chars(a.target, b.target), cmp_names(a.fields, b.fields)),
        ),
    )
}

/// Lexicographic order on field name lists.
pub open spec fn cmp_names(a: Seq<Seq<char>>, b: Seq<Seq<char>>) -> Ord3
    decreases a.len(),
{
    if a.len() == 0 && b.len() == 0 {
        Ord3::Equal
    } else if a.len() == 0 {
        Ord3::Less
    } else if b.len() == 0 {
        Ord3::Greater
    } else if cmp_chars(a[0], b[0]) == Ord3::Equal {
        cmp_names(a.drop_first(), b.drop_first())
    } else {
        cmp_chars(a[0], b[0])
    }
}

pub proof fn lemma_cmp_names_refl(a: Seq<Seq<char>>)
    ensures
        cmp_names(a, a) == Ord3::Equal,
    decreases a.len(),
{
    if a.len() > 0 {
        crate::order::lemma_cmp_chars_refl(a[0]);
        lemma_cmp_names_refl(a.drop_first());
    }
}

pub proof fn lemma_cmp_names_equal(a: Seq<Seq<char>>, b: Seq<Seq<char>>)
    requires
        cmp_names(a, b) == Ord3::Equal,
    ensures
        a =~= b,
    decreases a.len(),
{
    if a.len() > 0 && b.len() > 0 {
        crate::order::lemma_cmp_chars_equal(a[0], b[0]);
        lemma_cmp_names_equal(a.drop_first(), b.drop_first());
        assert(a =~= seq![a[0]] + a.drop_first());
        assert(b =~= seq![b[0]] + b.drop_first());
    }
}

pub proof fn lemma_cmp_names_flip(a: Seq<Seq<char>>, b: Seq<Seq<char>>)
    ensures
        cmp_names(a, b) == flip(cmp_names(b, a)),
    decreases a.len(),
{
    if a.len() > 0 && b.len() > 0 {
        crate::order::lemma_cmp_chars_flip(a[0], b[0]);
        if cmp_chars(a[0], b[0]) == Ord3::Equal {
            lemma_cmp_names_flip(a.drop_first(), b.drop_first());
        }
    }
}

pub proof fn lemma_cmp_names_trans(a: Seq<Seq<char>>, b: Seq<Seq<char>>, c: Seq<Seq<char>>)
    requires
        cmp_names(a, b) == Ord3::Greater,
        cmp_names(b, c) == Ord3::Greater,
    ensures
        cmp_names(a, c) == Ord3::Greater,
    decreases a.len(),
{
    if b.len() == 0 {
        assert(false);
    } else if a.len() > 0 && c.len() > 0 {
        if cmp_chars(a[0], b[0]) == Ord3::Equal {
            crate::order::lemma_cmp_chars_equal(a[0], b[0]);
        }
        if cmp_chars(b[0], c[0]) == Ord3::Equal {
            crate::order::lemma_cmp_chars_equal(b[0], c[0]);
        }
        if cmp_chars(a[0], b[0]) == Ord3::Greater && cmp_chars(b[0], c[0]) == Ord3::Greater {
            crate::order::lemma_cmp_chars_trans(a[0], b[0], c[0]);
        }
        if cmp_chars(a[0], c[0]) == Ord3::Equal {
            lemma_cmp_names_trans(a.drop_first(), b.drop_first(), c.drop_first());
        }
    }
}

// === laws of the specificity order ===

pub proof fn lemma_cmp_dyn_refl(a: DynDirectiveV)
    ensures
        cmp_dyn(a, a) == Ord3::Equal,
{
    crate::order::lemma_cmp_opt_chars_refl(a.target);
    crate::order::lemma_cmp_opt_chars_refl(a.span);
    crate::legacy::matcher::lemma_cmp_fields_refl(a.fields);
}

/// Two dynamic directives that the specificity order cannot tell apart
/// are identical in target, span name and field predicates. (The level
/// takes no part in the order: of two rules that differ only in level,
/// a set keeps the one inserted first.)
pub proof fn lemma_cmp_dyn_equal(a: DynDirectiveV, b: DynDirectiveV)
    requires
        cmp_dyn(a, b) == Ord3::Equal,
    ensures
        a.target == b.target,
        a.span == b.span,
        a.fields =~= b.fields,
{
    crate::order::lemma_cmp_opt_chars_equal(a.target, b.target);
    crate::order::lemma_cmp_opt_chars_equal(a.span, b.span);
    crate::legacy::matcher::lemma_cmp_fields_equal(a.fields, b.fields);
}

pub proof fn lemma_cmp_dyn_flip(a: DynDirectiveV, b: DynDirectiveV)
    ensures
        cmp_dyn(a, b) == flip(cmp_dyn(b, a)),
{
    crate::order::lemma_cmp_opt_chars_flip(a.target, b.target);
    crate::order::lemma_cmp_opt_chars_flip(a.span, b.span);
    crate::legacy::matcher::lemma_cmp_fields_flip(a.fields, b.fields);
}

pub proof fn lemma_cmp_dyn_trans(a: DynDirectiveV, b: DynDirectiveV, c: DynDirectiveV)
    requires
        cmp_dyn(a, b) == Ord3::Greater,
        cmp_dyn(b, c) == Ord3::Greater,
    ensures
        cmp_dyn(a, c) == Ord3::Greater,
{
    if cmp_opt_chars(a.target, b.target) == Ord3::Equal {
        crate::order::lemma_cmp_opt_chars_equal(a.target, b.target);
    }
    if cmp_opt_chars(b.target, c.target) == Ord3::Equal {
        crate::order::lemma_cmp_opt_chars_equal(b.target, c.target);
    }
    if cmp_opt_chars(a.target, b.target) == Ord3::Greater && cmp_opt_chars(b.target, c.target)
        == Ord3::Greater {
        crate::order::lemma_cmp_opt_chars_trans(a.target, b.target, c.target);
    }
    if cmp_opt_chars(a.span, b.span) == Ord3::Equal {
        crate::order::lemma_cmp_opt_chars_equal(a.span, b.span);
    }
    if cmp_opt_chars(b.span, c.span) == Ord3::Equal {
        crate::order::lemma_cmp_opt_chars_equal(b.span, c.span);
    }
    if cmp_opt_chars(a.span, b.span) == Ord3::Greater && cmp_opt_chars(b.span, c.span)
        == Ord3::Greater {
        crate::order::lemma_cmp_opt_chars_trans(a.span, b.span, c.span);
    }
    if cmp_fields(a.fields, b.fields) == Ord3::Equal {
        crate::legacy::matcher::lemma_cmp_fields_equal(a.fields, b.fields);
    }
    if cmp_fields(b.fields, c.fields) == Ord3::Equal {
        crate::legacy::matcher::lemma_cmp_fields_equal(b.fields, c.fields);
    }
    if cmp_fields(a.fields, b.fields) == Ord3::Greater && cmp_fields(b.fields, c.fields)
        == Ord3::Greater {
        crate::legacy::matcher::lemma_cmp_fields_trans(a.fields, b.fields, c.fields);
    }
}

pub proof fn lemma_cmp_static_refl(a: StaticDirectiveV)
    ensures
        cmp_static(a, a) == Ord3::Equal,
{
    crate::order::lemma_cmp_opt_chars_refl(a.target);
    lemma_cmp_names_refl(a.fields);
}

/// Two static directives that the specificity order cannot tell apart
/// are identical in target and field names. (The level takes no part in
/// the order.)
pub proof fn lemma_cmp_static_equal(a: StaticDirectiveV, b: StaticDirectiveV)
    requires
        cmp_static(a, b) == Ord3::Equal,
    ensures
        a.target == b.target,
        a.fields =~= b.fields,
{
    crate::order::lemma_cmp_opt_chars_equal(a.target, b.target);
    lemma_cmp_names_equal(a.fields, b.fields);
}

pub proof fn lemma_cmp_static_flip(a: StaticDirectiveV, b: StaticDirectiveV)
    ensures
        cmp_static(a, b) == flip(cmp_static(b, a)),
{
    crate::order::lemma_cmp_opt_chars_flip(a.target, b.target);
    lemma_cmp_names_flip(a.fields, b.fields);
}

pub proof fn lemma_cmp_static_trans(a: StaticDirectiveV, b: StaticDirectiveV, c: StaticDirectiveV)
    requires
        cmp_static(a, b) == Ord3::Greater,
        cmp_static(b, c) == Ord3::Greater,
    ensures
        cmp_static(a, c) == Ord3::Greater,
{
    if cmp_opt_chars(a.target, b.target) == Ord3::Equal {
        crate::order::lemma_cmp_opt_chars_equal(a.target, b.target);
    }
    if cmp_opt_chars(b.target, c.target) == Ord3::Equal {
        crate::order::lemma_cmp_opt_chars_equal(b.target, c.target);
    }
    if cmp_opt_chars(a.target, b.target) == Ord3::Greater && cmp_opt_chars(b.target, c.target)
        == Ord3::Greater {
        crate::order::lemma_cmp_opt_chars_trans(a.target, b.target, c.target);
    }
    if cmp_names(a.fields, b.fields) == Ord3::Equal {
        lemma_cmp_names_equal(a.fields, b.fields);
    }
    if cmp_names(b.fields, c.fields) == Ord3::Equal {
        lemma_cmp_names_equal(b.fields, c.fields);
    }
    if cmp_names(a.fields, b.fields) == Ord3::Greater && cmp_names(b.fields, c.fields)
        == Ord3::Greater {
        lemma_cmp_names_trans(a.fields, b.fields, c.fields);
    }
}

// === executable comparisons ===

/// Three-way comparison of two dynamic directives by specificity.
pub fn dyn_compare(a: &DynamicDirective, b: &DynamicDirective) -> (r: Ord3)
    ensures
        r == cmp_dyn(a@, b@),
{
    let c = opt_len_compare(&a.target, &b.target);
    if !matches!(c, Ord3::Equal) {
        return c;
    }
    let c = match (&a.span, &b.span) {
        (Option::None, Option::Some(_)) => Ord3::Less,
        (Option::Some(_), Option::None) => Ord3::Greater,
        _ => Ord3::Equal,
    };
    if !matches!(c, Ord3::Equal) {
        return c;
    }
    let c = if a.fields.len() < b.fields.len() {
        Ord3::Less
    } else if a.fields.len() == b.fields.len() {
        Ord3::Equal
    } else {
        Ord3::Greater
    };
    if !matches!(c, Ord3::Equal) {
        return c;
    }
    let c = opt_str_compare(&a.target, &b.target);
    if !matches!(c, Ord3::Equal) {
        return c;
    }
    let c = opt_str_compare(&a.span, &b.span);
    if !matches!(c, Ord3::Equal) {
        return c;
    }
    fields_compare(&a.fields, &b.fields)
}

/// Three-way comparison of two static directives by specificity.
pub fn static_compare(a: &StaticDirective, b: &StaticDirective) -> (r: Ord3)
    ensures
        r == cmp_static(a@, b@),
{
    let c = opt_len_compare(&a.target, &b.target);
    if !matches!(c, Ord3::Equal) {
        return c;
    }
    let c = if a.fields.len() < b.fields.len() {
        Ord3::Less
    } else if a.fields.len() == b.fields.len() {
        Ord3::Equal
    } else {
        Ord3::Greater
    };
    if !matches!(c, Ord3::Equal) {
        return c;
    }
    let c = opt_str_compare(&a.target, &b.target);
    if !matches!(c, Ord3::Equal) {
        return c;
    }
    names_compare(&a.fields, &b.fields)
}

/// Three-way comparison of two field name lists.
fn names_compare(a: &Vec<String>, b: &Vec<String>) -> (r: Ord3)
    ensures
        r == cmp_names(names_v(a@), names_v(b@)),
{
    let mut i: usize = 0;
    proof {
        assert(names_v(a@).skip(0) =~= names_v(a@));
        assert(names_v(b@).skip(0) =~= names_v(b@));
    }
    while i < a.len() && i < b.len()
        invariant
            i <= a.len(),
            i <= b.len(),
            cmp_names(names_v(a@), names_v(b@)) == cmp_names(
                names_v(a@).skip(i as int),
                names_v(b@).skip(i as int),
            ),
        decreases a.len() - i,
    {
        let c = str_compare(a[i].as_str(), b[i].as_str());
        proof {
            assert(names_v(a@).skip(i as int)[0] == names_v(a@)[i as int]);
            assert(names_v(b@).skip(i as int)[0] == names_v(b@)[i as int]);
        }
        if !matches!(c, Ord3::Equal) {
            return c;
        }
        proof {
            assert(names_v(a@).skip(i + 1) =~= names_v(a@).skip(i as int).drop_first());
            assert(names_v(b@).skip(i + 1) =~= names_v(b@).skip(i as int).drop_first());
        }
        i = i + 1;
    }
    proof {
        if a.len() == b.len() {
            assert(names_v(a@).skip(i as int) =~= Seq::<Seq<char>>::empty());
            assert(names_v(b@).skip(i as int) =~= Seq::<Seq<char>>::empty());
        }
    }
    if a.len() == b.len() {
        Ord3::Equal
    } else if i == a.len() {
        Ord3::Less
    } else {
        Ord3::Greater
    }
}

} // verus!

// === the directive sets ===

verus! {

/// The dynamic directives of a filter, held most specific first, with
/// the most verbose level any of them (ever) asked for.
#[derive(Debug, PartialEq, Eq)]
pub struct Dynamics {
    pub directives: Vec<DynamicDirective>,
    pub level: Level,
}

/// The mathematical value of [`Dynamics`].
#[verifier::ext_equal]
pub struct DynamicsV {
    pub directives: Seq<DynDirectiveV>,
    pub level: Level,
}

pub open spec fn dyns_v(s: Seq<DynamicDirective>) -> Seq<DynDirectiveV> {
    s.map_values(|d: DynamicDirective| d@)
}

impl View for Dynamics {
    type V = DynamicsV;

    open spec fn view(&self) -> DynamicsV {
        DynamicsV { directives: dyns_v(self.directives@), level: self.level }
    }
}

/// The static directives of a filter, held most specific first, with
/// the most verbose level any of them (ever) asked for.
#[derive(Debug, PartialEq, Eq)]
pub struct Statics {
    pub directives: Vec<StaticDirective>,
    pub level: Level,
}

/// The mathematical value of [`Statics`].
#[verifier::ext_equal]
pub struct StaticsV {
    pub directives: Seq<StaticDirectiveV>,
    pub level: Level,
}

pub open spec fn stats_v(s: Seq<StaticDirective>) -> Seq<StaticDirectiveV> {
    s.map_values(|d: StaticDirective| d@)
}

impl View for Statics {
    type V = StaticsV;

    open spec fn view(&self) -> StaticsV {
        StaticsV { directives: stats_v(self.directives@), level: self.level }
    }
}

/// Strictly ordered, most specific first: this is what makes "first
/// match wins" mean "most specific match wins", and it rules out two
/// directives the order cannot tell apart.
pub open spec fn dyn_sorted(s: Seq<DynDirectiveV>) -> bool {
    forall|i: int, j: int| 0 <= i < j < s.len() ==> cmp_dyn(s[i], s[j]) == Ord3::Greater
}

pub open spec fn static_sorted(s: Seq<StaticDirectiveV>) -> bool {
    forall|i: int, j: int| 0 <= i < j < s.len() ==> cmp_static(s[i], s[j]) == Ord3::Greater
}

/// The set's level bounds every member's level: the aggregate may only
/// say "something here could be this verbose".
pub open spec fn wf_dynamics(v: DynamicsV) -> bool {
    dyn_sorted(v.directives) && (forall|i: int|
        0 <= i < v.directives.len() ==> (#[trigger] v.directives[i]).level.rank()
            <= v.level.rank())
}

pub open spec fn wf_statics(v: StaticsV) -> bool {
    static_sorted(v.directives) && (forall|i: int|
        0 <= i < v.directives.len() ==> (#[trigger] v.directives[i]).level.rank()
            <= v.level.rank())
}

/// Insertion into the specificity order. An incoming directive that the
/// order cannot tell apart from a stored one is dropped (the stored one
/// stays), though its level still widens the aggregate.
pub open spec fn dyn_insert(s: Seq<DynDirectiveV>, d: DynDirectiveV) -> Seq<DynDirectiveV>
    decreases s.len(),
{
    if s.len() == 0 {
        seq![d]
    } else {
        match cmp_dyn(d, s[0]) {
            Ord3::Greater => seq![d] + s,
            Ord3::Equal => s,
            Ord3::Less => seq![s[0]] + dyn_insert(s.drop_first(), d),
        }
    }
}

pub open spec fn static_insert(s: Seq<StaticDirectiveV>, d: StaticDirectiveV)
    -> Seq<StaticDirectiveV>
    decreases s.len(),
{
    if s.len() == 0 {
        seq![d]
    } else {
        match cmp_static(d, s[0]) {
            Ord3::Greater => seq![d] + s,
            Ord3::Equal => s,
            Ord3::Less => seq![s[0]] + static_insert(s.drop_first(), d),
        }
    }
}

/// Adding a directive to the set: insert by specificity, widen the level.
pub open spec fn add_dyn(v: DynamicsV, d: DynDirectiveV) -> DynamicsV {
    DynamicsV { directives: dyn_insert(v.directives, d), level: v.level.spec_max(d.level) }
}

pub open spec fn add_static(v: StaticsV, d: StaticDirectiveV) -> StaticsV {
    StaticsV { directives: static_insert(v.directives, d), level: v.level.spec_max(d.level) }
}

/// The recursive insertion equals a positional one: the new directive
/// lands before everything it outranks.
proof fn lemma_dyn_insert_at(s: Seq<DynDirectiveV>, d: DynDirectiveV, p: int)
    requires
        0 <= p <= s.len(),
        forall|k: int| 0 <= k < p ==> cmp_dyn(d, #[trigger] s[k]) == Ord3::Less,
        p < s.len() ==> cmp_dyn(d, s[p]) != Ord3::Less,
    ensures
        dyn_insert(s, d) == if p < s.len() && cmp_dyn(d, s[p]) == Ord3::Equal {
            s
        } else {
            s.insert(p, d)
        },
    decreases s.len(),
{
    if s.len() == 0 {
        assert(dyn_insert(s, d) =~= s.insert(0, d));
    } else if p == 0 {
        match cmp_dyn(d, s[0]) {
            Ord3::Greater => {
                assert(dyn_insert(s, d) =~= s.insert(0, d));
            },
            Ord3::Equal => {},
            Ord3::Less => {
                assert(false);
            },
        }
    } else {
        assert(cmp_dyn(d, s[0]) == Ord3::Less);
        lemma_dyn_insert_at(s.drop_first(), d, p - 1);
        if p < s.len() && cmp_dyn(d, s[p]) == Ord3::Equal {
            assert(s.drop_first()[p - 1] == s[p]);
            assert(dyn_insert(s, d) =~= s);
        } else {
            assert(seq![s[0]] + s.drop_first().insert(p - 1, d) =~= s.insert(p, d));
        }
    }
}

proof fn lemma_static_insert_at(s: Seq<StaticDirectiveV>, d: StaticDirectiveV, p: int)
    requires
        0 <= p <= s.len(),
        forall|k: int| 0 <= k < p ==> cmp_static(d, #[trigger] s[k]) == Ord3::Less,
        p < s.len() ==> cmp_static(d, s[p]) != Ord3::Less,
    ensures
        static_insert(s, d) == if p < s.len() && cmp_static(d, s[p]) == Ord3::Equal {
            s
        } else {
            s.insert(p, d)
        },
    decreases s.len(),
{
    if s.len() == 0 {
        assert(static_insert(s, d) =~= s.insert(0, d));
    } else if p == 0 {
        match cmp_static(d, s[0]) {
            Ord3::Greater => {
                assert(static_insert(s, d) =~= s.insert(0, d));
            },
            Ord3::Equal => {},
            Ord3::Less => {
                assert(false);
            },
        }
    } else {
        assert(cmp_static(d, s[0]) == Ord3::Less);
        lemma_static_insert_at(s.drop_first(), d, p - 1);
        if p < s.len() && cmp_static(d, s[p]) == Ord3::Equal {
            assert(s.drop_first()[p - 1] == s[p]);
            assert(static_insert(s, d) =~= s);
        } else {
            assert(seq![s[0]] + s.drop_first().insert(p - 1, d) =~= s.insert(p, d));
        }
    }
}


/// Where a directive lands in the specificity order: past everything
/// that outranks it.
fn dyn_insert_pos(v: &Vec<DynamicDirective>, d: &DynamicDirective) -> (p: usize)
    ensures
        p <= v.len(),
        forall|k: int| 0 <= k < p ==> cmp_dyn(d@, #[trigger] dyns_v(v@)[k]) == Ord3::Less,
        p < v.len() ==> cmp_dyn(d@, dyns_v(v@)[p as int]) != Ord3::Less,
{
    let n = v.len();
    let mut i: usize = 0;
    while i < n
        invariant
            i <= n,
            n == v.len(),
            forall|k: int| 0 <= k < i ==> cmp_dyn(d@, #[trigger] dyns_v(v@)[k]) == Ord3::Less,
        decreases n - i,
    {
        let c = dyn_compare(d, &v[i]);
        proof {
            assert(dyns_v(v@)[i as int] == v@[i as int]@);
        }
        if !matches!(c, Ord3::Less) {
            return i;
        }
        i = i + 1;
    }
    i
}

/// Where a directive lands in the specificity order: past everything
/// that outranks it.
fn static_insert_pos(v: &Vec<StaticDirective>, d: &StaticDirective) -> (p: usize)
    ensures
        p <= v.len(),
        forall|k: int| 0 <= k < p ==> cmp_static(d@, #[trigger] stats_v(v@)[k]) == Ord3::Less,
        p < v.len() ==> cmp_static(d@, stats_v(v@)[p as int]) != Ord3::Less,
{
    let n = v.len();
    let mut i: usize = 0;
    while i < n
        invariant
            i <= n,
            n == v.len(),
            forall|k: int| 0 <= k < i ==> cmp_static(d@, #[trigger] stats_v(v@)[k]) == Ord3::Less,
        decreases n - i,
    {
        let c = static_compare(d, &v[i]);
        proof {
            assert(stats_v(v@)[i as int] == v@[i as int]@);
        }
        if !matches!(c, Ord3::Less) {
            return i;
        }
        i = i + 1;
    }
    i
}

impl Dynamics {
    /// The empty set: no directives, nothing enabled.
    pub fn empty() -> (r: Dynamics)
        ensures
            r@.directives =~= Seq::<DynDirectiveV>::empty(),
            r@.level == Level::Off,
            wf_dynamics(r@),
    {
        Dynamics { directives: Vec::new(), level: Level::Off }
    }

    /// Add a directive, keeping the set ordered by specificity and the
    /// aggregate level wide enough for every member.
    pub fn add(&mut self, d: DynamicDirective)
        requires
            wf_dynamics(old(self)@),
        ensures
            final(self)@ == add_dyn(old(self)@, d@),
            wf_dynamics(final(self)@),
    {
        let ghost orig = old(self)@;
        if d.level.gt(self.level) {
            self.level = d.level;
        }
        let n = self.directives.len();
        let idx = dyn_insert_pos(&self.directives, &d);
        if idx < n && matches!(dyn_compare(&d, &self.directives[idx]), Ord3::Equal) {
            proof {
                lemma_dyn_insert_at(orig.directives, d@, idx as int);
                assert(final(self)@ =~= add_dyn(orig, d@));
            }
            return;
        }
        self.directives.insert(idx, d);
        proof {
            lemma_dyn_insert_at(orig.directives, d@, idx as int);
            assert(dyns_v(self.directives@) =~= orig.directives.insert(idx as int, d@)) by {
                assert(self.directives@ == old(self).directives@.insert(idx as int, d));
                assert forall|k: int| 0 <= k < self.directives@.len() implies dyns_v(
                    self.directives@,
                )[k] == orig.directives.insert(idx as int, d@)[k] by {
                    assert(dyns_v(self.directives@)[k] == self.directives@[k]@);
                }
            }
            assert(final(self)@ =~= add_dyn(orig, d@));
            let s2 = dyn_insert(orig.directives, d@);
            assert(s2 == orig.directives.insert(idx as int, d@));
            assert forall|i: int, j: int| 0 <= i < j < s2.len() implies cmp_dyn(s2[i], s2[j])
                == Ord3::Greater by {
                let p = idx as int;
                if j < p {
                    assert(cmp_dyn(orig.directives[i], orig.directives[j]) == Ord3::Greater);
                } else if i < p && j == p {
                    lemma_cmp_dyn_flip(d@, orig.directives[i]);
                } else if i < p && j > p {
                    assert(cmp_dyn(orig.directives[i], orig.directives[j - 1]) == Ord3::Greater);
                } else if i == p && j > p {
                    assert(cmp_dyn(d@, orig.directives[p]) == Ord3::Greater);
                    if j - 1 > p {
                        lemma_cmp_dyn_trans(d@, orig.directives[p], orig.directives[j - 1]);
                    }
                } else {
                    assert(cmp_dyn(orig.directives[i - 1], orig.directives[j - 1])
                        == Ord3::Greater);
                }
            }
        }
    }
}

impl Statics {
    /// The empty set: no directives, nothing enabled.
    pub fn empty() -> (r: Statics)
        ensures
            r@.directives =~= Seq::<StaticDirectiveV>::empty(),
            r@.level == Level::Off,
            wf_statics(r@),
    {
        Statics { directives: Vec::new(), level: Level::Off }
    }

    /// Add a directive, keeping the set ordered by specificity and the
    /// aggregate level wide enough for every member.
    pub fn add(&mut self, d: StaticDirective)
        requires
            wf_statics(old(self)@),
        ensures
            final(self)@ == add_static(old(self)@, d@),
            wf_statics(final(self)@),
    {
        let ghost orig = old(self)@;
        if d.level.gt(self.level) {
            self.level = d.level;
        }
        let n = self.directives.len();
        let idx = static_insert_pos(&self.directives, &d);
        if idx < n && matches!(static_compare(&d, &self.directives[idx]), Ord3::Equal) {
            proof {
                lemma_static_insert_at(orig.directives, d@, idx as int);
                assert(final(self)@ =~= add_static(orig, d@));
            }
            return;
        }
        self.directives.insert(idx, d);
        proof {
            lemma_static_insert_at(orig.directives, d@, idx as int);
            assert(stats_v(self.directives@) =~= orig.directives.insert(idx as int, d@)) by {
                assert(self.directives@ == old(self).directives@.insert(idx as int, d));
                assert forall|k: int| 0 <= k < self.directives@.len() implies stats_v(
                    self.directives@,
                )[k] == orig.directives.insert(idx as int, d@)[k] by {
                    assert(stats_v(self.directives@)[k] == self.directives@[k]@);
                }
            }
            assert(final(self)@ =~= add_static(orig, d@));
            let s2 = static_insert(orig.directives, d@);
            assert(s2 == orig.directives.insert(idx as int, d@));
            assert forall|i: int, j: int| 0 <= i < j < s2.len() implies cmp_static(s2[i], s2[j])
                == Ord3::Greater by {
                let p = idx as int;
                if j < p {
                    assert(cmp_static(orig.directives[i], orig.directives[j]) == Ord3::Greater);
                } else if i < p && j == p {
                    lemma_cmp_static_flip(d@, orig.directives[i]);
                } else if i < p && j > p {
                    assert(cmp_static(orig.directives[i], orig.directives[j - 1])
                        == Ord3::Greater);
                } else if i == p && j > p {
                    assert(cmp_static(d@, orig.directives[p]) == Ord3::Greater);
                    if j - 1 > p {
                        lemma_cmp_static_trans(d@, orig.directives[p], orig.directives[j - 1]);
                    }
                } else {
                    assert(cmp_static(orig.directives[i - 1], orig.directives[j - 1])
                        == Ord3::Greater);
                }
            }
        }
    }
}

} // verus!

// === matching against code sites ===

verus! {

use crate::legacy::{SiteInfo, SiteInfoV};
use crate::legacy::matcher::{
    CallsiteMatch, CallsiteMatchV, CallsiteMatcher, CallsiteMatcherV, ValueMatch, ValueMatchV,
};

/// Whether `p` is a prefix of `s`.
pub open spec fn spec_starts_with(s: Seq<char>, p: Seq<char>) -> bool {
    p.len() <= s.len() && s.take(p.len() as int) == p
}

/// Whether the text `s` starts with the text `p`.
pub fn str_starts_with(s: &str, p: &str) -> (r: bool)
    ensures
        r == spec_starts_with(s@, p@),
{
    let sn = s.unicode_len();
    let pn = p.unicode_len();
    if pn > sn {
        proof {
            assert(!spec_starts_with(s@, p@));
        }
        return false;
    }
    let mut i: usize = 0;
    while i < pn
        invariant
            i <= pn,
            pn <= sn,
            sn == s@.len(),
            pn == p@.len(),
            forall|k: int| 0 <= k < i ==> s@[k] == p@[k],
        decreases pn - i,
    {
        let cs = s.get_char(i);
        let cp = p.get_char(i);
        if cs != cp {
            proof {
                assert(s@.take(pn as int)[i as int] != p@[i as int]);
            }
            return false;
        }
        i = i + 1;
    }
    proof {
        assert(s@.take(pn as int) =~= p@);
    }
    true
}

/// Whether the site defines a field of the given name.
pub open spec fn site_has_field(m: SiteInfoV, name: Seq<char>) -> bool {
    exists|i: int| 0 <= i < m.fields.len() && m.fields[i] == name
}

pub fn site_field_present(m: &SiteInfo, name: &String) -> (r: bool)
    ensures
        r == site_has_field(m@, name@),
{
    let n = m.fields.len();
    let mut i: usize = 0;
    while i < n
        invariant
            i <= n,
            n == m.fields.len(),
            forall|k: int| 0 <= k < i ==> names_v(m.fields@)[k] != name@,
        decreases n - i,
    {
        proof {
            assert(names_v(m.fields@)[i as int] == m.fields@[i as int]@);
        }
        if m.fields[i] == *name {
            proof {
                assert(m@.fields[i as int] == name@);
            }
            return true;
        }
        i = i + 1;
    }
    proof {
        assert(forall|k: int| 0 <= k < m@.fields.len() ==> m@.fields[k] != name@);
    }
    false
}

/// Whether a dynamic directive's conditions could ever hold of this
/// site: its target prefix matches, its span name (if any) is the
/// site's name, and every field it names exists at the site.
pub open spec fn dyn_cares(d: DynDirectiveV, m: SiteInfoV) -> bool {
    &&& (d.target is Some ==> spec_starts_with(m.target, d.target->Some_0))
    &&& (d.span is Some ==> m.name == d.span->Some_0)
    &&& (forall|i: int|
        0 <= i < d.fields.len() ==> site_has_field(m, (#[trigger] d.fields[i]).name))
}

/// Whether a static directive applies to this site: its target prefix
/// matches; for an event, every field it names must exist at the site
/// (a span is gated by target alone).
pub open spec fn static_cares(d: StaticDirectiveV, m: SiteInfoV) -> bool {
    &&& (d.target is Some ==> spec_starts_with(m.target, d.target->Some_0))
    &&& (!m.is_span && d.fields.len() > 0 ==> forall|i: int|
        0 <= i < d.fields.len() ==> site_has_field(m, #[trigger] d.fields[i]))
}

impl DynamicDirective {
    /// Whether this directive's conditions could ever hold of the site.
    pub fn cares_about(&self, m: &SiteInfo) -> (r: bool)
        ensures
            r == dyn_cares(self@, m@),
    {
        if let Option::Some(t) = &self.target {
            if !str_starts_with(m.target.as_str(), t.as_str()) {
                return false;
            }
        }
        if let Option::Some(name) = &self.span {
            if !(m.name == *name) {
                return false;
            }
        }
        let n = self.fields.len();
        let mut i: usize = 0;
        while i < n
            invariant
                i <= n,
                n == self.fields.len(),
                forall|k: int| 0 <= k < i ==> site_has_field(m@, fields_v(self.fields@)[k].name),
            decreases n - i,
        {
            proof {
                assert(fields_v(self.fields@)[i as int] == self.fields@[i as int]@);
            }
            if !site_field_present(m, &self.fields[i].name) {
                return false;
            }
            i = i + 1;
        }
        true
    }
}

impl StaticDirective {
    /// Whether this directive applies to the site.
    pub fn cares_about(&self, m: &SiteInfo) -> (r: bool)
        ensures
            r == static_cares(self@, m@),
    {
        if let Option::Some(t) = &self.target {
            if !str_starts_with(m.target.as_str(), t.as_str()) {
                return false;
            }
        }
        if !m.is_span && self.fields.len() > 0 {
            let n = self.fields.len();
            let mut i: usize = 0;
            while i < n
                invariant
                    i <= n,
                    n == self.fields.len(),
                    n > 0,
                    !m@.is_span,
                    forall|k: int| 0 <= k < i ==> site_has_field(m@, names_v(self.fields@)[k]),
                decreases n - i,
            {
                proof {
                    assert(names_v(self.fields@)[i as int] == self.fields@[i as int]@);
                }
                if !site_field_present(m, &self.fields[i]) {
                    proof {
                        assert(!site_has_field(m@, self@.fields[i as int]));
                    }
                    return false;
                }
                i = i + 1;
            }
        }
        true
    }
}

/// The most specific static directive that applies to the site: the
/// first one in the stored order.
pub open spec fn first_static_match(s: Seq<StaticDirectiveV>, m: SiteInfoV)
    -> Option<StaticDirectiveV>
    decreases s.len(),
{
    if s.len() == 0 {
        None
    } else if static_cares(s[0], m) {
        Some(s[0])
    } else {
        first_static_match(s.drop_first(), m)
    }
}

/// The static decision: enabled exactly when some static directive
/// applies and the most specific one that does is at least as verbose
/// as the site.
pub open spec fn spec_statics_enabled(v: StaticsV, m: SiteInfoV) -> bool {
    match first_static_match(v.directives, m) {
        Option::None => false,
        Option::Some(d) => d.level.rank() >= m.level.rank(),
    }
}

/// A first match comes from the set.
proof fn lemma_first_static_match_member(s: Seq<StaticDirectiveV>, m: SiteInfoV)
    ensures
        first_static_match(s, m) is Some ==> exists|i: int|
            0 <= i < s.len() && s[i] == first_static_match(s, m)->Some_0,
    decreases s.len(),
{
    if s.len() > 0 && !static_cares(s[0], m) {
        lemma_first_static_match_member(s.drop_first(), m);
        if first_static_match(s, m) is Some {
            let i = choose|i: int|
                0 <= i < s.drop_first().len() && s.drop_first()[i] == first_static_match(
                    s.drop_first(),
                    m,
                )->Some_0;
            assert(s[i + 1] == first_static_match(s, m)->Some_0);
        }
    }
}

impl Statics {
    /// Whether the static directives enable this site at its level.
    pub fn enabled(&self, m: &SiteInfo) -> (r: bool)
        requires
            wf_statics(self@),
        ensures
            r == spec_statics_enabled(self@, m@),
    {
        // nothing in the set is verbose enough: no member can enable
        if !self.level.ge(m.level) {
            proof {
                lemma_first_static_match_member(self@.directives, m@);
            }
            return false;
        }
        let n = self.directives.len();
        let mut i: usize = 0;
        proof {
            assert(self@.directives.skip(0) =~= self@.directives);
        }
        while i < n
            invariant
                i <= n,
                n == self.directives.len(),
                wf_statics(self@),
                first_static_match(self@.directives, m@) == first_static_match(
                    self@.directives.skip(i as int),
                    m@,
                ),
            decreases n - i,
        {
            proof {
                assert(stats_v(self.directives@)[i as int] == self.directives@[i as int]@);
                assert(self@.directives.skip(i as int)[0] == self@.directives[i as int]);
                assert(self@.directives.skip(i as int).drop_first() =~= self@.directives.skip(
                    i + 1,
                ));
            }
            if self.directives[i].cares_about(m) {
                return self.directives[i].level.ge(m.level);
            }
            i = i + 1;
        }
        proof {
            assert(self@.directives.skip(n as int) =~= Seq::<StaticDirectiveV>::empty());
        }
        false
    }
}

/// The value predicates a directive contributes to a callsite matcher:
/// its fields that carry a value.
pub open spec fn valued_pairs(fs: Seq<FieldMatchV>) -> Seq<(Seq<char>, ValueMatchV)>
    decreases fs.len(),
{
    if fs.len() == 0 {
        Seq::empty()
    } else {
        let rest = valued_pairs(fs.drop_first());
        if fs[0].value is Some {
            seq![(fs[0].name, fs[0].value->Some_0)] + rest
        } else {
            rest
        }
    }
}

/// The matcher one matching dynamic directive compiles to.
pub open spec fn callsite_match_of(d: DynDirectiveV) -> CallsiteMatchV {
    CallsiteMatchV { fields: valued_pairs(d.fields), level: d.level }
}

/// The matchers of all dynamic directives that care about the site,
/// most specific first.
pub open spec fn matcher_entries(s: Seq<DynDirectiveV>, m: SiteInfoV) -> Seq<CallsiteMatchV>
    decreases s.len(),
{
    if s.len() == 0 {
        Seq::empty()
    } else {
        let rest = matcher_entries(s.drop_first(), m);
        if dyn_cares(s[0], m) {
            seq![callsite_match_of(s[0])] + rest
        } else {
            rest
        }
    }
}

/// The compiled matcher for a site, if any dynamic directive cares
/// about it. Every matching directive contributes its value predicates
/// (a directive without any is satisfied from the start), so the base
/// level is the bottom one.
pub open spec fn spec_matcher(v: DynamicsV, m: SiteInfoV) -> Option<CallsiteMatcherV> {
    if matcher_entries(v.directives, m).len() == 0 {
        None
    } else {
        Some(
            CallsiteMatcherV {
                fields: matcher_entries(v.directives, m),
                base_level: Level::Off,
            },
        )
    }
}

impl DynamicDirective {
    /// The matcher this directive compiles to, for a site it cares about.
    fn to_callsite_match(&self) -> (r: CallsiteMatch)
        ensures
            r@ == callsite_match_of(self@),
    {
        let mut pairs: Vec<(String, ValueMatch)> = Vec::new();
        let n = self.fields.len();
        let mut i: usize = 0;
        proof {
            assert(fields_v(self.fields@).skip(0) =~= fields_v(self.fields@));
        }
        while i < n
            invariant
                i <= n,
                n == self.fields.len(),
                crate::legacy::matcher::pairs_v(pairs@) + valued_pairs(
                    fields_v(self.fields@).skip(i as int),
                ) =~= valued_pairs(fields_v(self.fields@)),
            decreases n - i,
        {
            proof {
                assert(fields_v(self.fields@)[i as int] == self.fields@[i as int]@);
                assert(fields_v(self.fields@).skip(i as int)[0] == fields_v(self.fields@)[i as int]);
                assert(fields_v(self.fields@).skip(i as int).drop_first() =~= fields_v(
                    self.fields@,
                ).skip(i + 1));
            }
            if let Option::Some(v) = &self.fields[i].value {
                pairs.push((self.fields[i].name.clone(), v.clone()));
                proof {
                    assert(crate::legacy::matcher::pairs_v(pairs@) + valued_pairs(
                        fields_v(self.fields@).skip(i + 1),
                    ) =~= valued_pairs(fields_v(self.fields@)));
                }
            }
            i = i + 1;
        }
        proof {
            assert(fields_v(self.fields@).skip(n as int) =~= Seq::<FieldMatchV>::empty());
            assert(crate::legacy::matcher::pairs_v(pairs@) =~= valued_pairs(
                fields_v(self.fields@),
            ));
        }
        let r = CallsiteMatch { fields: pairs, level: self.level };
        proof {
            assert(r@ =~= callsite_match_of(self@));
        }
        r
    }
}

impl Dynamics {
    /// The compiled matcher for a site, if any dynamic directive cares
    /// about it.
    pub fn matcher(&self, m: &SiteInfo) -> (r: Option<CallsiteMatcher>)
        ensures
            match r {
                Option::Some(cm) => spec_matcher(self@, m@) is Some && cm@ == spec_matcher(
                    self@,
                    m@,
                )->Some_0,
                Option::None => spec_matcher(self@, m@) is None,
            },
    {
        let mut entries: Vec<CallsiteMatch> = Vec::new();
        let n = self.directives.len();
        let mut i: usize = 0;
        proof {
            assert(self@.directives.skip(0) =~= self@.directives);
        }
        while i < n
            invariant
                i <= n,
                n == self.directives.len(),
                crate::legacy::matcher::callsite_matches_v(entries@) + matcher_entries(
                    self@.directives.skip(i as int),
                    m@,
                ) =~= matcher_entries(self@.directives, m@),
            decreases n - i,
        {
            proof {
                assert(dyns_v(self.directives@)[i as int] == self.directives@[i as int]@);
                assert(self@.directives.skip(i as int)[0] == self@.directives[i as int]);
                assert(self@.directives.skip(i as int).drop_first() =~= self@.directives.skip(
                    i + 1,
                ));
            }
            if self.directives[i].cares_about(m) {
                entries.push(self.directives[i].to_callsite_match());
                proof {
                    assert(crate::legacy::matcher::callsite_matches_v(entries@)
                        + matcher_entries(self@.directives.skip(i + 1), m@) =~= matcher_entries(
                        self@.directives,
                        m@,
                    ));
                }
            }
            i = i + 1;
        }
        proof {
            assert(self@.directives.skip(n as int) =~= Seq::<DynDirectiveV>::empty());
            assert(crate::legacy::matcher::callsite_matches_v(entries@) =~= matcher_entries(
                self@.directives,
                m@,
            ));
        }
        if entries.len() == 0 {
            None
        } else {
            let r = CallsiteMatcher { fields: entries, base_level: Level::Off };
            proof {
                assert(r@ =~= spec_matcher(self@, m@)->Some_0);
            }
            Some(r)
        }
    }

    /// Whether any dynamic directive matches a field's value (rather
    /// than just its presence): then nothing can be pre-filtered, since
    /// values are unknown until spans record them.
    pub fn has_value_filters(&self) -> (r: bool)
        ensures
            r == dyn_has_value_filters(self@.directives),
    {
        let n = self.directives.len();
        let mut i: usize = 0;
        while i < n
            invariant
                i <= n,
                n == self.directives.len(),
                forall|k: int|
                    0 <= k < i ==> !dir_has_value_filter(#[trigger] dyns_v(self.directives@)[k]),
            decreases n - i,
        {
            proof {
                assert(dyns_v(self.directives@)[i as int] == self.directives@[i as int]@);
            }
            let fs = &self.directives[i].fields;
            let fn_count = fs.len();
            let mut j: usize = 0;
            while j < fn_count
                invariant
                    j <= fn_count,
                    fn_count == fs.len(),
                    i < self.directives.len(),
                    fields_v(fs@) == dyns_v(self.directives@)[i as int].fields,
                    forall|k: int| 0 <= k < j ==> !((#[trigger] fields_v(fs@)[k]).value is Some),
                decreases fn_count - j,
            {
                proof {
                    assert(fields_v(fs@)[j as int] == fs@[j as int]@);
                }
                if matches!(&fs[j].value, Option::Some(_)) {
                    proof {
                        let d = dyns_v(self.directives@)[i as int];
                        assert(d.fields[j as int].value is Some);
                        assert(dir_has_value_filter(d));
                        assert(dyn_has_value_filters(self@.directives));
                    }
                    return true;
                }
                j = j + 1;
            }
            proof {
                assert(!dir_has_value_filter(dyns_v(self.directives@)[i as int]));
            }
            i = i + 1;
        }
        false
    }
}

/// Whether the directive matches some field's value.
pub open spec fn dir_has_value_filter(d: DynDirectiveV) -> bool {
    exists|j: int| 0 <= j < d.fields.len() && (#[trigger] d.fields[j]).value is Some
}

/// Whether any directive in the list matches some field's value.
pub open spec fn dyn_has_value_filters(s: Seq<DynDirectiveV>) -> bool {
    exists|i: int| 0 <= i < s.len() && dir_has_value_filter(#[trigger] s[i])
}

} // verus!

// === canonical text ===

verus! {

use crate::chars::push_char;
use crate::level::level_text;
use crate::legacy::matcher::display_field;
use vstd::string::StringExecFns;

/// The canonical text of a field list block: nothing when empty, else
/// the fields joined by commas inside braces.
pub open spec fn display_fields_block(fs: Seq<FieldMatchV>) -> Seq<char>
    decreases fs.len(),
{
    if fs.len() == 0 {
        Seq::empty()
    } else {
        seq!['{'] + display_fields_items(fs) + seq!['}']
    }
}

pub open spec fn display_fields_items(fs: Seq<FieldMatchV>) -> Seq<char>
    decreases fs.len(),
{
    if fs.len() == 0 {
        Seq::empty()
    } else if fs.len() == 1 {
        display_field(fs[0])
    } else {
        display_field(fs[0]) + seq![','] + display_fields_items(fs.drop_first())
    }
}

/// The canonical text of a dynamic directive:
/// `target[span{field=value}]=level`, empty parts left out.
pub open spec fn display_dyn(d: DynDirectiveV) -> Seq<char> {
    let target_part = match d.target {
        Option::None => Seq::<char>::empty(),
        Option::Some(t) => t,
    };
    let span_part = if d.span is Some || d.fields.len() > 0 {
        seq!['['] + (match d.span {
            Option::None => Seq::<char>::empty(),
            Option::Some(n) => n,
        }) + display_fields_block(d.fields) + seq![']']
    } else {
        Seq::empty()
    };
    let wrote = d.target is Some || d.span is Some || d.fields.len() > 0;
    if wrote {
        target_part + span_part + seq!['='] + level_text(d.level)
    } else {
        level_text(d.level)
    }
}

/// The canonical text of a static directive:
/// `target[{field,field}]=level`, empty parts left out.
pub open spec fn display_static(d: StaticDirectiveV) -> Seq<char> {
    let target_part = match d.target {
        Option::None => Seq::<char>::empty(),
        Option::Some(t) => t,
    };
    let span_part = if d.fields.len() > 0 {
        seq!['['] + display_names_block(d.fields) + seq![']']
    } else {
        Seq::empty()
    };
    let wrote = d.target is Some || d.fields.len() > 0;
    if wrote {
        target_part + span_part + seq!['='] + level_text(d.level)
    } else {
        level_text(d.level)
    }
}

pub open spec fn display_names_block(fs: Seq<Seq<char>>) -> Seq<char>
    decreases fs.len(),
{
    if fs.len() == 0 {
        Seq::empty()
    } else {
        seq!['{'] + display_names_items(fs) + seq!['}']
    }
}

pub open spec fn display_names_items(fs: Seq<Seq<char>>) -> Seq<char>
    decreases fs.len(),
{
    if fs.len() == 0 {
        Seq::empty()
    } else if fs.len() == 1 {
        fs[0]
    } else {
        fs[0] + seq![','] + display_names_items(fs.drop_first())
    }
}

impl DynamicDirective {
    /// Append this directive's canonical text.
    #[verifier::rlimit(100)]
    pub fn push_display(&self, out: &mut String)
        ensures
            final(out)@ == old(out)@ + display_dyn(self@),
    {
        let ghost at_start = out@;
        let mut wrote = false;
        if let Option::Some(t) = &self.target {
            out.append(t.as_str());
            wrote = true;
        }
        if self.span.is_some() || self.fields.len() > 0 {
            push_char(out, '[');
            if let Option::Some(n) = &self.span {
                out.append(n.as_str());
            }
            let k = self.fields.len();
            if k > 0 {
                push_char(out, '{');
                let ghost items_start = out@;
                let mut i: usize = 0;
                while i < k
                    invariant
                        k == self.fields.len(),
                        k > 0,
                        i <= k,
                        out@ == items_start + display_items_prefix(
                            fields_v(self.fields@),
                            i as int,
                        ),
                    decreases k - i,
                {
                    if i > 0 {
                        push_char(out, ',');
                    }
                    proof {
                        assert(fields_v(self.fields@)[i as int] == self.fields@[i as int]@);
                    }
                    self.fields[i].push_display(out);
                    proof {
                        lemma_display_items_step(fields_v(self.fields@), i as int);
                    }
                    i = i + 1;
                }
                proof {
                    lemma_display_items_whole(fields_v(self.fields@));
                }
                push_char(out, '}');
            }
            push_char(out, ']');
            wrote = true;
        }
        if wrote {
            push_char(out, '=');
        }
        self.level.push_display(out);
        proof {
            assert(final(out)@ =~= at_start + display_dyn(self@));
        }
    }
}

/// The text of the first `i` field items, with their separators.
pub open spec fn display_items_prefix(fs: Seq<FieldMatchV>, i: int) -> Seq<char>
    decreases i,
{
    if i <= 0 {
        Seq::empty()
    } else if i == 1 {
        display_field(fs[0])
    } else {
        display_items_prefix(fs, i - 1) + seq![','] + display_field(fs[i - 1])
    }
}

proof fn lemma_display_items_step(fs: Seq<FieldMatchV>, i: int)
    requires
        0 <= i < fs.len(),
    ensures
        i == 0 ==> display_items_prefix(fs, 1) == display_field(fs[0]),
        i > 0 ==> display_items_prefix(fs, i + 1) == display_items_prefix(fs, i) + seq![',']
            + display_field(fs[i]),
{
}

proof fn lemma_display_items_whole(fs: Seq<FieldMatchV>)
    requires
        fs.len() > 0,
    ensures
        display_items_prefix(fs, fs.len() as int) == display_fields_items(fs),
    decreases fs.len(),
{
    if fs.len() == 1 {
    } else {
        lemma_display_items_whole(fs.drop_first());
        lemma_display_items_shift(fs, fs.len() as int);
        assert(display_fields_items(fs) == display_field(fs[0]) + seq![',']
            + display_fields_items(fs.drop_first()));
    }
}

/// A prefix of the items of `fs` from the second on equals the prefix
/// of the items of the tail.
proof fn lemma_display_items_shift(fs: Seq<FieldMatchV>, i: int)
    requires
        2 <= i <= fs.len(),
    ensures
        display_items_prefix(fs, i) == display_field(fs[0]) + seq![','] + display_items_prefix(
            fs.drop_first(),
            i - 1,
        ),
    decreases i,
{
    if i == 2 {
        assert(fs.drop_first()[0] == fs[1]);
        assert(display_items_prefix(fs, 1) == display_field(fs[0]));
        assert(display_items_prefix(fs.drop_first(), 1) == display_field(fs.drop_first()[0]));
        assert(display_items_prefix(fs, 2) == display_items_prefix(fs, 1) + seq![',']
            + display_field(fs[1]));
    } else {
        lemma_display_items_shift(fs, i - 1);
        assert(fs.drop_first()[i - 2] == fs[i - 1]);
        assert(display_field(fs[0]) + seq![','] + (display_items_prefix(fs.drop_first(), i - 2)
            + seq![','] + display_field(fs[i - 1])) =~= (display_field(fs[0]) + seq![',']
            + display_items_prefix(fs.drop_first(), i - 2)) + seq![','] + display_field(
            fs[i - 1],
        ));
    }
}

impl StaticDirective {
    /// Append this directive's canonical text.
    #[verifier::rlimit(100)]
    pub fn push_display(&self, out: &mut String)
        ensures
            final(out)@ == old(out)@ + display_static(self@),
    {
        let ghost at_start = out@;
        let mut wrote = false;
        if let Option::Some(t) = &self.target {
            out.append(t.as_str());
            wrote = true;
        }
        let k = self.fields.len();
        if k > 0 {
            push_char(out, '[');
            push_char(out, '{');
            let ghost items_start = out@;
            let mut i: usize = 0;
            while i < k
                invariant
                    k == self.fields.len(),
                    k > 0,
                    i <= k,
                    out@ == items_start + display_name_items_prefix(
                        names_v(self.fields@),
                        i as int,
                    ),
                decreases k - i,
            {
                if i > 0 {
                    push_char(out, ',');
                }
                proof {
                    assert(names_v(self.fields@)[i as int] == self.fields@[i as int]@);
                }
                out.append(self.fields[i].as_str());
                proof {
                    lemma_display_name_items_step(names_v(self.fields@), i as int);
                }
                i = i + 1;
            }
            proof {
                lemma_display_name_items_whole(names_v(self.fields@));
            }
            push_char(out, '}');
            push_char(out, ']');
            wrote = true;
        }
        if wrote {
            push_char(out, '=');
        }
        self.level.push_display(out);
        proof {
            assert(final(out)@ =~= at_start + display_static(self@));
        }
    }
}

pub open spec fn display_name_items_prefix(fs: Seq<Seq<char>>, i: int) -> Seq<char>
    decreases i,
{
    if i <= 0 {
        Seq::empty()
    } else if i == 1 {
        fs[0]
    } else {
        display_name_items_prefix(fs, i - 1) + seq![','] + fs[i - 1]
    }
}

pub(crate) proof fn lemma_display_name_items_step(fs: Seq<Seq<char>>, i: int)
    requires
        0 <= i < fs.len(),
    ensures
        i == 0 ==> display_name_items_prefix(fs, 1) == fs[0],
        i > 0 ==> display_name_items_prefix(fs, i + 1) == display_name_items_prefix(fs, i)
            + seq![','] + fs[i],
{
}

pub(crate) proof fn lemma_display_name_items_whole(fs: Seq<Seq<char>>)
    requires
        fs.len() > 0,
    ensures
        display_name_items_prefix(fs, fs.len() as int) == display_names_items(fs),
    decreases fs.len(),
{
    if fs.len() == 1 {
    } else {
        lemma_display_name_items_whole(fs.drop_first());
        lemma_display_name_items_shift(fs, fs.len() as int);
        assert(display_names_items(fs) == fs[0] + seq![','] + display_names_items(
            fs.drop_first(),
        ));
    }
}

proof fn lemma_display_name_items_shift(fs: Seq<Seq<char>>, i: int)
    requires
        2 <= i <= fs.len(),
    ensures
        display_name_items_prefix(fs, i) == fs[0] + seq![','] + display_name_items_prefix(
            fs.drop_first(),
            i - 1,
        ),
    decreases i,
{
    if i == 2 {
        assert(fs.drop_first()[0] == fs[1]);
        assert(display_name_items_prefix(fs, 1) == fs[0]);
        assert(display_name_items_prefix(fs.drop_first(), 1) == fs.drop_first()[0]);
        assert(display_name_items_prefix(fs, 2) == display_name_items_prefix(fs, 1) + seq![',']
            + fs[1]);
    } else {
        lemma_display_name_items_shift(fs, i - 1);
        assert(fs.drop_first()[i - 2] == fs[i - 1]);
        assert(fs[0] + seq![','] + (display_name_items_prefix(fs.drop_first(), i - 2)
            + seq![','] + fs[i - 1]) =~= (fs[0] + seq![','] + display_name_items_prefix(
            fs.drop_first(),
            i - 2,
        )) + seq![','] + fs[i - 1]);
    }
}

} // verus!

// === the static/dynamic partition ===

verus! {

/// A directive that needs the runtime engine: it has a span-name
/// condition, or any field predicate at all (a span must be watched for
/// its fields even when only their presence matters).
pub open spec fn is_dynamic(d: DynDirectiveV) -> bool {
    d.span is Some || d.fields.len() > 0
}

/// A directive whose conditions a code site alone can answer: no span
/// name, and no field predicate that matches a value.
pub open spec fn is_static_convertible(d: DynDirectiveV) -> bool {
    d.span is None && forall|i: int| 0 <= i < d.fields.len() ==> (#[trigger] d.fields[i]).value is None
}

/// The static projection of a directive: the target, the field names
/// (their value predicates dropped), and the level.
pub open spec fn to_static(d: DynDirectiveV) -> StaticDirectiveV {
    StaticDirectiveV {
        target: d.target,
        fields: d.fields.map_values(|f: FieldMatchV| f.name),
        level: d.level,
    }
}

impl DynamicDirective {
    /// Whether this directive needs the runtime engine.
    pub fn is_dynamic(&self) -> (r: bool)
        ensures
            r == is_dynamic(self@),
    {
        self.span.is_some() || self.fields.len() > 0
    }

    /// Whether a code site alone can answer this directive.
    pub fn is_static(&self) -> (r: bool)
        ensures
            r == is_static_convertible(self@),
    {
        if self.span.is_some() {
            return false;
        }
        let n = self.fields.len();
        let mut i: usize = 0;
        while i < n
            invariant
                i <= n,
                n == self.fields.len(),
                self.span is None,
                forall|k: int| 0 <= k < i ==> (#[trigger] fields_v(self.fields@)[k]).value is None,
            decreases n - i,
        {
            proof {
                assert(fields_v(self.fields@)[i as int] == self.fields@[i as int]@);
            }
            if self.fields[i].value.is_some() {
                proof {
                    assert((fields_v(self.fields@)[i as int]).value is Some);
                }
                return false;
            }
            i = i + 1;
        }
        true
    }

    /// This directive's static projection.
    pub fn to_static(&self) -> (r: StaticDirective)
        ensures
            r@ == to_static(self@),
    {
        let mut names: Vec<String> = Vec::new();
        let n = self.fields.len();
        let mut i: usize = 0;
        while i < n
            invariant
                i <= n,
                n == self.fields.len(),
                names_v(names@) =~= to_static(self@).fields.take(i as int),
            decreases n - i,
        {
            proof {
                assert(fields_v(self.fields@)[i as int] == self.fields@[i as int]@);
            }
            names.push(self.fields[i].name.clone());
            proof {
                assert(names_v(names@) =~= to_static(self@).fields.take(i + 1));
            }
            i = i + 1;
        }
        let r = StaticDirective {
            target: clone_opt_string(&self.target),
            fields: names,
            level: self.level,
        };
        proof {
            assert(to_static(self@).fields.take(n as int) =~= to_static(self@).fields);
            assert(r@ =~= to_static(self@));
        }
        r
    }
}

} // verus!

// === insertion laws at the specification level ===

verus! {

/// Inserting keeps the strict specificity order, and adds no element
/// but the inserted one.
pub proof fn lemma_dyn_insert_sorted(s: Seq<DynDirectiveV>, d: DynDirectiveV)
    requires
        dyn_sorted(s),
    ensures
        dyn_sorted(dyn_insert(s, d)),
        forall|i: int|
            0 <= i < dyn_insert(s, d).len() ==> (#[trigger] dyn_insert(s, d)[i]) == d
                || s.contains(dyn_insert(s, d)[i]),
    decreases s.len(),
{
    if s.len() == 0 {
    } else {
        match cmp_dyn(d, s[0]) {
            Ord3::Greater => {
                let r = seq![d] + s;
                assert forall|i: int, j: int| 0 <= i < j < r.len() implies cmp_dyn(r[i], r[j])
                    == Ord3::Greater by {
                    if i == 0 {
                        if j > 1 {
                            lemma_cmp_dyn_trans(d, s[0], s[j - 1]);
                        }
                    }
                }
            },
            Ord3::Equal => {},
            Ord3::Less => {
                let tail = s.drop_first();
                assert(dyn_sorted(tail)) by {
                    assert(forall|i: int, j: int|
                        0 <= i < j < tail.len() ==> tail[i] == s[i + 1] && tail[j] == s[j + 1]);
                }
                lemma_dyn_insert_sorted(tail, d);
                let rest = dyn_insert(tail, d);
                let r = seq![s[0]] + rest;
                assert forall|i: int, j: int| 0 <= i < j < r.len() implies cmp_dyn(r[i], r[j])
                    == Ord3::Greater by {
                    if i == 0 {
                        if rest[j - 1] == d {
                            lemma_cmp_dyn_flip(d, s[0]);
                        } else {
                            assert(tail.contains(rest[j - 1]));
                            let k = choose|k: int|
                                0 <= k < tail.len() && tail[k] == rest[j - 1];
                            assert(s[k + 1] == rest[j - 1]);
                        }
                    }
                }
                assert forall|i: int| 0 <= i < r.len() implies (#[trigger] r[i]) == d
                    || s.contains(r[i]) by {
                    if i == 0 {
                        assert(s.contains(s[0]));
                    } else if rest[i - 1] == d {
                    } else {
                        assert(tail.contains(rest[i - 1]));
                        let k = choose|k: int| 0 <= k < tail.len() && tail[k] == rest[i - 1];
                        assert(s[k + 1] == rest[i - 1]);
                        assert(s.contains(rest[i - 1]));
                    }
                }
            },
        }
    }
}

/// Adding keeps the set well formed.
pub proof fn lemma_add_dyn_wf(v: DynamicsV, d: DynDirectiveV)
    requires
        wf_dynamics(v),
    ensures
        wf_dynamics(add_dyn(v, d)),
{
    lemma_dyn_insert_sorted(v.directives, d);
    let r = add_dyn(v, d);
    assert forall|i: int| 0 <= i < r.directives.len() implies (#[trigger] r.directives[i]).level.rank()
        <= r.level.rank() by {
        if r.directives[i] == d {
        } else {
            assert(v.directives.contains(r.directives[i]));
            let k = choose|k: int|
                0 <= k < v.directives.len() && v.directives[k] == r.directives[i];
        }
    }
}

/// Inserting keeps the strict specificity order, and adds no element
/// but the inserted one.
pub proof fn lemma_static_insert_sorted(s: Seq<StaticDirectiveV>, d: StaticDirectiveV)
    requires
        static_sorted(s),
    ensures
        static_sorted(static_insert(s, d)),
        forall|i: int|
            0 <= i < static_insert(s, d).len() ==> (#[trigger] static_insert(s, d)[i]) == d
                || s.contains(static_insert(s, d)[i]),
    decreases s.len(),
{
    if s.len() == 0 {
    } else {
        match cmp_static(d, s[0]) {
            Ord3::Greater => {
                let r = seq![d] + s;
                assert forall|i: int, j: int| 0 <= i < j < r.len() implies cmp_static(r[i], r[j])
                    == Ord3::Greater by {
                    if i == 0 {
                        if j > 1 {
                            lemma_cmp_static_trans(d, s[0], s[j - 1]);
                        }
                    }
                }
            },
            Ord3::Equal => {},
            Ord3::Less => {
                let tail = s.drop_first();
                assert(static_sorted(tail)) by {
                    assert(forall|i: int, j: int|
                        0 <= i < j < tail.len() ==> tail[i] == s[i + 1] && tail[j] == s[j + 1]);
                }
                lemma_static_insert_sorted(tail, d);
                let rest = static_insert(tail, d);
                let r = seq![s[0]] + rest;
                assert forall|i: int, j: int| 0 <= i < j < r.len() implies cmp_static(r[i], r[j])
                    == Ord3::Greater by {
                    if i == 0 {
                        if rest[j - 1] == d {
                            lemma_cmp_static_flip(d, s[0]);
                        } else {
                            assert(tail.contains(rest[j - 1]));
                            let k = choose|k: int|
                                0 <= k < tail.len() && tail[k] == rest[j - 1];
                            assert(s[k + 1] == rest[j - 1]);
                        }
                    }
                }
                assert forall|i: int| 0 <= i < r.len() implies (#[trigger] r[i]) == d
                    || s.contains(r[i]) by {
                    if i == 0 {
                        assert(s.contains(s[0]));
                    } else if rest[i - 1] == d {
                    } else {
                        assert(tail.contains(rest[i - 1]));
                        let k = choose|k: int| 0 <= k < tail.len() && tail[k] == rest[i - 1];
                        assert(s[k + 1] == rest[i - 1]);
                        assert(s.contains(rest[i - 1]));
                    }
                }
            },
        }
    }
}

/// Adding keeps the set well formed.
pub proof fn lemma_add_static_wf(v: StaticsV, d: StaticDirectiveV)
    requires
        wf_statics(v),
    ensures
        wf_statics(add_static(v, d)),
{
    lemma_static_insert_sorted(v.directives, d);
    let r = add_static(v, d);
    assert forall|i: int| 0 <= i < r.directives.len() implies (#[trigger] r.directives[i]).level.rank()
        <= r.level.rank() by {
        if r.directives[i] == d {
        } else {
            assert(v.directives.contains(r.directives[i]));
            let k = choose|k: int|
                0 <= k < v.directives.len() && v.directives[k] == r.directives[i];
        }
    }
}

} // verus!
