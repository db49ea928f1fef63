//! A three-way comparison result and the comparators the specificity
//! order is built from, with the laws (reflexivity, antisymmetry,
//! transitivity, equality-consistency) that make each a total order.

use vstd::prelude::*;

verus! {

use vstd::string::StrSliceExecFns;

/// The result of a three-way comparison.
#[derive(Clone, Copy, Debug, PartialEq, Eq, Structural)]
pub enum Ord3 {
    Less,
    Equal,
    Greater,
}

/// The opposite comparison result.
pub open spec fn flip(o: Ord3) -> Ord3 {
    match o {
        Ord3::Less => Ord3::Greater,
        Ord3::Equal => Ord3::Equal,
        Ord3::Greater => Ord3::Less,
    }
}

/// Lexicographic chaining: the first comparison decides unless it is a tie.
pub open spec fn chain(a: Ord3, b: Ord3) -> Ord3 {
    match a {
        Ord3::Equal => b,
        _ => a,
    }
}

pub open spec fn cmp_int(a: int, b: int) -> Ord3 {
    if a < b {
        Ord3::Less
    } else if a == b {
        Ord3::Equal
    } else {
        Ord3::Greater
    }
}

/// `false` orders before `true`.
pub open spec fn cmp_bool(a: bool, b: bool) -> Ord3 {
    match (a, b) {
        (false, true) => Ord3::Less,
        (true, false) => Ord3::Greater,
        _ => Ord3::Equal,
    }
}

pub open spec fn cmp_char(a: char, b: char) -> Ord3 {
    cmp_int(a as u32 as int, b as u32 as int)
}

/// Lexicographic order on character sequences, by code point, a shorter
/// prefix ordering before its extensions.
pub open spec fn cmp_chars(a: Seq<char>, b: Seq<char>) -> Ord3
    decreases a.len(),
{
    if a.len() == 0 && b.len() == 0 {
        Ord3::Equal
    } else if a.len() == 0 {
        Ord3::Less
    } else if b.len() == 0 {
        Ord3::Greater
    } else if cmp_char(a[0], b[0]) == Ord3::Equal {
        cmp_chars(a.drop_first(), b.drop_first())
    } else {
        cmp_char(a[0], b[0])
    }
}

/// An absent value orders before any present one.
pub open spec fn cmp_opt_chars(a: Option<Seq<char>>, b: Option<Seq<char>>) -> Ord3 {
    match (a, b) {
        (Option::None, Option::None) => Ord3::Equal,
        (Option::None, Option::Some(_)) => Ord3::Less,
        (Option::Some(_), Option::None) => Ord3::Greater,
        (Option::Some(x), Option::Some(y)) => cmp_chars(x, y),
    }
}

/// Compare optional texts by presence, then length alone.
pub open spec fn cmp_opt_len(a: Option<Seq<char>>, b: Option<Seq<char>>) -> Ord3 {
    match (a, b) {
        (Option::None, Option::None) => Ord3::Equal,
        (Option::None, Option::Some(_)) => Ord3::Less,
        (Option::Some(_), Option::None) => Ord3::Greater,
        (Option::Some(x), Option::Some(y)) => cmp_int(x.len() as int, y.len() as int),
    }
}

/// The view of an optional owned text.
pub open spec fn opt_str_view(o: Option<String>) -> Option<Seq<char>> {
    match o {
        Option::None => None,
        Option::Some(s) => Some(s@),
    }
}

/// Three-way comparison of two texts in the lexicographic order.
pub fn str_compare(a: &str, b: &str) -> (r: Ord3)
    ensures
        r == cmp_chars(a@, b@),
{
    let alen = a.unicode_len();
    let blen = b.unicode_len();
    let mut i: usize = 0;
    proof {
        assert(a@.skip(0) =~= a@);
        assert(b@.skip(0) =~= b@);
    }
    while i < alen && i < blen
        invariant
            i <= alen,
            i <= blen,
            alen == a@.len(),
            blen == b@.len(),
            cmp_chars(a@, b@) == cmp_chars(a@.skip(i as int), b@.skip(i as int)),
        decreases alen - i,
    {
        let ca = a.get_char(i);
        let cb = b.get_char(i);
        proof {
            assert(a@.skip(i as int)[0] == a@[i as int]);
            assert(b@.skip(i as int)[0] == b@[i as int]);
        }
        if (ca as u32) < (cb as u32) {
            return Ord3::Less;
        }
        if (ca as u32) > (cb as u32) {
            return Ord3::Greater;
        }
        proof {
            assert(a@.skip(i + 1) =~= a@.skip(i as int).drop_first());
            assert(b@.skip(i + 1) =~= b@.skip(i as int).drop_first());
        }
        i = i + 1;
    }
    proof {
        if alen == blen {
            assert(a@.skip(i as int) =~= Seq::<char>::empty());
            assert(b@.skip(i as int) =~= Seq::<char>::empty());
        }
    }
    if alen == blen {
        Ord3::Equal
    } else if i == alen {
        Ord3::Less
    } else {
        Ord3::Greater
    }
}

/// Three-way comparison of optional texts: absent first, then lexicographic.
pub fn opt_str_compare(a: &Option<String>, b: &Option<String>) -> (r: Ord3)
    ensures
        r == cmp_opt_chars(opt_str_view(*a), opt_str_view(*b)),
{
    match (a, b) {
        (Option::None, Option::None) => Ord3::Equal,
        (Option::None, Option::Some(_)) => Ord3::Less,
        (Option::Some(_), Option::None) => Ord3::Greater,
        (Option::Some(x), Option::Some(y)) => str_compare(x.as_str(), y.as_str()),
    }
}

/// Three-way comparison of optional texts by presence and length alone.
pub fn opt_len_compare(a: &Option<String>, b: &Option<String>) -> (r: Ord3)
    ensures
        r == cmp_opt_len(opt_str_view(*a), opt_str_view(*b)),
{
    match (a, b) {
        (Option::None, Option::None) => Ord3::Equal,
        (Option::None, Option::Some(_)) => Ord3::Less,
        (Option::Some(_), Option::None) => Ord3::Greater,
        (Option::Some(x), Option::Some(y)) => {
            let xl = x.as_str().unicode_len();
            let yl = y.as_str().unicode_len();
            if xl < yl {
                Ord3::Less
            } else if xl == yl {
                Ord3::Equal
            } else {
                Ord3::Greater
            }
        },
    }
}

pub proof fn lemma_cmp_chars_refl(a: Seq<char>)
    ensures
        cmp_chars(a, a) == Ord3::Equal,
    decreases a.len(),
{
    if a.len() > 0 {
        lemma_cmp_chars_refl(a.drop_first());
    }
}

pub proof fn lemma_cmp_chars_equal(a: Seq<char>, b: Seq<char>)
    requires
        cmp_chars(a, b) == Ord3::Equal,
    ensures
        a =~= b,
    decreases a.len(),
{
    if a.len() > 0 && b.len() > 0 {
        lemma_cmp_chars_equal(a.drop_first(), b.drop_first());
        assert(a[0] as u32 == b[0] as u32);
        assert(a[0] == b[0]) by {
            vstd::utf8::char_u32_cast(a[0], a[0] as u32);
            vstd::utf8::char_u32_cast(b[0], b[0] as u32);
        }
        assert(a =~= seq![a[0]] + a.drop_first());
        assert(b =~= seq![b[0]] + b.drop_first());
    }
}

pub proof fn lemma_cmp_chars_flip(a: Seq<char>, b: Seq<char>)
    ensures
        cmp_chars(a, b) == flip(cmp_chars(b, a)),
    decreases a.len(),
{
    if a.len() > 0 && b.len() > 0 {
        lemma_cmp_chars_flip(a.drop_first(), b.drop_first());
    }
}

pub proof fn lemma_cmp_chars_trans(a: Seq<char>, b: Seq<char>, c: Seq<char>)
    requires
        cmp_chars(a, b) == Ord3::Greater,
        cmp_chars(b, c) == Ord3::Greater,
    ensures
        cmp_chars(a, c) == Ord3::Greater,
    decreases a.len(),
{
    if b.len() == 0 {
        // then c is empty too, contradiction with cmp(b, c) == Greater
        assert(false);
    } else if a.len() > 0 && c.len() > 0 {
        if cmp_char(a[0], b[0]) == Ord3::Equal && cmp_char(b[0], c[0]) == Ord3::Equal {
            lemma_cmp_chars_trans(a.drop_first(), b.drop_first(), c.drop_first());
        }
    }
}

pub proof fn lemma_cmp_opt_chars_refl(a: Option<Seq<char>>)
    ensures
        cmp_opt_chars(a, a) == Ord3::Equal,
{
    if a is Some {
        lemma_cmp_chars_refl(a->Some_0);
    }
}

pub proof fn lemma_cmp_opt_chars_equal(a: Option<Seq<char>>, b: Option<Seq<char>>)
    requires
        cmp_opt_chars(a, b) == Ord3::Equal,
    ensures
        a == b,
{
    match (a, b) {
        (Option::Some(x), Option::Some(y)) => {
            lemma_cmp_chars_equal(x, y);
        },
        _ => {},
    }
}

pub proof fn lemma_cmp_opt_chars_flip(a: Option<Seq<char>>, b: Option<Seq<char>>)
    ensures
        cmp_opt_chars(a, b) == flip(cmp_opt_chars(b, a)),
{
    match (a, b) {
        (Option::Some(x), Option::Some(y)) => lemma_cmp_chars_flip(x, y),
        _ => {},
    }
}

pub proof fn lemma_cmp_opt_chars_trans(
    a: Option<Seq<char>>,
    b: Option<Seq<char>>,
    c: Option<Seq<char>>,
)
    requires
        cmp_opt_chars(a, b) == Ord3::Greater,
        cmp_opt_chars(b, c) == Ord3::Greater,
    ensures
        cmp_opt_chars(a, c) == Ord3::Greater,
{
    match (a, b, c) {
        (Option::Some(x), Option::Some(y), Option::Some(z)) => {
            lemma_cmp_chars_trans(x, y, z);
        },
        _ => {},
    }
}

} // verus!
