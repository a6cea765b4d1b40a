//! Names of the attributes the optimizations look at, and verified
//! operations on attribute lists.
use vstd::prelude::*;
use crate::node::{Attribute, AttributeView, NameView, QualifiedName, attributes_view, option_string_view};

verus! {

pub const ID_NAME: &'static str = "id";
pub const CX_NAME: &'static str = "cx";
pub const CY_NAME: &'static str = "cy";
pub const HEIGHT_NAME: &'static str = "height";
pub const WIDTH_NAME: &'static str = "width";
pub const X_NAME: &'static str = "x";
pub const Y_NAME: &'static str = "y";
pub const R_NAME: &'static str = "r";
pub const RX_NAME: &'static str = "rx";
pub const RY_NAME: &'static str = "ry";
pub const PATH_DATA_NAME: &'static str = "d";
pub const FILL_NAME: &'static str = "fill";
pub const FILL_OPACITY_NAME: &'static str = "fill-opacity";
pub const STROKE_OPACITY_NAME: &'static str = "stroke-opacity";
pub const STROKE_WIDTH_NAME: &'static str = "stroke-width";
pub const NONE_VAL: &'static str = "none";

/// The first attribute of `attrs` whose local name is `name`.
pub open spec fn first_named(attrs: Seq<AttributeView>, name: Seq<char>) -> Option<AttributeView>
    decreases attrs.len(),
{
    if attrs.len() == 0 {
        None
    } else if attrs[0].name.local_name == name {
        Some(attrs[0])
    } else {
        first_named(attrs.drop_first(), name)
    }
}

/// Skipping a prefix in which no attribute is named `name` leaves the first
/// attribute named `name` as it is.
pub proof fn lemma_first_named_skip(attrs: Seq<AttributeView>, name: Seq<char>, i: int)
    requires
        0 <= i <= attrs.len(),
        forall|j: int| 0 <= j < i ==> #[trigger] attrs[j].name.local_name != name,
    ensures
        first_named(attrs, name) == first_named(attrs.skip(i), name),
    decreases i,
{
    if i > 0 {
        lemma_first_named_skip(attrs.drop_first(), name, i - 1);
        assert(attrs.drop_first().skip(i - 1) =~= attrs.skip(i));
    } else {
        assert(attrs.skip(0) =~= attrs);
    }
}

/// Whether two optional strings are equal.
pub fn option_string_eq(a: &Option<String>, b: &Option<String>) -> (r: bool)
    ensures
        r == (option_string_view(*a) == option_string_view(*b)),
{
    match (a, b) {
        (Some(x), Some(y)) => *x == *y,
        (None, None) => true,
        _ => false,
    }
}

/// Whether two qualified names are equal in all three parts.
pub fn name_eq(a: &QualifiedName, b: &QualifiedName) -> (r: bool)
    ensures
        r == (a@ == b@),
{
    a.local_name == b.local_name && option_string_eq(&a.namespace, &b.namespace)
        && option_string_eq(&a.prefix, &b.prefix)
}

/// Whether two attributes have equal names and equal values.
pub fn attribute_eq(a: &Attribute, b: &Attribute) -> (r: bool)
    ensures
        r == (a@ == b@),
{
    name_eq(&a.name, &b.name) && a.value == b.value
}

/// A copy of an optional string.
pub fn clone_option_string(o: &Option<String>) -> (r: Option<String>)
    ensures
        option_string_view(r) == option_string_view(*o),
{
    match o {
        Some(s) => Some(s.clone()),
        None => None,
    }
}

/// A copy of an attribute.
pub fn clone_attribute(a: &Attribute) -> (r: Attribute)
    ensures
        r@ == a@,
{
    Attribute {
        name: QualifiedName {
            local_name: a.name.local_name.clone(),
            namespace: clone_option_string(&a.name.namespace),
            prefix: clone_option_string(&a.name.prefix),
        },
        value: a.value.clone(),
    }
}

/// A copy of a list of attributes.
pub fn clone_attributes(attrs: &Vec<Attribute>) -> (r: Vec<Attribute>)
    ensures
        attributes_view(r@) == attributes_view(attrs@),
{
    let mut r: Vec<Attribute> = Vec::new();
    for i in 0..attrs.len()
        invariant
            r@.len() == i,
            forall|j: int| 0 <= j < i ==> #[trigger] r@[j]@ == attrs@[j]@,
    {
        r.push(clone_attribute(&attrs[i]));
    }
    assert(attributes_view(r@) =~= attributes_view(attrs@));
    r
}

/// The first attribute of `attrs` whose local name is `name`.
pub fn find_attribute<'a>(attrs: &'a Vec<Attribute>, name: &str) -> (r: Option<&'a Attribute>)
    ensures
        match r {
            Some(a) => first_named(attributes_view(attrs@), name@) == Some(a@),
            None => first_named(attributes_view(attrs@), name@) is None,
        },
{
    let ghost s = attributes_view(attrs@);
    for i in 0..attrs.len()
        invariant
            s == attributes_view(attrs@),
            forall|j: int| 0 <= j < i ==> #[trigger] s[j].name.local_name != name@,
    {
        if crate::text::string_is(&attrs[i].name.local_name, name) {
            proof {
                lemma_first_named_skip(s, name@, i as int);
                assert(s.skip(i as int)[0] == attrs@[i as int]@);
            }
            return Some(&attrs[i]);
        }
    }
    proof {
        lemma_first_named_skip(s, name@, s.len() as int);
        assert(s.skip(s.len() as int).len() == 0);
    }
    None
}

/// Whether `attrs` holds an attribute equal to `a`.
pub fn contains_attribute(attrs: &Vec<Attribute>, a: &Attribute) -> (r: bool)
    ensures
        r == attributes_view(attrs@).contains(a@),
{
    let ghost s = attributes_view(attrs@);
    for i in 0..attrs.len()
        invariant
            s == attributes_view(attrs@),
            forall|j: int| 0 <= j < i ==> #[trigger] s[j] != a@,
    {
        if attribute_eq(&attrs[i], a) {
            assert(s[i as int] == a@);
            return true;
        }
    }
    false
}

/// Whether some attribute in `attrs` is named `name`.
pub open spec fn has_name(attrs: Seq<AttributeView>, name: NameView) -> bool {
    exists|j: int| 0 <= j < attrs.len() && (#[trigger] attrs[j]).name == name
}

/// Whether `attrs` holds an attribute with the same name as `name`.
pub fn contains_name(attrs: &Vec<Attribute>, name: &QualifiedName) -> (r: bool)
    ensures
        r == has_name(attributes_view(attrs@), name@),
{
    let ghost s = attributes_view(attrs@);
    for i in 0..attrs.len()
        invariant
            s == attributes_view(attrs@),
            forall|j: int| 0 <= j < i ==> (#[trigger] s[j]).name != name@,
    {
        if name_eq(&attrs[i].name, name) {
            assert(s[i as int].name == name@);
            return true;
        }
    }
    false
}

/// Filtering by `p` and then by `q` filters by both at once.
pub proof fn lemma_filter_filter<A>(s: Seq<A>, p: spec_fn(A) -> bool, q: spec_fn(A) -> bool)
    ensures
        s.filter(p).filter(q) == s.filter(|a: A| p(a) && q(a)),
    decreases s.len(),
{
    reveal(Seq::filter);
    if s.len() > 0 {
        lemma_filter_filter(s.drop_last(), p, q);
        let pq = |a: A| p(a) && q(a);
        if p(s.last()) {
            assert(s.filter(p).drop_last() =~= s.drop_last().filter(p));
        }
    }
}

/// Filtering by two predicates that agree on every element of `s` gives the
/// same sequence.
pub proof fn lemma_filter_agree<A>(s: Seq<A>, p: spec_fn(A) -> bool, q: spec_fn(A) -> bool)
    requires
        forall|j: int| 0 <= j < s.len() ==> p(#[trigger] s[j]) == q(s[j]),
    ensures
        s.filter(p) == s.filter(q),
    decreases s.len(),
{
    reveal(Seq::filter);
    if s.len() > 0 {
        lemma_filter_agree(s.drop_last(), p, q);
        assert(s.last() == s[s.len() - 1]);
    }
}

/// An element kept by a filter was in the sequence and satisfies the predicate;
/// every element of the sequence that satisfies it is kept.
pub proof fn lemma_filter_contains<A>(s: Seq<A>, p: spec_fn(A) -> bool, a: A)
    ensures
        s.filter(p).contains(a) <==> (s.contains(a) && p(a)),
    decreases s.len(),
{
    reveal(Seq::filter);
    if s.len() > 0 {
        lemma_filter_contains(s.drop_last(), p, a);
        if s.drop_last().contains(a) {
            let j = choose|j: int| 0 <= j < s.drop_last().len() && s.drop_last()[j] == a;
            assert(s[j] == a);
        }
        if s.contains(a) && !s.drop_last().contains(a) {
            let j = choose|j: int| 0 <= j < s.len() && s[j] == a;
            if j < s.len() - 1 {
                assert(s.drop_last()[j] == a);
            }
            assert(s.last() == a);
        }
        if s.filter(p).contains(a) {
            let j = choose|j: int| 0 <= j < s.filter(p).len() && s.filter(p)[j] == a;
            if p(s.last()) && j == s.filter(p).len() - 1 {
                assert(s[s.len() - 1] == a);
            } else {
                assert(s.drop_last().filter(p)[j] == a);
            }
        }
        if s.drop_last().filter(p).contains(a) && p(s.last()) {
            let j = choose|j: int| 0 <= j < s.drop_last().filter(p).len() && s.drop_last().filter(p)[j] == a;
            assert(s.filter(p)[j] == a);
        }
        if p(s.last()) && s.last() == a {
            assert(s.filter(p)[s.filter(p).len() - 1] == a);
        }
    }
}

/// Filtering by a predicate that holds on every element keeps the sequence.
pub proof fn lemma_filter_keeps_all<A>(s: Seq<A>, p: spec_fn(A) -> bool)
    requires
        forall|j: int| 0 <= j < s.len() ==> p(#[trigger] s[j]),
    ensures
        s.filter(p) == s,
    decreases s.len(),
{
    reveal(Seq::filter);
    if s.len() > 0 {
        lemma_filter_keeps_all(s.drop_last(), p);
        assert(s.drop_last().push(s.last()) =~= s);
    }
}

/// Filtering by a predicate that holds on no element leaves nothing.
pub proof fn lemma_filter_keeps_none<A>(s: Seq<A>, p: spec_fn(A) -> bool)
    requires
        forall|j: int| 0 <= j < s.len() ==> !p(#[trigger] s[j]),
    ensures
        s.filter(p) =~= Seq::<A>::empty(),
    decreases s.len(),
{
    reveal(Seq::filter);
    if s.len() > 0 {
        lemma_filter_keeps_none(s.drop_last(), p);
        assert(!p(s[s.len() - 1]));
    }
}

/// Keeps, in order, the attributes that `keep` accepts; `keep` decides as
/// `pred` does on the attribute's model.
pub fn filter_attributes<F: Fn(&Attribute) -> bool>(
    attrs: Vec<Attribute>,
    keep: F,
    Ghost(pred): Ghost<spec_fn(AttributeView) -> bool>,
) -> (r: Vec<Attribute>)
    requires
        forall|a: &Attribute| call_requires(keep, (a,)),
        forall|a: &Attribute, b: bool| call_ensures(keep, (a,), b) ==> b == pred(a@),
    ensures
        attributes_view(r@) == attributes_view(attrs@).filter(pred),
{
    let ghost s = attributes_view(attrs@);
    let mut r: Vec<Attribute> = Vec::new();
    for a in it: attrs.into_iter()
        invariant
            it.seq() == attrs@,
            s == attributes_view(attrs@),
            forall|a: &Attribute| call_requires(keep, (a,)),
            forall|a: &Attribute, b: bool| call_ensures(keep, (a,), b) ==> b == pred(a@),
            attributes_view(r@) == s.take(it.index() as int).filter(pred),
    {
        let ghost i = it.index() as int;
        let k = keep(&a);
        proof {
            reveal(Seq::filter);
            assert(s.take(i + 1).drop_last() =~= s.take(i));
            assert(s.take(i + 1).last() == a@);
        }
        if k {
            r.push(a);
            assert(attributes_view(r@) =~= s.take(i + 1).filter(pred));
        } else {
            assert(attributes_view(r@) =~= s.take(i + 1).filter(pred));
        }
    }
    assert(s.take(s.len() as int) =~= s);
    r
}

} // verus!
