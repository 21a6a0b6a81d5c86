//! The total order that the comparison operators of a type describe, as
//! contracts speak of it.

use core::cmp::Ordering;
use vstd::laws_cmp::{
    obeys_cmp, obeys_cmp_ord, obeys_cmp_partial_ord, obeys_partial_cmp_spec_properties,
};
use vstd::laws_eq::obeys_eq_spec_properties;
use vstd::prelude::*;
use vstd::std_specs::cmp::{OrdSpec, PartialEqSpec, PartialOrdSpec};

verus! {

/// The comparisons of `T` are those of one total order: any two values
/// compare, the operators agree with each other, `<` and `>` are transitive
/// and mirror each other, and `==` is symmetric and transitive.
pub open spec fn lawful_order<T: Ord>() -> bool {
    obeys_cmp::<T>()
}

/// `a < b` in the order of `T`.
pub open spec fn less<T: Ord>(a: T, b: T) -> bool {
    a.partial_cmp_spec(&b) == Some(Ordering::Less)
}

/// `a > b` in the order of `T`.
pub open spec fn greater<T: Ord>(a: T, b: T) -> bool {
    a.partial_cmp_spec(&b) == Some(Ordering::Greater)
}

/// `a` and `b` take the same place in the order of `T`. They need not be
/// the same value.
pub open spec fn equivalent<T: Ord>(a: T, b: T) -> bool {
    a.partial_cmp_spec(&b) == Some(Ordering::Equal)
}

/// `a <= b` in the order of `T`.
pub open spec fn at_most<T: Ord>(a: T, b: T) -> bool {
    less(a, b) || equivalent(a, b)
}

/// Under a lawful order the comparison operators return what `less`,
/// `at_most`, `greater` and `equivalent` say.
pub proof fn lemma_operators_follow_order<T: Ord>()
    requires
        lawful_order::<T>(),
    ensures
        T::obeys_partial_cmp_spec(),
        T::obeys_eq_spec(),
        T::obeys_cmp_spec(),
{
    reveal(obeys_cmp_partial_ord);
    reveal(obeys_cmp_ord);
}

/// Exactly one of `a < b`, `a ~ b` and `a > b` holds, and turning the pair
/// round turns the answer round.
pub proof fn lemma_trichotomy<T: Ord>(a: T, b: T)
    requires
        lawful_order::<T>(),
    ensures
        less(a, b) || equivalent(a, b) || greater(a, b),
        !(less(a, b) && equivalent(a, b)),
        !(less(a, b) && greater(a, b)),
        !(equivalent(a, b) && greater(a, b)),
        less(a, b) <==> greater(b, a),
        equivalent(a, b) <==> equivalent(b, a),
        at_most(a, b) <==> !greater(a, b),
{
    reveal(obeys_cmp_partial_ord);
    reveal(obeys_cmp_ord);
    reveal(obeys_partial_cmp_spec_properties);
    reveal(obeys_eq_spec_properties);
}

/// Equivalence is transitive.
pub proof fn lemma_equivalent_transitive<T: Ord>(a: T, b: T, c: T)
    requires
        lawful_order::<T>(),
        equivalent(a, b),
        equivalent(b, c),
    ensures
        equivalent(a, c),
{
    reveal(obeys_cmp_partial_ord);
    reveal(obeys_eq_spec_properties);
}

/// `<` is transitive.
pub proof fn lemma_less_transitive<T: Ord>(a: T, b: T, c: T)
    requires
        lawful_order::<T>(),
        less(a, b),
        less(b, c),
    ensures
        less(a, c),
{
    reveal(obeys_partial_cmp_spec_properties);
}

/// `<=` is transitive, and the result is strict where either step is.
pub proof fn lemma_at_most_transitive<T: Ord>(a: T, b: T, c: T)
    requires
        lawful_order::<T>(),
        at_most(a, b),
        at_most(b, c),
    ensures
        at_most(a, c),
        less(a, b) || less(b, c) ==> less(a, c),
{
    lemma_trichotomy(a, b);
    lemma_trichotomy(b, c);
    lemma_trichotomy(a, c);
    lemma_trichotomy(c, a);
    lemma_trichotomy(b, a);
    lemma_trichotomy(c, b);
    if equivalent(a, b) && equivalent(b, c) {
        lemma_equivalent_transitive(a, b, c);
    } else if less(a, b) && less(b, c) {
        lemma_less_transitive(a, b, c);
    } else if equivalent(a, b) {
        // a ~ b < c
        if equivalent(a, c) {
            lemma_equivalent_transitive(b, a, c);
        } else if greater(a, c) {
            lemma_less_transitive(b, c, a);
        }
    } else {
        // a < b ~ c
        if equivalent(a, c) {
            lemma_equivalent_transitive(a, c, b);
        } else if greater(a, c) {
            lemma_less_transitive(c, a, b);
        }
    }
}

/// Non-decreasing integers: no element is greater than one that follows it.
pub open spec fn sorted(s: Seq<i32>) -> bool {
    forall|i: int, j: int| 0 <= i <= j < s.len() ==> s[i] <= s[j]
}

/// No element is greater, in the order of `T`, than one that follows it.
pub open spec fn in_order<T: Ord>(s: Seq<T>) -> bool {
    forall|i: int, j: int| 0 <= i < j < s.len() ==> at_most(s[i], s[j])
}

/// The elements of `s` that are equivalent to `x`, in the order in which
/// they stand in `s`.
pub open spec fn class_of<T: Ord>(s: Seq<T>, x: T) -> Seq<T> {
    s.filter(|y: T| equivalent(y, x))
}

/// `a` and `b` list each group of equivalent elements in the same order:
/// turning one into the other never moves an element past an equivalent one.
pub open spec fn same_classes<T: Ord>(a: Seq<T>, b: Seq<T>) -> bool {
    forall|x: T| #[trigger] class_of(a, x) == class_of(b, x)
}

/// The order of `i32` is lawful and is the order of the integers, so what
/// is promised for a lawful order holds of lists of `i32`.
pub proof fn lemma_i32_order()
    ensures
        lawful_order::<i32>(),
        forall|a: i32, b: i32| #[trigger] less(a, b) <==> a < b,
        forall|a: i32, b: i32| #[trigger] greater(a, b) <==> a > b,
        forall|a: i32, b: i32| #[trigger] equivalent(a, b) <==> a == b,
        forall|a: i32, b: i32| #[trigger] at_most(a, b) <==> a <= b,
{
    broadcast use vstd::laws_cmp::group_laws_cmp;

}

/// For integers, `in_order` and `sorted` say the same: the sort for any
/// ordered type and the sorts for integers promise one and the same order.
pub proof fn lemma_in_order_is_sorted(s: Seq<i32>)
    ensures
        in_order(s) <==> sorted(s),
{
    lemma_i32_order();
    if in_order(s) {
        assert forall|i: int, j: int| 0 <= i <= j < s.len() implies s[i] <= s[j] by {
            if i < j {
                assert(at_most(s[i], s[j]));
            }
        }
    }
    if sorted(s) {
        assert forall|i: int, j: int| 0 <= i < j < s.len() implies at_most(s[i], s[j]) by {
            assert(s[i] <= s[j]);
        }
    }
}

} // verus!
