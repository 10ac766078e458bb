//! What values become in tuples, in types of several kinds, and as numbers with fractions.
use vstd::prelude::*;

use crate::coerce::{across_fitted, find_integer_type, fitted, fitted_tuple, integer_as};
use crate::error::{Error, WriteReason};
use crate::float_bits::{double_of_int, i64_of_double, single_of_double};
use crate::float_laws::law_integers_are_held_exactly;
use crate::guess::guessed;
use crate::ingest_laws::{bounds_of, is_of, number_in};
use crate::type_order::sorted_types;
use crate::types::TypeView;
use crate::values::ValueView;

verus! {

// ---------------------------------------------------------------------------
// Tuples
// ---------------------------------------------------------------------------

/// The fields of a tuple are converted one by one, each to its own type. An array is taken for a
/// tuple, and what has not as many fields as the type is refused.
pub proof fn law_tuples_are_converted_by_fields(s: Seq<ValueView>, ts: Seq<TypeView>, i: int)
    ensures
        fitted(ValueView::Array(s), TypeView::Tuple(ts)) == fitted(
            ValueView::Tuple(s),
            TypeView::Tuple(ts),
        ),
        s.len() != ts.len() ==> fitted(ValueView::Tuple(s), TypeView::Tuple(ts)) == Err::<
            ValueView,
            Error,
        >(Error::SerializeError(WriteReason::Coercion)),
        0 <= i < s.len() ==> match fitted(ValueView::Tuple(s), TypeView::Tuple(ts)) {
            Ok(ValueView::Tuple(x)) => x.len() == s.len() && fitted(s[i], ts[i]) == Ok::<_, Error>(
                x[i],
            ),
            Ok(_) => false,
            Err(_) => true,
        },
{
    assert(fitted(ValueView::Tuple(s), TypeView::Tuple(ts)) == fitted_tuple(s, ts));
    if s.len() == ts.len() && across_fitted(s, ts) is Ok {
        lemma_across(s, ts, i);
    }
}

proof fn lemma_across(s: Seq<ValueView>, ts: Seq<TypeView>, i: int)
    requires
        s.len() == ts.len(),
        across_fitted(s, ts) is Ok,
    ensures
        across_fitted(s, ts)->Ok_0.len() == s.len(),
        0 <= i < s.len() ==> fitted(s[i], ts[i]) == Ok::<_, Error>(across_fitted(s, ts)->Ok_0[i]),
    decreases s.len(),
{
    if s.len() > 0 {
        let s1 = s.subrange(1, s.len() as int);
        let t1 = ts.subrange(1, ts.len() as int);
        lemma_across(s1, t1, i - 1);
        if 0 < i < s.len() {
            assert(s1[i - 1] == s[i] && t1[i - 1] == ts[i]);
        }
    }
}

// ---------------------------------------------------------------------------
// Variants
// ---------------------------------------------------------------------------

/// Whether a type of integers can hold a number.
pub open spec fn holds(t: TypeView, x: int) -> bool {
    bounds_of(t).0 <= x <= bounds_of(t).1
}

proof fn lemma_holds(t: TypeView, x: int)
    requires
        -0x8000_0000_0000_0000 <= x <= 0xFFFF_FFFF_FFFF_FFFF,
    ensures
        holds(t, x) <==> (integer_as(x, t) matches Some(w) && number_in(w) == Some(x)),
        holds(t, x) ==> is_of(integer_as(x, t)->0, t),
{
}

proof fn lemma_found(ts: Seq<TypeView>, x: int, from: int, i: int)
    requires
        -0x8000_0000_0000_0000 <= x <= 0xFFFF_FFFF_FFFF_FFFF,
        0 <= from <= i <= ts.len(),
        forall|j: int| from <= j < i ==> !holds(#[trigger] ts[j], x),
        i < ts.len() ==> holds(ts[i], x),
    ensures
        find_integer_type(ts, x, from) == (if i < ts.len() {
            Some(i)
        } else {
            None
        }),
    decreases i - from,
{
    if from < ts.len() {
        lemma_holds(ts[from], x);
        lemma_holds(ts[from], 0);
        if from < i {
            assert(!holds(ts[from], x));
            lemma_found(ts, x, from + 1, i);
        }
    }
}

/// An integer whose own type is none of a variant's goes into the first type of integers, in the
/// order of the names, that can hold it, and keeps its value there.
pub proof fn law_integers_in_variants(v: ValueView, ts: Seq<TypeView>, i: int)
    requires
        number_in(v) is Some,
        forall|j: int|
            0 <= j < sorted_types(ts).len() ==> #[trigger] sorted_types(ts)[j] != guessed(v),
        0 <= i < sorted_types(ts).len(),
        i < 255,
        holds(sorted_types(ts)[i], number_in(v)->0),
        forall|j: int| 0 <= j < i ==> !holds(#[trigger] sorted_types(ts)[j], number_in(v)->0),
    ensures
        match fitted(v, TypeView::Variant(ts)) {
            Ok(ValueView::Variant(d, w)) => d == i && is_of(*w, sorted_types(ts)[i]) && number_in(
                *w,
            ) == number_in(v),
            _ => false,
        },
{
    let sorted = sorted_types(ts);
    lemma_not_found(sorted, guessed(v), 0);
    lemma_found(sorted, number_in(v)->0, 0, i);
    lemma_holds(sorted[i], number_in(v)->0);
}

/// A value whose type is none of a variant's is refused, and an integer that none of its types of
/// integers can hold.
pub proof fn law_values_that_are_in_no_variant(v: ValueView, ts: Seq<TypeView>)
    requires
        !(v is Null),
        forall|j: int|
            0 <= j < sorted_types(ts).len() ==> #[trigger] sorted_types(ts)[j] != guessed(v),
        number_in(v) is Some ==> forall|j: int|
            0 <= j < sorted_types(ts).len() ==> !holds(
                #[trigger] sorted_types(ts)[j],
                number_in(v)->0,
            ),
    ensures
        fitted(v, TypeView::Variant(ts)) == Err::<ValueView, Error>(
            Error::SerializeError(WriteReason::NoMatchingVariant),
        ),
{
    let sorted = sorted_types(ts);
    lemma_not_found(sorted, guessed(v), 0);
    if number_in(v) is Some {
        lemma_found(sorted, number_in(v)->0, 0, sorted.len() as int);
    }
}

proof fn lemma_not_found(ts: Seq<TypeView>, t: TypeView, from: int)
    requires
        0 <= from <= ts.len(),
        forall|j: int| 0 <= j < ts.len() ==> #[trigger] ts[j] != t,
    ensures
        crate::columns::find_type(ts, t, from) is None,
    decreases ts.len() - from,
{
    if from < ts.len() {
        assert(ts[from] != t);
        lemma_not_found(ts, t, from + 1);
    }
}

// ---------------------------------------------------------------------------
// Numbers with fractions
// ---------------------------------------------------------------------------

/// An integer below two to the power of 53 becomes a number of double precision and comes back
/// from it as it was. Single precision is the rounded double.
pub proof fn law_integers_as_fractions(v: ValueView)
    requires
        number_in(v) is Some,
        -0x20_0000_0000_0000 < number_in(v)->0 < 0x20_0000_0000_0000,
    ensures
        match fitted(v, TypeView::Float64) {
            Ok(ValueView::Float64(b)) => {
                &&& fitted(ValueView::Float64(b), TypeView::Int64) == Ok::<_, Error>(
                    ValueView::Int64(number_in(v)->0 as i64),
                )
                &&& fitted(v, TypeView::Float32) == Ok::<_, Error>(
                    ValueView::Float32(single_of_double(b) as u32),
                )
                &&& fitted(ValueView::Float64(b), TypeView::Float32) == fitted(v, TypeView::Float32)
            },
            _ => false,
        },
{
    let x = number_in(v)->0;
    if x >= 0 {
        law_integers_are_held_exactly(x as nat);
    } else {
        law_integers_are_held_exactly((-x) as nat);
        assert(-((-x) as nat) as int == x);
    }
    assert(i64_of_double(double_of_int(x) as u64) == x);
}

/// What is no number, no text and not null becomes no number with a fraction; a number of single
/// precision stays itself.
pub proof fn law_fractions_come_from_numbers(v: ValueView, x: u32)
    ensures
        v is Array || v is Tuple || v is MapOf || v is Bool || v is Date ==> fitted(
            v,
            TypeView::Float64,
        ) is Err && fitted(v, TypeView::Float32) is Err,
        fitted(ValueView::Float32(x), TypeView::Float32) == Ok::<_, Error>(ValueView::Float32(x)),
{
}

} // verus!
