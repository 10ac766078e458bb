//! What types values have, what types start with, and what values become in other types.
use vstd::arithmetic::div_mod::{
    lemma_fundamental_div_mod, lemma_mod_add_multiples_vanish, lemma_mod_multiples_basic,
    lemma_small_mod,
};
use vstd::prelude::*;
use vstd::utf8::encode_utf8;

use crate::coerce::{all_fitted, fitted};
use crate::columns::discriminated;
use crate::error::Error;
use crate::guess::{default_of, defaults_of, guessed, guesses};
use crate::ingest_laws::{bounds_of, is_of, number_in};
use crate::json_columns::fill_of;
use crate::json_paths::{leaf_value, leaf_values, leaves, member_leaves};
use crate::json_value::{JsonNumber, JsonView};
use crate::json_text::json_of_text;
use crate::sql_json::held_document;
use crate::text::{int_text, law_int_text_reads_back, text_le};
use crate::type_display::type_text;
use crate::type_order::sorted_types;
use crate::types::{nullable, stripped, TypeView};
use crate::values::ValueView;

verus! {

// ---------------------------------------------------------------------------
// Types of values
// ---------------------------------------------------------------------------

/// A scalar has the type of its own name.
pub proof fn law_types_of_scalars(v: ValueView)
    ensures
        v is Int8 ==> guessed(v) is Int8,
        v is Int16 ==> guessed(v) is Int16,
        v is Int32 ==> guessed(v) is Int32,
        v is Int64 ==> guessed(v) is Int64,
        v is Int128 ==> guessed(v) is Int128,
        v is Int256 ==> guessed(v) is Int256,
        v is UInt8 ==> guessed(v) is UInt8,
        v is UInt16 ==> guessed(v) is UInt16,
        v is UInt32 ==> guessed(v) is UInt32,
        v is UInt64 ==> guessed(v) is UInt64,
        v is UInt128 ==> guessed(v) is UInt128,
        v is UInt256 ==> guessed(v) is UInt256,
        v is Float32 ==> guessed(v) is Float32,
        v is Float64 ==> guessed(v) is Float64,
        v is String ==> guessed(v) is String,
        v is Uuid ==> guessed(v) is Uuid,
        v is Date ==> guessed(v) is Date,
        v is Date32 ==> guessed(v) is Date32,
        v is Ipv4 ==> guessed(v) is Ipv4,
        v is Ipv6 ==> guessed(v) is Ipv6,
        v is Bool ==> guessed(v) is Bool,
        v is Point ==> guessed(v) is Point,
        v is Ring ==> guessed(v) is Ring,
        v is Polygon ==> guessed(v) is Polygon,
        v is MultiPolygon ==> guessed(v) is MultiPolygon,
        v is Object ==> guessed(v) is Object,
        v is Json ==> guessed(v) is Object,
        v is Dynamic ==> guessed(v) is Dynamic,
        v matches ValueView::Decimal32(s, _) ==> guessed(v) == TypeView::Decimal32(s),
        v matches ValueView::Decimal64(s, _) ==> guessed(v) == TypeView::Decimal64(s),
        v matches ValueView::Decimal128(s, _) ==> guessed(v) == TypeView::Decimal128(s),
        v matches ValueView::Decimal256(s, _) ==> guessed(v) == TypeView::Decimal256(s),
        v matches ValueView::DateTime(tz, _) ==> guessed(v) == TypeView::DateTime(tz),
        v matches ValueView::DateTime64(tz, _, p) ==> guessed(v) == TypeView::DateTime64(p, tz),
        v is Null ==> guessed(v) == TypeView::Nullable(Box::new(TypeView::String)),
{
}

/// An array of values of one type is an array of that type, whatever nulls are among them; one
/// of nulls alone is an array of strings.
pub proof fn law_types_of_arrays(s: Seq<ValueView>, t: TypeView)
    requires
        forall|i: int| 0 <= i < s.len() ==> (#[trigger] s[i]) is Null || guessed(s[i]) == t,
    ensures
        (exists|i: int| 0 <= i < s.len() && !((#[trigger] s[i]) is Null)) ==> guessed(
            ValueView::Array(s),
        ) == TypeView::Array(Box::new(t)),
        (forall|i: int| 0 <= i < s.len() ==> (#[trigger] s[i]) is Null) ==> guessed(
            ValueView::Array(s),
        ) == TypeView::Array(Box::new(TypeView::String)),
{
    lemma_guesses_of_one(s, t);
}

proof fn lemma_guesses_of_one(s: Seq<ValueView>, t: TypeView)
    requires
        forall|i: int| 0 <= i < s.len() ==> (#[trigger] s[i]) is Null || guessed(s[i]) == t,
    ensures
        (exists|i: int| 0 <= i < s.len() && !((#[trigger] s[i]) is Null)) ==> guesses(s) == seq![t],
        (forall|i: int| 0 <= i < s.len() ==> (#[trigger] s[i]) is Null) ==> guesses(s).len() == 0,
    decreases s.len(),
{
    if s.len() > 0 {
        let head = s.subrange(0, s.len() - 1);
        let last = s[s.len() - 1];
        assert forall|i: int| 0 <= i < head.len() implies (#[trigger] head[i]) is Null || guessed(
            head[i],
        ) == t by {
            assert(head[i] == s[i]);
        }
        lemma_guesses_of_one(head, t);
        if forall|i: int| 0 <= i < head.len() ==> (#[trigger] head[i]) is Null {
            if last is Null {
                assert forall|i: int| 0 <= i < s.len() implies (#[trigger] s[i]) is Null by {
                    if i < head.len() {
                        assert(head[i] == s[i]);
                    }
                }
            } else {
                assert(guesses(head).len() == 0);
                assert(guesses(s) =~= seq![t]);
            }
        } else {
            let i = choose|i: int| 0 <= i < head.len() && !((#[trigger] head[i]) is Null);
            assert(!(s[i] is Null));
            assert(guesses(head) == seq![t]);
            assert(guesses(head)[0] == t);
            assert(guesses(head).contains(t));
        }
    }
}

/// A tuple has the types of its fields, in order, and a map those of its keys and of its values.
pub proof fn law_types_of_tuples(a: ValueView, b: ValueView)
    ensures
        guessed(ValueView::Tuple(seq![a, b])) == TypeView::Tuple(seq![guessed(a), guessed(b)]),
        !(a is Null) && !(b is Null) ==> guessed(ValueView::MapOf(seq![a], seq![b]))
            == TypeView::MapOf(Box::new(guessed(a)), Box::new(guessed(b))),
{
    let s = seq![a, b];
    assert(s.subrange(0, 1) =~= seq![a]);
    assert(seq![a].subrange(0, 0) =~= Seq::<ValueView>::empty());
    reveal_with_fuel(crate::guess::all_guessed, 3);
    assert(crate::guess::all_guessed(s) =~= seq![guessed(a), guessed(b)]);
    if !(a is Null) && !(b is Null) {
        assert(!(seq![a][0] is Null) && !(seq![b][0] is Null));
        lemma_guesses_of_one(seq![a], guessed(a));
        lemma_guesses_of_one(seq![b], guessed(b));
    }
}

// ---------------------------------------------------------------------------
// What types start with
// ---------------------------------------------------------------------------

/// A type of numbers starts with zero, one of strings with the empty string, one of arrays
/// and of maps without elements, and one that may hold null with null.
pub proof fn law_first_values(t: TypeView, u: TypeView, n: usize)
    ensures
        bounds_of(t).0 < bounds_of(t).1 ==> is_of(default_of(t), t) && number_in(default_of(t))
            == Some(0int),
        default_of(TypeView::Int128) == ValueView::Int128(0),
        default_of(TypeView::UInt128) == ValueView::UInt128(0),
        default_of(TypeView::Float32) == ValueView::Float32(0),
        default_of(TypeView::Float64) == ValueView::Float64(0),
        default_of(TypeView::Bool) == ValueView::Bool(false),
        default_of(TypeView::String) == ValueView::String(Seq::empty()),
        default_of(TypeView::FixedSizedString(n)) == ValueView::String(Seq::empty()),
        default_of(TypeView::Uuid) == ValueView::Uuid(0),
        default_of(TypeView::Date) == ValueView::Date(0),
        default_of(TypeView::Date32) == ValueView::Date32(0),
        default_of(TypeView::Ipv4) == ValueView::Ipv4(0),
        default_of(TypeView::Ipv6) matches ValueView::Ipv6(b) && b.len() == 16 && forall|i: int|
            0 <= i < 16 ==> #[trigger] b[i] == 0,
        default_of(TypeView::UInt256) matches ValueView::UInt256(b) && b.len() == 32 && forall|
            i: int,
        |
            0 <= i < 32 ==> #[trigger] b[i] == 0,
        default_of(TypeView::Int256) matches ValueView::Int256(b) && b.len() == 32 && forall|
            i: int,
        |
            0 <= i < 32 ==> #[trigger] b[i] == 0,
        default_of(TypeView::Decimal32(n)) == ValueView::Decimal32(n, 0),
        default_of(TypeView::Decimal64(n)) == ValueView::Decimal64(n, 0),
        default_of(TypeView::Decimal128(n)) == ValueView::Decimal128(n, 0),
        t matches TypeView::DateTime(tz) ==> default_of(t) == ValueView::DateTime(tz, 0),
        t matches TypeView::DateTime64(p, tz) ==> default_of(t) == ValueView::DateTime64(tz, 0, p),
        default_of(TypeView::Array(Box::new(t))) == ValueView::Array(Seq::empty()),
        default_of(TypeView::MapOf(Box::new(t), Box::new(u))) == ValueView::MapOf(
            Seq::empty(),
            Seq::empty(),
        ),
        default_of(TypeView::Nullable(Box::new(t))) == ValueView::Null,
        default_of(TypeView::LowCardinality(Box::new(t))) == default_of(t),
        default_of(TypeView::Tuple(seq![t, u])) == ValueView::Tuple(
            seq![default_of(t), default_of(u)],
        ),
        default_of(TypeView::Point) == ValueView::Point(0, 0),
        default_of(TypeView::Ring) == ValueView::Ring(Seq::empty()),
        default_of(TypeView::Polygon) == ValueView::Polygon(Seq::empty()),
        default_of(TypeView::MultiPolygon) == ValueView::MultiPolygon(Seq::empty()),
        default_of(TypeView::Decimal256(n)) matches ValueView::Decimal256(s, b) && s == n && b.len()
            == 32 && forall|i: int| 0 <= i < 32 ==> #[trigger] b[i] == 0,
        t is Enum8 ==> default_of(t) == ValueView::Enum8(Seq::empty(), 0),
        t is Enum16 ==> default_of(t) == ValueView::Enum16(Seq::empty(), 0),
        default_of(TypeView::Binary) == ValueView::String(Seq::empty()),
        default_of(TypeView::FixedSizedBinary(n)) == ValueView::String(Seq::empty()),
        default_of(TypeView::Object) == ValueView::Object(seq![0x7Bu8, 0x7D]),
        t is Variant ==> default_of(t) == ValueView::Variant(255, Box::new(ValueView::Null)),
        t is Dynamic || t is Nothing ==> default_of(t) is Null,
        t is JSON ==> default_of(t) == ValueView::Object(seq![0x7Bu8, 0x7D]),
{
    let ts = seq![t, u];
    assert(ts.subrange(0, 1) =~= seq![t]);
    assert(seq![t].subrange(0, 0) =~= Seq::<TypeView>::empty());
    reveal_with_fuel(defaults_of, 3);
    assert(defaults_of(ts) =~= seq![default_of(t), default_of(u)]);
}

/// Only a type of values that may be null may hold null, and it is stripped to the type of the
/// values.
pub proof fn law_stripping(t: TypeView)
    ensures
        nullable(TypeView::Nullable(Box::new(t))),
        !(t is Nullable) ==> !nullable(t) && stripped(t) == t,
        stripped(TypeView::Nullable(Box::new(t))) == t,
{
}

/// What stands at a path with a type of its own where a document has nothing: null where the
/// type may hold it, and otherwise what the type starts with.
pub proof fn law_missing_values(t: TypeView)
    ensures
        fill_of(TypeView::Nullable(Box::new(t))) is Null,
        fill_of(TypeView::LowCardinality(Box::new(TypeView::Nullable(Box::new(t))))) is Null,
        bounds_of(t).0 < bounds_of(t).1 ==> is_of(fill_of(t), t) && number_in(fill_of(t)) == Some(
            0int,
        ),
        fill_of(TypeView::String) == ValueView::String(Seq::empty()),
        fill_of(TypeView::Array(Box::new(t))) == ValueView::Array(Seq::empty()),
        t is Variant ==> fill_of(t) == ValueView::Variant(255, Box::new(ValueView::Null)),
{
}

// ---------------------------------------------------------------------------
// Conversions
// ---------------------------------------------------------------------------

/// An integer becomes in a type of integers the same integer, if the type has it, and otherwise
/// the one that differs from it by a multiple of how many the type has.
pub proof fn law_integers_are_taken_around(v: ValueView, t: TypeView)
    requires
        number_in(v) is Some,
        bounds_of(t).0 < bounds_of(t).1,
    ensures
        ({
            let x = number_in(v)->0;
            let (least, greatest) = bounds_of(t);
            let count = greatest - least + 1;
            &&& fitted(v, t) matches Ok(w) && is_of(w, t) && number_in(w) is Some && least
                <= number_in(w)->0 <= greatest && (x - number_in(w)->0) % count == 0
            &&& least <= x <= greatest ==> number_in(fitted(v, t)->Ok_0) == Some(x)
        }),
{
    let x = number_in(v)->0;
    let (least, greatest) = bounds_of(t);
    let count = greatest - least + 1;
    lemma_around(x, count);
    assert(crate::coerce::whole_of(v) == Some(x));
    match t {
        TypeView::UInt8 => {
            assert(count == 0x100);
        },
        TypeView::UInt16 => {
            assert(count == 0x1_0000);
        },
        TypeView::UInt32 => {
            assert(count == 0x1_0000_0000);
        },
        TypeView::UInt64 => {
            assert(count == 0x1_0000_0000_0000_0000);
        },
        TypeView::Int8 => {
            assert(count == 0x100);
        },
        TypeView::Int16 => {
            assert(count == 0x1_0000);
        },
        TypeView::Int32 => {
            assert(count == 0x1_0000_0000);
        },
        _ => {
            assert(count == 0x1_0000_0000_0000_0000);
        },
    }
}

proof fn lemma_around(x: int, m: int)
    requires
        m > 0,
    ensures
        0 <= x % m < m,
        (x - x % m) % m == 0,
        (x - (x % m - m)) % m == 0,
        0 <= x < m ==> x % m == x,
        -m <= x < 0 ==> x % m == x + m,
{
    lemma_fundamental_div_mod(x, m);
    lemma_mod_multiples_basic(x / m, m);
    lemma_mod_multiples_basic(x / m + 1, m);
    assert((x / m) * m == m * (x / m)) by (nonlinear_arith);
    assert((x / m + 1) * m == m * (x / m) + m) by (nonlinear_arith);
    if 0 <= x < m {
        lemma_small_mod(x as nat, m as nat);
    }
    if -m <= x < 0 {
        lemma_small_mod((x + m) as nat, m as nat);
        lemma_mod_add_multiples_vanish(x, m);
    }
}

/// The text of an integer becomes the integer.
pub proof fn law_texts_become_integers(x: i64, b: Seq<u8>)
    requires
        b == encode_utf8(int_text(x as int)),
    ensures
        fitted(ValueView::String(b), TypeView::Int64) == Ok::<_, Error>(ValueView::Int64(x)),
{
    vstd::utf8::encode_utf8_valid_utf8(int_text(x as int));
    vstd::utf8::encode_utf8_decode_utf8(int_text(x as int));
    law_int_text_reads_back(x as int, i64::MIN as int, i64::MAX as int);
}

/// A value becomes in a type of values that may be null what it becomes in the type itself,
/// and null stays null; in a dictionary likewise.
pub proof fn law_conversions_look_through(v: ValueView, t: TypeView)
    ensures
        fitted(ValueView::Null, TypeView::Nullable(Box::new(t))) == Ok::<_, Error>(
            ValueView::Null,
        ),
        !(v is Null) ==> fitted(v, TypeView::Nullable(Box::new(t))) == fitted(v, t),
        fitted(v, TypeView::LowCardinality(Box::new(t))) == fitted(v, t),
        bounds_of(t).0 < bounds_of(t).1 ==> (fitted(ValueView::Null, t) matches Ok(w) && number_in(
            w,
        ) == Some(0int)),
        fitted(ValueView::Null, TypeView::Array(Box::new(t))) == Ok::<_, Error>(
            ValueView::Array(Seq::empty()),
        ),
{
}

/// A string stays itself in a type of strings, a number of double precision in its own; a
/// value of another kind is refused.
pub proof fn law_conversions_of_scalars(b: Seq<u8>, x: u64, v: ValueView)
    ensures
        fitted(ValueView::String(b), TypeView::String) == Ok::<_, Error>(ValueView::String(b)),
        fitted(ValueView::Float64(x), TypeView::Float64) == Ok::<_, Error>(ValueView::Float64(x)),
        number_in(v) is Some || v is Float64 || v is Array ==> fitted(v, TypeView::String) is Err,
        v is Array || v is Tuple || v is MapOf ==> fitted(v, TypeView::Int64) is Err,
{
}

/// The elements of an array are converted one by one.
pub proof fn law_arrays_are_converted_by_elements(s: Seq<ValueView>, t: TypeView, i: int)
    requires
        0 <= i < s.len(),
        fitted(ValueView::Array(s), TypeView::Array(Box::new(t))) is Ok,
    ensures
        fitted(ValueView::Array(s), TypeView::Array(Box::new(t)))->Ok_0 matches ValueView::Array(x)
            && x.len() == s.len() && fitted(s[i], t) == Ok::<_, Error>(x[i]),
{
    lemma_all_fitted(s, t, i);
}

proof fn lemma_all_fitted(s: Seq<ValueView>, t: TypeView, i: int)
    requires
        0 <= i < s.len(),
        all_fitted(s, t) is Ok,
    ensures
        all_fitted(s, t)->Ok_0.len() == s.len(),
        fitted(s[i], t) == Ok::<_, Error>(all_fitted(s, t)->Ok_0[i]),
    decreases s.len(),
{
    let tail = s.subrange(1, s.len() as int);
    if tail.len() > 0 {
        if i > 0 {
            lemma_all_fitted(tail, t, i - 1);
            assert(tail[i - 1] == s[i]);
        } else {
            lemma_all_fitted(tail, t, 0);
        }
    } else {
        assert(all_fitted(tail, t)->Ok_0.len() == 0);
    }
}

/// A value becomes in a variant itself under the discriminator of its type: the place of the
/// type in the order of the names.
pub proof fn law_values_in_variants(v: ValueView, ts: Seq<TypeView>, i: int)
    requires
        !(v is Null),
        0 <= i < sorted_types(ts).len(),
        i < 255,
        sorted_types(ts)[i] == guessed(v),
        forall|j: int| 0 <= j < i ==> #[trigger] sorted_types(ts)[j] != guessed(v),
    ensures
        fitted(v, TypeView::Variant(ts)) == Ok::<_, Error>(
            ValueView::Variant(i as u8, Box::new(v)),
        ),
        fitted(ValueView::Null, TypeView::Variant(ts)) == Ok::<_, Error>(
            ValueView::Variant(255, Box::new(ValueView::Null)),
        ),
{
    lemma_found_first(sorted_types(ts), guessed(v), 0, i);
}

proof fn lemma_found_first(ts: Seq<TypeView>, t: TypeView, from: int, i: int)
    requires
        0 <= from <= i < ts.len(),
        ts[i] == t,
        forall|j: int| from <= j < i ==> #[trigger] ts[j] != t,
    ensures
        crate::columns::find_type(ts, t, from) == Some(i),
    decreases i - from,
{
    if from < i {
        assert(ts[from] != t);
        lemma_found_first(ts, t, from + 1, i);
    }
}

// ---------------------------------------------------------------------------
// Leaves of documents
// ---------------------------------------------------------------------------

/// What the leaves of documents become: truth values one and zero, integers signed ones if
/// they can be, strings their bytes.
pub proof fn law_leaves_become_values(b: bool, x: u64, y: i64, s: Seq<char>, a: Seq<JsonView>)
    ensures
        leaf_value(JsonView::Null) == Ok::<_, Error>(ValueView::Null),
        leaf_value(JsonView::Bool(b)) == Ok::<_, Error>(ValueView::UInt8(if b { 1 } else { 0 })),
        x < 0x8000_0000_0000_0000 ==> leaf_value(JsonView::Number(JsonNumber::PosInt(x))) == Ok::<
            _,
            Error,
        >(ValueView::Int64(x as i64)),
        x >= 0x8000_0000_0000_0000 ==> leaf_value(JsonView::Number(JsonNumber::PosInt(x))) == Ok::<
            _,
            Error,
        >(ValueView::UInt64(x)),
        leaf_value(JsonView::Number(JsonNumber::NegInt(y))) == Ok::<_, Error>(ValueView::Int64(y)),
        leaf_value(JsonView::Number(JsonNumber::Float(x))) == Ok::<_, Error>(ValueView::Float64(x)),
        leaf_value(JsonView::String(s)) == Ok::<_, Error>(ValueView::String(encode_utf8(s))),
        leaf_value(JsonView::Array(a)) matches Ok(ValueView::Array(v)) ==> v.len() == a.len() && (
        forall|i: int|
            0 <= i < a.len() ==> leaf_value(#[trigger] a[i]) == Ok::<_, Error>(v[i])),
        leaf_value(JsonView::Array(a)) is Ok ==> leaf_value(JsonView::Array(a))->Ok_0 is Array,
{
    if let Ok(v) = leaf_values(a) {
        lemma_leaf_values(a);
    }
}

proof fn lemma_leaf_values(a: Seq<JsonView>)
    requires
        leaf_values(a) is Ok,
    ensures
        leaf_values(a)->Ok_0.len() == a.len(),
        forall|i: int|
            0 <= i < a.len() ==> leaf_value(#[trigger] a[i]) == Ok::<_, Error>(
                leaf_values(a)->Ok_0[i],
            ),
    decreases a.len(),
{
    if a.len() > 0 {
        let head = a.subrange(0, a.len() - 1);
        lemma_leaf_values(head);
        let all = leaf_values(a)->Ok_0;
        let hv = leaf_values(head)->Ok_0;
        assert forall|i: int| 0 <= i < a.len() implies leaf_value(#[trigger] a[i]) == Ok::<
            _,
            Error,
        >(all[i]) by {
            if i < head.len() {
                assert(head[i] == a[i]);
                assert(all[i] == hv[i]);
            }
        }
    }
}

/// The leaves of an object are those of its members in order, at the names of the members
/// behind the path of the object and a dot. What is no object is a leaf itself.
pub proof fn law_paths_of_leaves(
    m: Seq<(Seq<char>, JsonView)>,
    name: Seq<char>,
    j: JsonView,
    path: Seq<char>,
)
    ensures
        !(j is Object) ==> leaves(j, path) == seq![(path, j)],
        leaves(JsonView::Object(m.push((name, j))), path) == leaves(JsonView::Object(m), path)
            + leaves(
            j,
            if path.len() == 0 {
                name
            } else {
                path + seq!['.'] + name
            },
        ),
        leaves(JsonView::Object(Seq::empty()), path).len() == 0,
{
    let all = m.push((name, j));
    assert(all.subrange(0, all.len() - 1) =~= m);
    assert(all.last() == (name, j));
    assert(member_leaves(all, path) == member_leaves(m, path) + leaves(
        j,
        crate::json_paths::member_path(path, name),
    ));
}

/// A bare value in an array of variants gets the discriminator of its type, which is the place of
/// the type in the order of the names; null gets 255.
pub proof fn law_discriminators_of_bare_values(v: ValueView, ts: Seq<TypeView>, i: int)
    requires
        !(v is Null),
        0 <= i < sorted_types(ts).len(),
        i < 255,
        sorted_types(ts)[i] == guessed(v),
        forall|j: int| 0 <= j < i ==> #[trigger] sorted_types(ts)[j] != guessed(v),
    ensures
        discriminated(v, ts) == Ok::<_, Error>(ValueView::Variant(i as u8, Box::new(v))),
        discriminated(ValueView::Null, ts) == Ok::<_, Error>(
            ValueView::Variant(255, Box::new(ValueView::Null)),
        ),
{
    lemma_found_first(sorted_types(ts), guessed(v), 0, i);
}

/// An array of values of two types is one of variants of both, the one whose name stands first
/// before the other.
pub proof fn law_types_of_mixed_arrays(a: ValueView, b: ValueView)
    requires
        !(a is Null),
        !(b is Null),
        guessed(a) != guessed(b),
        text_le(type_text(guessed(a)), type_text(guessed(b))),
        !text_le(type_text(guessed(b)), type_text(guessed(a))),
    ensures
        guessed(ValueView::Array(seq![a, b])) == TypeView::Array(
            Box::new(TypeView::Variant(seq![guessed(a), guessed(b)])),
        ),
        guessed(ValueView::Array(seq![b, a])) == TypeView::Array(
            Box::new(TypeView::Variant(seq![guessed(a), guessed(b)])),
        ),
{
    let t = guessed(a);
    let u = guessed(b);
    lemma_two_guesses(a, b);
    lemma_two_guesses(b, a);
    lemma_sorted_pair(t, u);
}

proof fn lemma_two_guesses(a: ValueView, b: ValueView)
    requires
        !(a is Null),
        !(b is Null),
        guessed(a) != guessed(b),
    ensures
        guesses(seq![a, b]) == seq![guessed(a), guessed(b)],
{
    let s = seq![a, b];
    let one = s.subrange(0, 1);
    assert(one =~= seq![a]);
    assert(one.subrange(0, 0) =~= Seq::<ValueView>::empty());
    assert(guesses(one.subrange(0, 0)) =~= Seq::<TypeView>::empty());
    assert(!Seq::<TypeView>::empty().contains(guessed(a)));
    assert(guesses(one) =~= seq![guessed(a)]);
    assert(!seq![guessed(a)].contains(guessed(b)));
    assert(guesses(s) =~= seq![guessed(a), guessed(b)]);
}

proof fn lemma_sorted_pair(t: TypeView, u: TypeView)
    requires
        text_le(type_text(t), type_text(u)),
        !text_le(type_text(u), type_text(t)),
    ensures
        sorted_types(seq![t, u]) == seq![t, u],
        sorted_types(seq![u, t]) == seq![t, u],
{
    let a = seq![t, u];
    let b = seq![u, t];
    assert(a.drop_last() =~= seq![t]);
    assert(b.drop_last() =~= seq![u]);
    lemma_sorted_one(t);
    lemma_sorted_one(u);
    reveal_with_fuel(crate::type_order::insert_pos, 3);
    assert(seq![t].insert(1, u) =~= seq![t, u]);
    assert(seq![u].insert(0, t) =~= seq![t, u]);
}

proof fn lemma_sorted_one(t: TypeView)
    ensures
        sorted_types(seq![t]) == seq![t],
{
    let one = seq![t];
    let none = one.drop_last();
    assert(none =~= Seq::<TypeView>::empty());
    assert(sorted_types(none) == none);
    assert(none.insert(0, t) =~= seq![t]);
}

/// A document is found in a value that holds it or its text.
pub proof fn law_documents_in_values(b: Seq<u8>, j: JsonView, v: ValueView)
    ensures
        held_document(ValueView::Json(j)) == Ok::<_, Error>(j),
        json_of_text(b) == Some(j) ==> held_document(ValueView::String(b)) == Ok::<_, Error>(j)
            && held_document(ValueView::Object(b)) == Ok::<_, Error>(j),
        json_of_text(b) is None ==> held_document(ValueView::String(b)) is Err,
        number_in(v) is Some || v is Null || v is Array ==> held_document(v) is Err,
{
}

} // verus!
