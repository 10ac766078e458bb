//! Values as values of a type: what a JSON document holds is fitted to a declared type.
use vstd::prelude::*;
use vstd::utf8::{decode_utf8, valid_utf8};

use crate::columns::{find_type, types_size, type_size};
use crate::error::{Error, Result, WriteReason};
use crate::float_bits::{
    double_of_int, double_to_i64, double_to_single, i64_of_double, int_to_double, single_of_double,
};
use crate::guess::{default_of, guessed};
use crate::json_text::{json_of_text, parse_json};
use crate::json_value::{JsonNumber, JsonValue, JsonView};
use crate::text::{parse_int, parsed_int, string_from_utf8, to_chars};
use crate::type_order::{sort_types, sorted_types};
use crate::types::{type_views, Type, TypeView};
use crate::values::{clone_bytes, value_views, Value, ValueView};
use crate::variant::NULL_DISCRIMINATOR;

verus! {

/// What fitting a value to a type comes to.
pub type Fitted = core::result::Result<ValueView, Error>;

/// The integer that a value is.
pub open spec fn integer_of(v: ValueView) -> Option<int> {
    match v {
        ValueView::Int8(x) => Some(x as int),
        ValueView::Int16(x) => Some(x as int),
        ValueView::Int32(x) => Some(x as int),
        ValueView::Int64(x) => Some(x as int),
        ValueView::UInt8(x) => Some(x as int),
        ValueView::UInt16(x) => Some(x as int),
        ValueView::UInt32(x) => Some(x as int),
        ValueView::UInt64(x) => Some(x as int),
        _ => None,
    }
}

/// The integer that a value tells: an integer itself, the whole part of a number, or the
/// integer that a text reads as.
pub open spec fn whole_of(v: ValueView) -> Option<int> {
    match v {
        ValueView::Float64(x) => Some(i64_of_double(x)),
        ValueView::String(b) => if valid_utf8(b) {
            parsed_int(decode_utf8(b), i64::MIN as int, i64::MAX as int)
        } else {
            None
        },
        _ => integer_of(v),
    }
}

/// The bits of double precision of the number that a value tells.
pub open spec fn double_of(v: ValueView) -> Option<u64> {
    match v {
        ValueView::Float64(x) => Some(x),
        ValueView::String(b) => match json_of_text(b) {
            Some(JsonView::Number(JsonNumber::Float(x))) => Some(x),
            Some(JsonView::Number(JsonNumber::PosInt(x))) => Some(double_of_int(x as int) as u64),
            Some(JsonView::Number(JsonNumber::NegInt(x))) => Some(double_of_int(x as int) as u64),
            _ => None,
        },
        _ => match integer_of(v) {
            Some(x) => Some(double_of_int(x) as u64),
            None => None,
        },
    }
}

/// An integer taken around until it fits: as an unsigned one below `m`.
pub open spec fn wrapped_unsigned(x: int, m: int) -> int {
    x % m
}

/// An integer taken around until it fits: as a signed one of `m` values.
pub open spec fn wrapped_signed(x: int, m: int) -> int {
    let u = x % m;
    if 2 * u >= m {
        u - m
    } else {
        u
    }
}

/// An integer as a value of an integer type, taken around until it fits.
pub open spec fn integer_as(x: int, t: TypeView) -> Option<ValueView> {
    match t {
        TypeView::Int8 => Some(ValueView::Int8(wrapped_signed(x, 0x100) as i8)),
        TypeView::Int16 => Some(ValueView::Int16(wrapped_signed(x, 0x1_0000) as i16)),
        TypeView::Int32 => Some(ValueView::Int32(wrapped_signed(x, 0x1_0000_0000) as i32)),
        TypeView::Int64 => Some(
            ValueView::Int64(wrapped_signed(x, 0x1_0000_0000_0000_0000) as i64),
        ),
        TypeView::UInt8 => Some(ValueView::UInt8(wrapped_unsigned(x, 0x100) as u8)),
        TypeView::UInt16 => Some(ValueView::UInt16(wrapped_unsigned(x, 0x1_0000) as u16)),
        TypeView::UInt32 => Some(ValueView::UInt32(wrapped_unsigned(x, 0x1_0000_0000) as u32)),
        TypeView::UInt64 => Some(
            ValueView::UInt64(wrapped_unsigned(x, 0x1_0000_0000_0000_0000) as u64),
        ),
        _ => None,
    }
}

/// Whether a type is one of integers.
pub open spec fn is_integer_type(t: TypeView) -> bool {
    integer_as(0, t) is Some
}

/// The first type from `i` on that holds an integer as it is.
pub open spec fn find_integer_type(ts: Seq<TypeView>, x: int, i: int) -> Option<int>
    decreases ts.len() - i,
{
    if i < 0 || i >= ts.len() {
        None
    } else if is_integer_type(ts[i]) && integer_of(integer_as(x, ts[i])->0) == Some(x) {
        Some(i)
    } else {
        find_integer_type(ts, x, i + 1)
    }
}

/// A value as one of a variant: under the type that it is guessed to have, or an integer
/// under the first type that holds it.
pub open spec fn fitted_variant(v: ValueView, ts: Seq<TypeView>) -> Fitted {
    let sorted = sorted_types(ts);
    let none = Err(Error::SerializeError(WriteReason::NoMatchingVariant));
    if v is Null {
        Ok(ValueView::Variant(NULL_DISCRIMINATOR, Box::new(v)))
    } else {
        match find_type(sorted, guessed(v), 0) {
            Some(i) => if i < NULL_DISCRIMINATOR {
                Ok(ValueView::Variant(i as u8, Box::new(v)))
            } else {
                none
            },
            None => match integer_of(v) {
                None => none,
                Some(x) => match find_integer_type(sorted, x, 0) {
                    Some(i) => if i < NULL_DISCRIMINATOR {
                        Ok(
                            ValueView::Variant(
                                i as u8,
                                Box::new(integer_as(x, sorted[i])->0),
                            ),
                        )
                    } else {
                        none
                    },
                    None => none,
                },
            },
        }
    }
}

/// A value as one of a type that has no other types in it.
pub open spec fn fitted_scalar(v: ValueView, t: TypeView) -> Fitted {
    let none = Err(Error::SerializeError(WriteReason::Coercion));
    if is_integer_type(t) {
        match whole_of(v) {
            Some(x) => Ok(integer_as(x, t)->0),
            None => none,
        }
    } else {
        match t {
            TypeView::Float64 => match double_of(v) {
                Some(x) => Ok(ValueView::Float64(x)),
                None => none,
            },
            TypeView::Float32 => match v {
                ValueView::Float32(_) => Ok(v),
                _ => match double_of(v) {
                    Some(x) => Ok(ValueView::Float32(single_of_double(x) as u32)),
                    None => none,
                },
            },
            _ => if guessed(v) == t {
                Ok(v)
            } else {
                none
            },
        }
    }
}

/// A value as one of a type.
pub open spec fn fitted(v: ValueView, t: TypeView) -> Fitted
    decreases type_size(t), 0nat,
{
    let none = Err(Error::SerializeError(WriteReason::Coercion));
    match t {
        TypeView::Nullable(inner) => if v is Null {
            Ok(v)
        } else {
            fitted(v, *inner)
        },
        TypeView::LowCardinality(inner) => fitted(v, *inner),
        TypeView::Variant(ts) => fitted_variant(v, ts),
        TypeView::Array(inner) => match v {
            ValueView::Null => Ok(default_of(t)),
            ValueView::Array(s) => match all_fitted(s, *inner) {
                Err(e) => Err(e),
                Ok(x) => Ok(ValueView::Array(x)),
            },
            _ => none,
        },
        TypeView::Tuple(ts) => match v {
            ValueView::Null => Ok(default_of(t)),
            ValueView::Array(s) => fitted_tuple(s, ts),
            ValueView::Tuple(s) => fitted_tuple(s, ts),
            _ => none,
        },
        _ => if v is Null {
            Ok(default_of(t))
        } else {
            fitted_scalar(v, t)
        },
    }
}

/// Values as those of one type.
pub open spec fn all_fitted(s: Seq<ValueView>, t: TypeView) -> core::result::Result<
    Seq<ValueView>,
    Error,
>
    decreases type_size(t), s.len(),
{
    if s.len() == 0 {
        Ok(Seq::empty())
    } else {
        match fitted(s[0], t) {
            Err(e) => Err(e),
            Ok(x) => match all_fitted(s.subrange(1, s.len() as int), t) {
                Err(e) => Err(e),
                Ok(rest) => Ok(seq![x] + rest),
            },
        }
    }
}

/// Values as those of several types, one for each.
pub open spec fn across_fitted(s: Seq<ValueView>, ts: Seq<TypeView>) -> core::result::Result<
    Seq<ValueView>,
    Error,
>
    decreases types_size(ts), 0nat,
{
    if s.len() == 0 || ts.len() == 0 {
        Ok(Seq::empty())
    } else {
        match fitted(s[0], ts[0]) {
            Err(e) => Err(e),
            Ok(x) => match across_fitted(
                s.subrange(1, s.len() as int),
                ts.subrange(1, ts.len() as int),
            ) {
                Err(e) => Err(e),
                Ok(rest) => Ok(seq![x] + rest),
            },
        }
    }
}

/// Values as the fields of a tuple.
pub open spec fn fitted_tuple(s: Seq<ValueView>, ts: Seq<TypeView>) -> Fitted
    decreases types_size(ts), 1nat,
{
    if s.len() != ts.len() {
        Err(Error::SerializeError(WriteReason::Coercion))
    } else {
        match across_fitted(s, ts) {
            Err(e) => Err(e),
            Ok(x) => Ok(ValueView::Tuple(x)),
        }
    }
}

/// The outcome of fitting a value.
pub open spec fn fits_as(r: Result<Value>, f: Fitted) -> bool {
    match r {
        Ok(x) => f == Ok::<_, Error>(x@),
        Err(e) => f == Err::<ValueView, Error>(e),
    }
}

fn integer_in(v: &Value) -> (r: Option<i128>)
    ensures
        match r {
            Some(x) => integer_of(v@) == Some(x as int) && i64::MIN <= x <= u64::MAX,
            None => integer_of(v@) is None,
        },
{
    match v {
        Value::Int8(x) => Some(*x as i128),
        Value::Int16(x) => Some(*x as i128),
        Value::Int32(x) => Some(*x as i128),
        Value::Int64(x) => Some(*x as i128),
        Value::UInt8(x) => Some(*x as i128),
        Value::UInt16(x) => Some(*x as i128),
        Value::UInt32(x) => Some(*x as i128),
        Value::UInt64(x) => Some(*x as i128),
        _ => None,
    }
}

fn whole_in(v: &Value) -> (r: Option<i128>)
    ensures
        match r {
            Some(x) => whole_of(v@) == Some(x as int) && i64::MIN <= x <= u64::MAX,
            None => whole_of(v@) is None,
        },
{
    match v {
        Value::Float64(x) => Some(double_to_i64(*x) as i128),
        Value::String(b) => match string_from_utf8(clone_bytes(b)) {
            None => None,
            Some(s) => {
                let chars = to_chars(s.as_str());
                match parse_int(&chars, i64::MIN, i64::MAX) {
                    Some(x) => Some(x as i128),
                    None => None,
                }
            },
        },
        _ => integer_in(v),
    }
}

fn double_in(v: &Value) -> (r: Option<u64>)
    ensures
        r == double_of(v@),
{
    match v {
        Value::Float64(x) => Some(*x),
        Value::String(b) => match parse_json(b) {
            Some(JsonValue::Number(JsonNumber::Float(x))) => Some(x),
            Some(JsonValue::Number(JsonNumber::PosInt(x))) => Some(int_to_double(x as i128)),
            Some(JsonValue::Number(JsonNumber::NegInt(x))) => Some(int_to_double(x as i128)),
            Some(j) => {
                assert(!(j@ is Number) || j@->Number_0 is Single);
                None
            },
            None => None,
        },
        _ => match integer_in(v) {
            Some(x) => Some(int_to_double(x)),
            None => None,
        },
    }
}

fn wrap_unsigned(x: i128, m: i128) -> (r: i128)
    requires
        0 < m <= 0x1_0000_0000_0000_0000,
        -0x1_0000_0000_0000_0000 <= x <= 0x1_0000_0000_0000_0000,
    ensures
        r == wrapped_unsigned(x as int, m as int),
        0 <= r < m,
{
    if x >= 0 {
        x % m
    } else {
        let back: i128 = (-(x + 1)) % m;
        proof {
            lemma_wrap(x as int, m as int);
        }
        m - 1 - back
    }
}

proof fn lemma_wrap(x: int, m: int)
    requires
        m > 0,
        x < 0,
    ensures
        x % m == m - 1 - ((-(x + 1)) % m),
{
    let y = -(x + 1);
    let q = y / m;
    let r = y % m;
    assert(y == q * m + r) by (nonlinear_arith)
        requires
            q == y / m,
            r == y % m,
            m > 0,
    ;
    assert(x == (-q - 1) * m + (m - 1 - r)) by (nonlinear_arith)
        requires
            y == q * m + r,
            y == -(x + 1),
    ;
    let k = -q - 1;
    let s = m - 1 - r;
    assert(0 <= s < m);
    assert((k * m + s) % m == s) by (nonlinear_arith)
        requires
            0 <= s < m,
    ;
}

fn wrap_signed(x: i128, m: i128) -> (r: i128)
    requires
        0 < m <= 0x1_0000_0000_0000_0000,
        m % 2 == 0,
        -0x1_0000_0000_0000_0000 <= x <= 0x1_0000_0000_0000_0000,
    ensures
        r == wrapped_signed(x as int, m as int),
        -m <= 2 * r < m,
{
    let u: i128 = wrap_unsigned(x, m);
    if 2 * u >= m {
        u - m
    } else {
        u
    }
}

/// An integer as a value of an integer type.
fn make_integer(x: i128, t: &Type) -> (r: Option<Value>)
    requires
        -0x1_0000_0000_0000_0000 <= x <= 0x1_0000_0000_0000_0000,
    ensures
        match r {
            Some(v) => integer_as(x as int, t@) == Some(v@) && is_integer_type(t@),
            None => integer_as(x as int, t@) is None && !is_integer_type(t@),
        },
{
    match t {
        Type::Int8 => Some(Value::Int8(wrap_signed(x, 0x100) as i8)),
        Type::Int16 => Some(Value::Int16(wrap_signed(x, 0x1_0000) as i16)),
        Type::Int32 => Some(Value::Int32(wrap_signed(x, 0x1_0000_0000) as i32)),
        Type::Int64 => Some(Value::Int64(wrap_signed(x, 0x1_0000_0000_0000_0000) as i64)),
        Type::UInt8 => Some(Value::UInt8(wrap_unsigned(x, 0x100) as u8)),
        Type::UInt16 => Some(Value::UInt16(wrap_unsigned(x, 0x1_0000) as u16)),
        Type::UInt32 => Some(Value::UInt32(wrap_unsigned(x, 0x1_0000_0000) as u32)),
        Type::UInt64 => Some(Value::UInt64(wrap_unsigned(x, 0x1_0000_0000_0000_0000) as u64)),
        _ => None,
    }
}

fn fit_variant(v: &Value, ts: &Vec<Type>) -> (r: Result<Value>)
    ensures
        fits_as(r, fitted_variant(v@, type_views(ts@))),
{
    let ghost all = sorted_types(type_views(ts@));
    if let Value::Null = v {
        let inner = v.clone();
        assert(inner@ is Null);
        return Ok(Value::Variant(NULL_DISCRIMINATOR, Box::new(inner)));
    }
    assert(!(v@ is Null));
    let sorted = sort_types(ts);
    let t = v.guess_type();
    let mut i: usize = 0;
    while i < sorted.len()
        invariant
            i <= sorted.len(),
            all == sorted_types(type_views(ts@)),
            type_views(sorted@) == all,
            t@ == guessed(v@),
            !(v@ is Null),
            find_type(all, t@, 0) == find_type(all, t@, i as int),
        decreases sorted.len() - i,
    {
        assert(all[i as int] == sorted@[i as int]@);
        if sorted[i].same(&t) {
            if i < NULL_DISCRIMINATOR as usize {
                return Ok(Value::Variant(i as u8, Box::new(v.clone())));
            }
            return Err(Error::SerializeError(WriteReason::NoMatchingVariant));
        }
        i += 1;
    }
    assert(all.len() == sorted@.len());
    assert(find_type(all, t@, 0) is None);
    let x: i128 = match integer_in(v) {
        Some(x) => x,
        None => return Err(Error::SerializeError(WriteReason::NoMatchingVariant)),
    };
    let mut k: usize = 0;
    while k < sorted.len()
        invariant
            k <= sorted.len(),
            all == sorted_types(type_views(ts@)),
            type_views(sorted@) == all,
            !(v@ is Null),
            i64::MIN <= x <= u64::MAX,
            integer_of(v@) == Some(x as int),
            find_type(all, guessed(v@), 0) is None,
            find_integer_type(all, x as int, 0) == find_integer_type(all, x as int, k as int),
        decreases sorted.len() - k,
    {
        assert(all[k as int] == sorted@[k as int]@);
        if let Some(made) = make_integer(x, &sorted[k]) {
            if let Some(y) = integer_in(&made) {
                if y == x {
                    if k < NULL_DISCRIMINATOR as usize {
                        return Ok(Value::Variant(k as u8, Box::new(made)));
                    }
                    return Err(Error::SerializeError(WriteReason::NoMatchingVariant));
                }
            }
        }
        k += 1;
    }
    assert(all.len() == sorted@.len());
    Err(Error::SerializeError(WriteReason::NoMatchingVariant))
}

fn fit_scalar(v: &Value, t: &Type) -> (r: Result<Value>)
    ensures
        fits_as(r, fitted_scalar(v@, t@)),
{
    if let Some(_) = make_integer(0, t) {
        return match whole_in(v) {
            None => Err(Error::SerializeError(WriteReason::Coercion)),
            Some(x) => match make_integer(x, t) {
                Some(y) => Ok(y),
                None => {
                    assert(false);
                    Err(Error::SerializeError(WriteReason::Coercion))
                },
            },
        };
    }
    match t {
        Type::Float64 => match double_in(v) {
            Some(x) => Ok(Value::Float64(x)),
            None => Err(Error::SerializeError(WriteReason::Coercion)),
        },
        Type::Float32 => match v {
            Value::Float32(_) => Ok(v.clone()),
            _ => match double_in(v) {
                Some(x) => Ok(Value::Float32(double_to_single(x))),
                None => Err(Error::SerializeError(WriteReason::Coercion)),
            },
        },
        _ => if v.guess_type().same(t) {
            Ok(v.clone())
        } else {
            Err(Error::SerializeError(WriteReason::Coercion))
        },
    }
}

/// A value as one of a type.
pub fn convert_to_type(v: &Value, t: &Type) -> (r: Result<Value>)
    ensures
        fits_as(r, fitted(v@, t@)),
    decreases type_size(t@), 0nat,
{
    proof {
        v.lemma_view();
        t.lemma_view();
    }
    match t {
        Type::Nullable(inner) => match v {
            Value::Null => Ok(v.clone()),
            _ => convert_to_type(v, inner),
        },
        Type::LowCardinality(inner) => convert_to_type(v, inner),
        Type::Variant(ts) => fit_variant(v, ts),
        Type::Array(inner) => match v {
            Value::Null => Ok(t.default_value()),
            Value::Array(s) => match fit_all(s, inner) {
                Err(e) => Err(e),
                Ok(x) => {
                    let r = Value::Array(x);
                    proof {
                        r.lemma_view();
                    }
                    Ok(r)
                },
            },
            _ => Err(Error::SerializeError(WriteReason::Coercion)),
        },
        Type::Tuple(ts) => match v {
            Value::Null => Ok(t.default_value()),
            Value::Array(s) => fit_tuple(s, ts),
            Value::Tuple(s) => fit_tuple(s, ts),
            _ => Err(Error::SerializeError(WriteReason::Coercion)),
        },
        _ => match v {
            Value::Null => Ok(t.default_value()),
            _ => fit_scalar(v, t),
        },
    }
}

fn fit_all(s: &Vec<Value>, t: &Type) -> (r: Result<Vec<Value>>)
    ensures
        match r {
            Ok(v) => all_fitted(value_views(s@), t@) == Ok::<_, Error>(value_views(v@)),
            Err(e) => all_fitted(value_views(s@), t@) == Err::<Seq<ValueView>, Error>(e),
        },
    decreases type_size(t@), 1nat,
{
    let ghost all = value_views(s@);
    let mut out: Vec<Value> = Vec::new();
    let mut i: usize = 0;
    proof {
        assert(all.subrange(0, all.len() as int) =~= all);
        if let Ok(rest) = all_fitted(all, t@) {
            assert(value_views(out@) + rest =~= rest);
        }
    }
    while i < s.len()
        invariant
            i <= s.len(),
            all == value_views(s@),
            all_fitted(all, t@) == match all_fitted(
                all.subrange(i as int, all.len() as int),
                t@,
            ) {
                Err(e) => Err(e),
                Ok(rest) => Ok(value_views(out@) + rest),
            },
        decreases s.len() - i,
    {
        let ghost head = value_views(out@);
        let ghost here = all.subrange(i as int, all.len() as int);
        proof {
            assert(here[0] == s@[i as int]@);
            assert(here.subrange(1, here.len() as int) =~= all.subrange(i + 1, all.len() as int));
        }
        match convert_to_type(&s[i], t) {
            Err(e) => return Err(e),
            Ok(x) => {
                let ghost xv = x@;
                out.push(x);
                proof {
                    assert(value_views(out@) =~= head.push(xv));
                    if let Ok(rest) = all_fitted(all.subrange(i + 1, all.len() as int), t@) {
                        assert(head + (seq![xv] + rest) =~= value_views(out@) + rest);
                    }
                }
            },
        }
        i += 1;
    }
    assert(value_views(out@) + Seq::<ValueView>::empty() =~= value_views(out@));
    Ok(out)
}

fn fit_tuple(s: &Vec<Value>, ts: &Vec<Type>) -> (r: Result<Value>)
    ensures
        fits_as(r, fitted_tuple(value_views(s@), type_views(ts@))),
    decreases types_size(type_views(ts@)), 1nat,
{
    let ghost all = value_views(s@);
    let ghost tv = type_views(ts@);
    assert(all.len() == s@.len() && tv.len() == ts@.len());
    if s.len() != ts.len() {
        return Err(Error::SerializeError(WriteReason::Coercion));
    }
    let mut out: Vec<Value> = Vec::new();
    let mut i: usize = 0;
    proof {
        assert(all.subrange(0, all.len() as int) =~= all);
        assert(tv.subrange(0, tv.len() as int) =~= tv);
        if let Ok(rest) = across_fitted(all, tv) {
            assert(value_views(out@) + rest =~= rest);
        }
    }
    while i < s.len()
        invariant
            i <= s.len(),
            s.len() == ts.len(),
            all == value_views(s@),
            tv == type_views(ts@),
            fitted_tuple(all, tv) == (match across_fitted(all, tv) {
                Err(e) => Err(e),
                Ok(x) => Ok(ValueView::Tuple(x)),
            }),
            types_size(tv.subrange(i as int, tv.len() as int)) <= types_size(tv),
            across_fitted(all, tv) == match across_fitted(
                all.subrange(i as int, all.len() as int),
                tv.subrange(i as int, tv.len() as int),
            ) {
                Err(e) => Err(e),
                Ok(rest) => Ok(value_views(out@) + rest),
            },
        decreases s.len() - i,
    {
        let ghost head = value_views(out@);
        let ghost here = all.subrange(i as int, all.len() as int);
        let ghost there = tv.subrange(i as int, tv.len() as int);
        proof {
            assert(here[0] == s@[i as int]@);
            assert(there[0] == ts@[i as int]@);
            assert(here.subrange(1, here.len() as int) =~= all.subrange(i + 1, all.len() as int));
            assert(there.subrange(1, there.len() as int) =~= tv.subrange(i + 1, tv.len() as int));
        }
        match convert_to_type(&s[i], &ts[i]) {
            Err(e) => return Err(e),
            Ok(x) => {
                let ghost xv = x@;
                out.push(x);
                proof {
                    assert(value_views(out@) =~= head.push(xv));
                    if let Ok(rest) = across_fitted(
                        all.subrange(i + 1, all.len() as int),
                        tv.subrange(i + 1, tv.len() as int),
                    ) {
                        assert(head + (seq![xv] + rest) =~= value_views(out@) + rest);
                    }
                }
            },
        }
        i += 1;
    }
    assert(value_views(out@) + Seq::<ValueView>::empty() =~= value_views(out@));
    let r = Value::Tuple(out);
    proof {
        r.lemma_view();
    }
    Ok(r)
}

} // verus!
