//! Single values in binary form, each behind the encoding of its type. They stand in
//! the shared data of JSON columns. Strings have no terminator.
use vstd::prelude::*;

use crate::error::{Error, ReadReason, Result};
use crate::type_encoding::{decode_type, encode_type, encoded_type, parsed_code};
use crate::types::{type_views, utc, utc_zone, Type, TypeView};
use crate::values::{
    i256, u256, value_views, Date, Date32, DateTime, DynDateTime64, Ipv4, Ipv6, Value, ValueView,
};
use crate::wire::{
    get_bytes, get_i128_le, get_i16_le, get_i32_le, get_i64_le, get_i8, get_u128_le, get_u16_le,
    get_u32_le, get_u64_le, get_u8, int_bytes, le_bytes, parsed_bytes, parsed_int, parsed_string,
    parsed_uint, parsed_varuint, put_bytes, put_i128_le, put_i16_le, put_i32_le, put_i64_le, put_i8,
    put_string, put_u128_le, put_u16_le, put_u32_le, put_u64_le, put_u8, put_var_uint, read_string,
    read_varuint, string_bytes, varuint_bytes, Parsed,
};

verus! {

// ---------------------------------------------------------------------------
// Types of values
// ---------------------------------------------------------------------------

/// The type that a value is written with, where it has one.
pub open spec fn inferred(v: ValueView) -> Option<TypeView>
    decreases v,
{
    match v {
        ValueView::Null => Some(TypeView::Nothing),
        ValueView::Bool(_) => Some(TypeView::Bool),
        ValueView::UInt8(_) => Some(TypeView::UInt8),
        ValueView::UInt16(_) => Some(TypeView::UInt16),
        ValueView::UInt32(_) => Some(TypeView::UInt32),
        ValueView::UInt64(_) => Some(TypeView::UInt64),
        ValueView::UInt128(_) => Some(TypeView::UInt128),
        ValueView::UInt256(_) => Some(TypeView::UInt256),
        ValueView::Int8(_) => Some(TypeView::Int8),
        ValueView::Int16(_) => Some(TypeView::Int16),
        ValueView::Int32(_) => Some(TypeView::Int32),
        ValueView::Int64(_) => Some(TypeView::Int64),
        ValueView::Int128(_) => Some(TypeView::Int128),
        ValueView::Int256(_) => Some(TypeView::Int256),
        ValueView::Float32(_) => Some(TypeView::Float32),
        ValueView::Float64(_) => Some(TypeView::Float64),
        ValueView::Date(_) => Some(TypeView::Date),
        ValueView::Date32(_) => Some(TypeView::Date32),
        ValueView::String(_) => Some(TypeView::String),
        ValueView::Uuid(_) => Some(TypeView::Uuid),
        ValueView::Ipv4(_) => Some(TypeView::Ipv4),
        ValueView::Ipv6(_) => Some(TypeView::Ipv6),
        ValueView::DateTime(_, _) => Some(TypeView::DateTime(utc())),
        ValueView::DateTime64(_, _, p) => Some(TypeView::DateTime64(p, utc())),
        ValueView::Array(s) => if s.len() == 0 {
            Some(TypeView::Array(Box::new(TypeView::Nothing)))
        } else {
            match inferred(s[0]) {
                Some(t) => Some(TypeView::Array(Box::new(t))),
                None => None,
            }
        },
        ValueView::Tuple(s) => match all_inferred(s) {
            Some(ts) => Some(TypeView::Tuple(ts)),
            None => None,
        },
        ValueView::MapOf(k, s) => if k.len() == 0 {
            Some(TypeView::MapOf(Box::new(TypeView::Nothing), Box::new(TypeView::Nothing)))
        } else if s.len() == 0 {
            None
        } else {
            match (inferred(k[0]), inferred(s[0])) {
                (Some(a), Some(b)) => Some(TypeView::MapOf(Box::new(a), Box::new(b))),
                _ => None,
            }
        },
        _ => None,
    }
}

/// The types that values are written with.
pub open spec fn all_inferred(s: Seq<ValueView>) -> Option<Seq<TypeView>>
    decreases s,
{
    if s.len() == 0 {
        Some(Seq::empty())
    } else {
        match (inferred(s[0]), all_inferred(s.subrange(1, s.len() as int))) {
            (Some(t), Some(ts)) => Some(seq![t] + ts),
            _ => None,
        }
    }
}

fn infer_types(v: &Vec<Value>) -> (r: Result<Vec<Type>>)
    ensures
        match r {
            Ok(ts) => all_inferred(value_views(v@)) == Some(type_views(ts@)),
            Err(e) => all_inferred(value_views(v@)) is None && e == Error::Encode,
        },
    decreases v,
{
    let ghost all = value_views(v@);
    let mut out: Vec<Type> = Vec::new();
    let mut i: usize = 0;
    proof {
        assert(all.subrange(0, all.len() as int) =~= all);
        if let Some(ts) = all_inferred(all) {
            assert(type_views(out@) + ts =~= ts);
        }
    }
    while i < v.len()
        invariant
            i <= v.len(),
            all == value_views(v@),
            all_inferred(all) == match all_inferred(all.subrange(i as int, all.len() as int)) {
                Some(ts) => Some(type_views(out@) + ts),
                None => None,
            },
        decreases v.len() - i,
    {
        proof {
            let here = all.subrange(i as int, all.len() as int);
            assert(here[0] == v@[i as int]@);
            assert(here.subrange(1, here.len() as int) =~= all.subrange(i + 1, all.len() as int));
            assert(decreases_to!(v@ => v@[i as int]));
        }
        let ghost before = type_views(out@);
        match infer_type(&v[i]) {
            Ok(t) => {
                let ghost tv = t@;
                out.push(t);
                proof {
                    assert(type_views(out@) =~= before.push(tv));
                    if let Some(ts) = all_inferred(all.subrange(i + 1, all.len() as int)) {
                        assert(before + (seq![tv] + ts) =~= type_views(out@) + ts);
                    }
                }
            },
            Err(e) => return Err(e),
        }
        i += 1;
    }
    assert(type_views(out@) + Seq::<TypeView>::empty() =~= type_views(out@));
    Ok(out)
}

/// The type that a value is written with.
fn infer_type(value: &Value) -> (r: Result<Type>)
    ensures
        match r {
            Ok(t) => inferred(value@) == Some(t@),
            Err(e) => inferred(value@) is None && e == Error::Encode,
        },
    decreases value,
{
    proof {
        value.lemma_view();
    }
    match value {
        Value::Null => Ok(Type::Nothing),
        Value::Bool(_) => Ok(Type::Bool),
        Value::UInt8(_) => Ok(Type::UInt8),
        Value::UInt16(_) => Ok(Type::UInt16),
        Value::UInt32(_) => Ok(Type::UInt32),
        Value::UInt64(_) => Ok(Type::UInt64),
        Value::UInt128(_) => Ok(Type::UInt128),
        Value::UInt256(_) => Ok(Type::UInt256),
        Value::Int8(_) => Ok(Type::Int8),
        Value::Int16(_) => Ok(Type::Int16),
        Value::Int32(_) => Ok(Type::Int32),
        Value::Int64(_) => Ok(Type::Int64),
        Value::Int128(_) => Ok(Type::Int128),
        Value::Int256(_) => Ok(Type::Int256),
        Value::Float32(_) => Ok(Type::Float32),
        Value::Float64(_) => Ok(Type::Float64),
        Value::Date(_) => Ok(Type::Date),
        Value::Date32(_) => Ok(Type::Date32),
        Value::String(_) => Ok(Type::String),
        Value::Uuid(_) => Ok(Type::Uuid),
        Value::Ipv4(_) => Ok(Type::Ipv4),
        Value::Ipv6(_) => Ok(Type::Ipv6),
        Value::DateTime(_) => Ok(Type::DateTime(utc_zone())),
        Value::DateTime64(d) => Ok(Type::DateTime64(d.2, utc_zone())),
        Value::Array(v) => {
            if v.len() == 0 {
                let inner = Type::Nothing;
                assert(inner@ is Nothing);
                Ok(Type::Array(Box::new(inner)))
            } else {
                assert(decreases_to!(v@ => v@[0]));
                match infer_type(&v[0]) {
                    Ok(t) => Ok(Type::Array(Box::new(t))),
                    Err(e) => Err(e),
                }
            }
        },
        Value::Tuple(v) => match infer_types(v) {
            Ok(ts) => {
                let t = Type::Tuple(ts);
                proof {
                    t.lemma_view();
                }
                Ok(t)
            },
            Err(e) => Err(e),
        },
        Value::MapOf(k, v) => {
            if k.len() == 0 {
                let a = Type::Nothing;
                let b = Type::Nothing;
                assert(a@ is Nothing && b@ is Nothing);
                Ok(Type::MapOf(Box::new(a), Box::new(b)))
            } else if v.len() == 0 {
                Err(Error::Encode)
            } else {
                assert(decreases_to!(k@ => k@[0]));
                assert(decreases_to!(v@ => v@[0]));
                let a = match infer_type(&k[0]) {
                    Ok(t) => t,
                    Err(e) => return Err(e),
                };
                match infer_type(&v[0]) {
                    Ok(b) => Ok(Type::MapOf(Box::new(a), Box::new(b))),
                    Err(e) => Err(e),
                }
            }
        },
        _ => Err(Error::Encode),
    }
}

// ---------------------------------------------------------------------------
// Writing
// ---------------------------------------------------------------------------

/// The halves of a UUID, the lower first.
pub open spec fn uuid_low_high(n: u128) -> Seq<u8> {
    le_bytes(n as nat % 0x1_0000_0000_0000_0000, 8) + le_bytes(
        n as nat / 0x1_0000_0000_0000_0000,
        8,
    )
}

/// The bytes of a value that is written as a type, where it can be.
pub open spec fn binary_data(v: ValueView, t: TypeView) -> Option<Seq<u8>>
    decreases v, t,
{
    match (v, t) {
        (ValueView::Null, TypeView::Nothing) => Some(Seq::empty()),
        (ValueView::Bool(b), TypeView::Bool) => Some(
            seq![
                if b {
                    1u8
                } else {
                    0u8
                },
            ],
        ),
        (ValueView::UInt8(x), TypeView::UInt8) => Some(le_bytes(x as nat, 1)),
        (ValueView::UInt16(x), TypeView::UInt16) => Some(le_bytes(x as nat, 2)),
        (ValueView::UInt32(x), TypeView::UInt32) => Some(le_bytes(x as nat, 4)),
        (ValueView::UInt64(x), TypeView::UInt64) => Some(le_bytes(x as nat, 8)),
        (ValueView::UInt128(x), TypeView::UInt128) => Some(le_bytes(x as nat, 16)),
        (ValueView::Float32(x), TypeView::Float32) => Some(le_bytes(x as nat, 4)),
        (ValueView::Float64(x), TypeView::Float64) => Some(le_bytes(x as nat, 8)),
        (ValueView::Int8(x), TypeView::Int8) => Some(int_bytes(x as int, 1)),
        (ValueView::Int16(x), TypeView::Int16) => Some(int_bytes(x as int, 2)),
        (ValueView::Int32(x), TypeView::Int32) => Some(int_bytes(x as int, 4)),
        (ValueView::Int64(x), TypeView::Int64) => Some(int_bytes(x as int, 8)),
        (ValueView::Int128(x), TypeView::Int128) => Some(int_bytes(x as int, 16)),
        (ValueView::UInt256(b), TypeView::UInt256) => Some(b.reverse()),
        (ValueView::Int256(b), TypeView::Int256) => Some(b.reverse()),
        (ValueView::Date(d), TypeView::Date) => Some(le_bytes(d as nat, 2)),
        (ValueView::Date32(d), TypeView::Date32) => Some(int_bytes(d as int, 4)),
        (ValueView::DateTime(_, n), TypeView::DateTime(_)) => Some(le_bytes(n as nat, 4)),
        (ValueView::DateTime64(_, n, _), TypeView::DateTime64(_, _)) => Some(le_bytes(n as nat, 8)),
        (ValueView::String(b), TypeView::String) => Some(string_bytes(b)),
        (ValueView::String(b), TypeView::FixedSizedString(_)) => Some(string_bytes(b)),
        (ValueView::Uuid(n), TypeView::Uuid) => Some(uuid_low_high(n)),
        (ValueView::Ipv4(n), TypeView::Ipv4) => Some(le_bytes(n as nat, 4)),
        (ValueView::Ipv6(b), TypeView::Ipv6) => Some(b),
        (ValueView::Array(s), TypeView::Array(inner)) => match all_binary(s, *inner) {
            Some(b) => Some(varuint_bytes(s.len()) + b),
            None => None,
        },
        (ValueView::Tuple(s), TypeView::Tuple(ts)) => if s.len() != ts.len() {
            None
        } else {
            fields_binary(s, ts)
        },
        (ValueView::MapOf(k, s), TypeView::MapOf(kt, vt)) => match (
            all_binary(k, *kt),
            all_binary(s, *vt),
        ) {
            (Some(a), Some(b)) => Some(varuint_bytes(k.len()) + a + b),
            _ => None,
        },
        (ValueView::Null, TypeView::Nullable(_)) => Some(seq![1u8]),
        (v, TypeView::Nullable(inner)) => match binary_data(v, *inner) {
            Some(b) => Some(seq![0u8] + b),
            None => None,
        },
        _ => None,
    }
}

/// The bytes of values that are written as one type.
pub open spec fn all_binary(s: Seq<ValueView>, t: TypeView) -> Option<Seq<u8>>
    decreases s, t,
{
    if s.len() == 0 {
        Some(Seq::empty())
    } else {
        match (binary_data(s[0], t), all_binary(s.subrange(1, s.len() as int), t)) {
            (Some(a), Some(b)) => Some(a + b),
            _ => None,
        }
    }
}

/// The bytes of fields that are written as their types.
pub open spec fn fields_binary(s: Seq<ValueView>, ts: Seq<TypeView>) -> Option<Seq<u8>>
    decreases s, ts,
{
    if s.len() == 0 {
        Some(Seq::empty())
    } else if ts.len() == 0 {
        None
    } else {
        match (
            binary_data(s[0], ts[0]),
            fields_binary(s.subrange(1, s.len() as int), ts.subrange(1, ts.len() as int)),
        ) {
            (Some(a), Some(b)) => Some(a + b),
            _ => None,
        }
    }
}

/// A value behind the encoding of its type.
pub open spec fn binary_value(v: ValueView) -> Option<Seq<u8>> {
    match inferred(v) {
        None => None,
        Some(t) => match (encoded_type(t), binary_data(v, t)) {
            (Some(a), Some(b)) => Some(a + b),
            _ => None,
        },
    }
}

/// Bytes in the opposite order.
pub fn reversed(b: &[u8]) -> (r: Vec<u8>)
    ensures
        r@ == b@.reverse(),
{
    let mut out: Vec<u8> = Vec::new();
    let mut i: usize = b.len();
    while i > 0
        invariant
            i <= b.len(),
            out@.len() == b.len() - i,
            forall|j: int| 0 <= j < out@.len() ==> out@[j] == b@[b@.len() - 1 - j],
        decreases i,
    {
        i -= 1;
        out.push(b[i]);
    }
    assert(out@ =~= b@.reverse());
    out
}

fn serialize_all(writer: &mut Vec<u8>, v: &Vec<Value>, ty: &Type) -> (r: Result<()>)
    ensures
        match r {
            Ok(()) => all_binary(value_views(v@), ty@) is Some && final(writer)@ == old(writer)@
                + all_binary(value_views(v@), ty@)->0,
            Err(e) => all_binary(value_views(v@), ty@) is None && e == Error::Encode,
        },
    decreases v, ty,
{
    let ghost all = value_views(v@);
    let mut i: usize = 0;
    assert(all.subrange(0, all.len() as int) =~= all);
    while i < v.len()
        invariant
            i <= v.len(),
            all == value_views(v@),
            all_binary(all, ty@) is Some <==> all_binary(
                all.subrange(i as int, all.len() as int),
                ty@,
            ) is Some,
            all_binary(all, ty@) is Some ==> old(writer)@ + all_binary(all, ty@)->0 == writer@
                + all_binary(all.subrange(i as int, all.len() as int), ty@)->0,
        decreases v.len() - i,
    {
        proof {
            let here = all.subrange(i as int, all.len() as int);
            assert(here[0] == v@[i as int]@);
            assert(here.subrange(1, here.len() as int) =~= all.subrange(i + 1, all.len() as int));
            assert(decreases_to!(v@ => v@[i as int]));
        }
        let ghost before = writer@;
        match serialize_value_data(writer, &v[i], ty) {
            Ok(()) => {},
            Err(e) => return Err(e),
        }
        proof {
            let next = all_binary(all.subrange(i + 1, all.len() as int), ty@);
            if next is Some {
                assert(before + (binary_data(v@[i as int]@, ty@)->0 + next->0) =~= writer@
                    + next->0);
            }
        }
        i += 1;
    }
    assert(writer@ + Seq::<u8>::empty() =~= writer@);
    Ok(())
}

fn serialize_fields(writer: &mut Vec<u8>, v: &Vec<Value>, ts: &Vec<Type>) -> (r: Result<()>)
    requires
        v@.len() == ts@.len(),
    ensures
        match r {
            Ok(()) => fields_binary(value_views(v@), type_views(ts@)) is Some && final(writer)@
                == old(writer)@ + fields_binary(value_views(v@), type_views(ts@))->0,
            Err(e) => fields_binary(value_views(v@), type_views(ts@)) is None && e == Error::Encode,
        },
    decreases v, ts,
{
    let ghost all = value_views(v@);
    let ghost tys = type_views(ts@);
    let mut i: usize = 0;
    assert(all.subrange(0, all.len() as int) =~= all);
    assert(tys.subrange(0, tys.len() as int) =~= tys);
    while i < v.len()
        invariant
            i <= v.len(),
            v@.len() == ts@.len(),
            all == value_views(v@),
            tys == type_views(ts@),
            fields_binary(all, tys) is Some <==> fields_binary(
                all.subrange(i as int, all.len() as int),
                tys.subrange(i as int, tys.len() as int),
            ) is Some,
            fields_binary(all, tys) is Some ==> old(writer)@ + fields_binary(all, tys)->0 == writer@
                + fields_binary(
                all.subrange(i as int, all.len() as int),
                tys.subrange(i as int, tys.len() as int),
            )->0,
        decreases v.len() - i,
    {
        proof {
            let here = all.subrange(i as int, all.len() as int);
            let heret = tys.subrange(i as int, tys.len() as int);
            assert(here[0] == v@[i as int]@);
            assert(heret[0] == ts@[i as int]@);
            assert(here.subrange(1, here.len() as int) =~= all.subrange(i + 1, all.len() as int));
            assert(heret.subrange(1, heret.len() as int) =~= tys.subrange(i + 1, tys.len() as int));
            assert(decreases_to!(v@ => v@[i as int]));
        }
        let ghost before = writer@;
        match serialize_value_data(writer, &v[i], &ts[i]) {
            Ok(()) => {},
            Err(e) => return Err(e),
        }
        proof {
            let next = fields_binary(
                all.subrange(i + 1, all.len() as int),
                tys.subrange(i + 1, tys.len() as int),
            );
            if next is Some {
                assert(before + (binary_data(v@[i as int]@, ts@[i as int]@)->0 + next->0)
                    =~= writer@ + next->0);
            }
        }
        i += 1;
    }
    assert(writer@ + Seq::<u8>::empty() =~= writer@);
    Ok(())
}

/// Appends the bytes of a value that is written as a type.
fn serialize_value_data(writer: &mut Vec<u8>, value: &Value, ty: &Type) -> (r: Result<()>)
    ensures
        match r {
            Ok(()) => binary_data(value@, ty@) is Some && final(writer)@ == old(writer)@
                + binary_data(value@, ty@)->0,
            Err(e) => binary_data(value@, ty@) is None && e == Error::Encode,
        },
    decreases value, ty,
{
    proof {
        value.lemma_view();
        ty.lemma_view();
    }
    match (value, ty) {
        (Value::Null, Type::Nothing) => {},
        (Value::Bool(b), Type::Bool) => {
            if *b {
                writer.push(1);
            } else {
                writer.push(0);
            }
        },
        (Value::UInt8(x), Type::UInt8) => put_u8(writer, *x),
        (Value::UInt16(x), Type::UInt16) => put_u16_le(writer, *x),
        (Value::UInt32(x), Type::UInt32) => put_u32_le(writer, *x),
        (Value::UInt64(x), Type::UInt64) => put_u64_le(writer, *x),
        (Value::UInt128(x), Type::UInt128) => put_u128_le(writer, *x),
        (Value::Int8(x), Type::Int8) => put_i8(writer, *x),
        (Value::Int16(x), Type::Int16) => put_i16_le(writer, *x),
        (Value::Int32(x), Type::Int32) => put_i32_le(writer, *x),
        (Value::Int64(x), Type::Int64) => put_i64_le(writer, *x),
        (Value::Int128(x), Type::Int128) => put_i128_le(writer, *x),
        (Value::Float32(x), Type::Float32) => put_u32_le(writer, *x),
        (Value::Float64(x), Type::Float64) => put_u64_le(writer, *x),
        (Value::UInt256(x), Type::UInt256) => {
            let bytes = reversed(x.0.as_slice());
            put_bytes(writer, &bytes);
        },
        (Value::Int256(x), Type::Int256) => {
            let bytes = reversed(x.0.as_slice());
            put_bytes(writer, &bytes);
        },
        (Value::Date(d), Type::Date) => put_u16_le(writer, d.0),
        (Value::Date32(d), Type::Date32) => put_i32_le(writer, d.0),
        (Value::DateTime(d), Type::DateTime(_)) => put_u32_le(writer, d.1),
        (Value::DateTime64(d), Type::DateTime64(_, _)) => put_u64_le(writer, d.1),
        (Value::String(b), Type::String) => put_string(writer, b),
        (Value::String(b), Type::FixedSizedString(_)) => put_string(writer, b),
        (Value::Uuid(n), Type::Uuid) => {
            put_u64_le(writer, (*n % 0x1_0000_0000_0000_0000) as u64);
            put_u64_le(writer, (*n / 0x1_0000_0000_0000_0000) as u64);
        },
        (Value::Ipv4(x), Type::Ipv4) => put_u32_le(writer, x.0),
        (Value::Ipv6(x), Type::Ipv6) => put_bytes(writer, x.0.as_slice()),
        (Value::Array(v), Type::Array(inner)) => {
            put_var_uint(writer, v.len() as u64);
            match serialize_all(writer, v, inner) {
                Ok(()) => {},
                Err(e) => return Err(e),
            }
        },
        (Value::Tuple(v), Type::Tuple(ts)) => {
            if v.len() != ts.len() {
                return Err(Error::Encode);
            }
            match serialize_fields(writer, v, ts) {
                Ok(()) => {},
                Err(e) => return Err(e),
            }
        },
        (Value::MapOf(k, v), Type::MapOf(kt, vt)) => {
            put_var_uint(writer, k.len() as u64);
            match serialize_all(writer, k, kt) {
                Ok(()) => {},
                Err(e) => return Err(e),
            }
            match serialize_all(writer, v, vt) {
                Ok(()) => {},
                Err(e) => return Err(e),
            }
        },
        (Value::Null, Type::Nullable(_)) => writer.push(1),
        (v, Type::Nullable(inner)) => {
            writer.push(0);
            match serialize_value_data(writer, v, inner) {
                Ok(()) => {},
                Err(e) => return Err(e),
            }
        },
        _ => return Err(Error::Encode),
    }
    assert(writer@ =~= old(writer)@ + binary_data(value@, ty@)->0);
    Ok(())
}

/// Appends a value behind the encoding of its type.
pub fn serialize_binary_value(writer: &mut Vec<u8>, value: &Value) -> (r: Result<()>)
    ensures
        match r {
            Ok(()) => binary_value(value@) is Some && final(writer)@ == old(writer)@
                + binary_value(value@)->0,
            Err(e) => binary_value(value@) is None && e == Error::Encode,
        },
{
    let ty = match infer_type(value) {
        Ok(t) => t,
        Err(e) => return Err(e),
    };
    match encode_type(writer, &ty) {
        Ok(()) => {},
        Err(e) => return Err(e),
    }
    match serialize_value_data(writer, value, &ty) {
        Ok(()) => {
            assert(writer@ =~= old(writer)@ + binary_value(value@)->0);
            Ok(())
        },
        Err(e) => Err(e),
    }
}

// ---------------------------------------------------------------------------
// Reading
// ---------------------------------------------------------------------------

/// Reads the halves of a UUID, the lower first.
pub open spec fn parsed_uuid(s: Seq<u8>) -> Parsed<u128> {
    match parsed_uint(s, 8) {
        Err(e) => Err(e),
        Ok((low, rest)) => match parsed_uint(rest, 8) {
            Err(e) => Err(e),
            Ok((high, end)) => Ok(((high * 0x1_0000_0000_0000_0000 + low) as u128, end)),
        },
    }
}

/// Reads a value that holds no other values.
pub open spec fn parsed_scalar(s: Seq<u8>, t: TypeView) -> Parsed<ValueView> {
    match t {
        TypeView::Nothing => Ok((ValueView::Null, s)),
        TypeView::Bool => match parsed_uint(s, 1) {
            Err(e) => Err(e),
            Ok((b, end)) => Ok((ValueView::Bool(b != 0), end)),
        },
        TypeView::UInt8 => match parsed_uint(s, 1) {
            Err(e) => Err(e),
            Ok((x, end)) => Ok((ValueView::UInt8(x as u8), end)),
        },
        TypeView::UInt16 => match parsed_uint(s, 2) {
            Err(e) => Err(e),
            Ok((x, end)) => Ok((ValueView::UInt16(x as u16), end)),
        },
        TypeView::UInt32 => match parsed_uint(s, 4) {
            Err(e) => Err(e),
            Ok((x, end)) => Ok((ValueView::UInt32(x as u32), end)),
        },
        TypeView::UInt64 => match parsed_uint(s, 8) {
            Err(e) => Err(e),
            Ok((x, end)) => Ok((ValueView::UInt64(x as u64), end)),
        },
        TypeView::UInt128 => match parsed_uint(s, 16) {
            Err(e) => Err(e),
            Ok((x, end)) => Ok((ValueView::UInt128(x as u128), end)),
        },
        TypeView::Float32 => match parsed_uint(s, 4) {
            Err(e) => Err(e),
            Ok((x, end)) => Ok((ValueView::Float32(x as u32), end)),
        },
        TypeView::Float64 => match parsed_uint(s, 8) {
            Err(e) => Err(e),
            Ok((x, end)) => Ok((ValueView::Float64(x as u64), end)),
        },
        TypeView::Int8 => match parsed_int(s, 1) {
            Err(e) => Err(e),
            Ok((x, end)) => Ok((ValueView::Int8(x as i8), end)),
        },
        TypeView::Int16 => match parsed_int(s, 2) {
            Err(e) => Err(e),
            Ok((x, end)) => Ok((ValueView::Int16(x as i16), end)),
        },
        TypeView::Int32 => match parsed_int(s, 4) {
            Err(e) => Err(e),
            Ok((x, end)) => Ok((ValueView::Int32(x as i32), end)),
        },
        TypeView::Int64 => match parsed_int(s, 8) {
            Err(e) => Err(e),
            Ok((x, end)) => Ok((ValueView::Int64(x as i64), end)),
        },
        TypeView::Int128 => match parsed_int(s, 16) {
            Err(e) => Err(e),
            Ok((x, end)) => Ok((ValueView::Int128(x as i128), end)),
        },
        TypeView::UInt256 => match parsed_bytes(s, 32) {
            Err(e) => Err(e),
            Ok((b, end)) => Ok((ValueView::UInt256(b), end)),
        },
        TypeView::Int256 => match parsed_bytes(s, 32) {
            Err(e) => Err(e),
            Ok((b, end)) => Ok((ValueView::Int256(b), end)),
        },
        TypeView::Date => match parsed_uint(s, 2) {
            Err(e) => Err(e),
            Ok((x, end)) => Ok((ValueView::Date(x as u16), end)),
        },
        TypeView::Date32 => match parsed_int(s, 4) {
            Err(e) => Err(e),
            Ok((x, end)) => Ok((ValueView::Date32(x as i32), end)),
        },
        TypeView::Ipv4 => match parsed_uint(s, 4) {
            Err(e) => Err(e),
            Ok((x, end)) => Ok((ValueView::Ipv4(x as u32), end)),
        },
        TypeView::DateTime(tz) => match parsed_uint(s, 4) {
            Err(e) => Err(e),
            Ok((x, end)) => Ok((ValueView::DateTime(tz, x as u32), end)),
        },
        TypeView::DateTime64(p, tz) => match parsed_uint(s, 8) {
            Err(e) => Err(e),
            Ok((x, end)) => Ok((ValueView::DateTime64(tz, x as u64, p), end)),
        },
        TypeView::String => match parsed_string(s) {
            Err(e) => Err(e),
            Ok((b, end)) => Ok((ValueView::String(b), end)),
        },
        TypeView::FixedSizedString(n) => match parsed_bytes(s, n as nat) {
            Err(e) => Err(e),
            Ok((b, end)) => Ok((ValueView::String(b), end)),
        },
        TypeView::Uuid => match parsed_uuid(s) {
            Err(e) => Err(e),
            Ok((n, end)) => Ok((ValueView::Uuid(n), end)),
        },
        TypeView::Ipv6 => match parsed_bytes(s, 16) {
            Err(e) => Err(e),
            Ok((b, end)) => Ok((ValueView::Ipv6(b), end)),
        },
        _ => Err(Error::DeserializeError(ReadReason::UnsupportedType)),
    }
}

/// Reads a value that was written as a type.
pub open spec fn parsed_value(s: Seq<u8>, t: TypeView) -> Parsed<ValueView>
    decreases t, 0nat,
{
    match t {
        TypeView::Array(inner) => match parsed_varuint(s) {
            Err(e) => Err(e),
            Ok((n, rest)) => match parsed_values(rest, *inner, (n as usize) as nat) {
                Err(e) => Err(e),
                Ok((vs, end)) => Ok((ValueView::Array(vs), end)),
            },
        },
        TypeView::Tuple(ts) => match parsed_fields(s, ts) {
            Err(e) => Err(e),
            Ok((vs, end)) => Ok((ValueView::Tuple(vs), end)),
        },
        TypeView::Nullable(inner) => match parsed_uint(s, 1) {
            Err(e) => Err(e),
            Ok((b, rest)) => if b != 0 {
                Ok((ValueView::Null, rest))
            } else {
                parsed_value(rest, *inner)
            },
        },
        TypeView::MapOf(kt, vt) => match parsed_varuint(s) {
            Err(e) => Err(e),
            Ok((n, rest)) => match parsed_values(rest, *kt, (n as usize) as nat) {
                Err(e) => Err(e),
                Ok((ks, next)) => match parsed_values(next, *vt, (n as usize) as nat) {
                    Err(e) => Err(e),
                    Ok((vs, end)) => Ok((ValueView::MapOf(ks, vs), end)),
                },
            },
        },
        _ => parsed_scalar(s, t),
    }
}

/// Reads `n` values that were written as one type.
pub open spec fn parsed_values(s: Seq<u8>, t: TypeView, n: nat) -> Parsed<Seq<ValueView>>
    decreases t, n + 1,
{
    if n == 0 {
        Ok((Seq::empty(), s))
    } else {
        match parsed_value(s, t) {
            Err(e) => Err(e),
            Ok((v, next)) => match parsed_values(next, t, (n - 1) as nat) {
                Err(e) => Err(e),
                Ok((vs, end)) => Ok((seq![v] + vs, end)),
            },
        }
    }
}

/// Reads fields that were written as their types.
pub open spec fn parsed_fields(s: Seq<u8>, ts: Seq<TypeView>) -> Parsed<Seq<ValueView>>
    decreases ts, 0nat,
{
    if ts.len() == 0 {
        Ok((Seq::empty(), s))
    } else {
        match parsed_value(s, ts[0]) {
            Err(e) => Err(e),
            Ok((v, next)) => match parsed_fields(next, ts.subrange(1, ts.len() as int)) {
                Err(e) => Err(e),
                Ok((vs, end)) => Ok((seq![v] + vs, end)),
            },
        }
    }
}

/// Reads a value behind the encoding of its type.
pub open spec fn parsed_binary_value(s: Seq<u8>) -> Parsed<ValueView> {
    match parsed_code(s) {
        Err(e) => Err(e),
        Ok((t, rest)) => parsed_value(rest, t),
    }
}

/// Values, with further values behind them.
pub open spec fn values_before(head: Seq<ValueView>, rest: Parsed<Seq<ValueView>>) -> Parsed<
    Seq<ValueView>,
> {
    match rest {
        Err(e) => Err(e),
        Ok((vs, end)) => Ok((head + vs, end)),
    }
}

/// The first sixteen bytes, as an array.
pub fn array16(v: &[u8]) -> (r: [u8; 16])
    requires
        v@.len() == 16,
    ensures
        r@ == v@,
{
    let mut out: [u8; 16] = [0;16];
    let mut i: usize = 0;
    while i < 16
        invariant
            i <= 16,
            v@.len() == 16,
            forall|j: int| 0 <= j < i ==> out@[j] == v@[j],
        decreases 16 - i,
    {
        out[i] = v[i];
        i += 1;
    }
    assert(out@ =~= v@);
    out
}

/// The first thirty-two bytes, as an array.
pub fn array32(v: &[u8]) -> (r: [u8; 32])
    requires
        v@.len() == 32,
    ensures
        r@ == v@,
{
    let mut out: [u8; 32] = [0;32];
    let mut i: usize = 0;
    while i < 32
        invariant
            i <= 32,
            v@.len() == 32,
            forall|j: int| 0 <= j < i ==> out@[j] == v@[j],
        decreases 32 - i,
    {
        out[i] = v[i];
        i += 1;
    }
    assert(out@ =~= v@);
    out
}

fn deserialize_values(reader: &mut &[u8], ty: &Type, n: usize) -> (r: Result<Vec<Value>>)
    ensures
        match r {
            Ok(v) => parsed_values(old(reader)@, ty@, n as nat) == Ok::<_, Error>(
                (value_views(v@), final(reader)@),
            ),
            Err(e) => parsed_values(old(reader)@, ty@, n as nat) == Err::<
                (Seq<ValueView>, Seq<u8>),
                _,
            >(e),
        },
    decreases ty, n + 1,
{
    let mut out: Vec<Value> = Vec::new();
    let mut i: usize = 0;
    proof {
        if let Ok((vs, _)) = parsed_values(reader@, ty@, n as nat) {
            assert(value_views(out@) + vs =~= vs);
        }
    }
    while i < n
        invariant
            i <= n,
            parsed_values(old(reader)@, ty@, n as nat) == values_before(
                value_views(out@),
                parsed_values(reader@, ty@, (n - i) as nat),
            ),
        decreases n - i,
    {
        let ghost head = value_views(out@);
        match deserialize_value_with_type(reader, ty) {
            Err(e) => return Err(e),
            Ok(v) => {
                let ghost vv = v@;
                out.push(v);
                proof {
                    assert(value_views(out@) =~= head.push(vv));
                    if let Ok((vs, _)) = parsed_values(reader@, ty@, (n - i - 1) as nat) {
                        assert(head + (seq![vv] + vs) =~= value_views(out@) + vs);
                    }
                }
            },
        }
        i += 1;
    }
    assert(value_views(out@) + Seq::<ValueView>::empty() =~= value_views(out@));
    Ok(out)
}

fn deserialize_fields(reader: &mut &[u8], ts: &Vec<Type>) -> (r: Result<Vec<Value>>)
    ensures
        match r {
            Ok(v) => parsed_fields(old(reader)@, type_views(ts@)) == Ok::<_, Error>(
                (value_views(v@), final(reader)@),
            ),
            Err(e) => parsed_fields(old(reader)@, type_views(ts@)) == Err::<
                (Seq<ValueView>, Seq<u8>),
                _,
            >(e),
        },
    decreases ts, 0nat,
{
    let ghost all = type_views(ts@);
    let mut out: Vec<Value> = Vec::new();
    let mut i: usize = 0;
    proof {
        assert(all.subrange(0, all.len() as int) =~= all);
        if let Ok((vs, _)) = parsed_fields(reader@, all) {
            assert(value_views(out@) + vs =~= vs);
        }
    }
    while i < ts.len()
        invariant
            i <= ts.len(),
            all == type_views(ts@),
            parsed_fields(old(reader)@, all) == values_before(
                value_views(out@),
                parsed_fields(reader@, all.subrange(i as int, all.len() as int)),
            ),
        decreases ts.len() - i,
    {
        let ghost head = value_views(out@);
        proof {
            let here = all.subrange(i as int, all.len() as int);
            assert(here[0] == ts@[i as int]@);
            assert(here.subrange(1, here.len() as int) =~= all.subrange(i + 1, all.len() as int));
            assert(decreases_to!(ts@ => ts@[i as int]));
        }
        match deserialize_value_with_type(reader, &ts[i]) {
            Err(e) => return Err(e),
            Ok(v) => {
                let ghost vv = v@;
                out.push(v);
                proof {
                    assert(value_views(out@) =~= head.push(vv));
                    if let Ok((vs, _)) = parsed_fields(
                        reader@,
                        all.subrange(i + 1, all.len() as int),
                    ) {
                        assert(head + (seq![vv] + vs) =~= value_views(out@) + vs);
                    }
                }
            },
        }
        i += 1;
    }
    assert(value_views(out@) + Seq::<ValueView>::empty() =~= value_views(out@));
    Ok(out)
}

/// Reads a value that holds no other values.
#[verifier::rlimit(40)]
fn deserialize_scalar(reader: &mut &[u8], ty: &Type) -> (r: Result<Value>)
    ensures
        match r {
            Ok(v) => parsed_scalar(old(reader)@, ty@) == Ok::<_, Error>((v@, final(reader)@)),
            Err(e) => parsed_scalar(old(reader)@, ty@) == Err::<(ValueView, Seq<u8>), _>(e),
        },
{
    match ty {
        Type::Nothing => Ok(Value::Null),
        Type::Bool => match get_u8(reader) {
            Ok(b) => Ok(Value::Bool(b != 0)),
            Err(e) => Err(e),
        },
        Type::UInt8 => match get_u8(reader) {
            Ok(x) => Ok(Value::UInt8(x)),
            Err(e) => Err(e),
        },
        Type::UInt16 => match get_u16_le(reader) {
            Ok(x) => Ok(Value::UInt16(x)),
            Err(e) => Err(e),
        },
        Type::UInt32 => match get_u32_le(reader) {
            Ok(x) => Ok(Value::UInt32(x)),
            Err(e) => Err(e),
        },
        Type::UInt64 => match get_u64_le(reader) {
            Ok(x) => Ok(Value::UInt64(x)),
            Err(e) => Err(e),
        },
        Type::UInt128 => match get_u128_le(reader) {
            Ok(x) => Ok(Value::UInt128(x)),
            Err(e) => Err(e),
        },
        Type::Int8 => match get_i8(reader) {
            Ok(x) => Ok(Value::Int8(x)),
            Err(e) => Err(e),
        },
        Type::Int16 => match get_i16_le(reader) {
            Ok(x) => Ok(Value::Int16(x)),
            Err(e) => Err(e),
        },
        Type::Int32 => match get_i32_le(reader) {
            Ok(x) => Ok(Value::Int32(x)),
            Err(e) => Err(e),
        },
        Type::Int64 => match get_i64_le(reader) {
            Ok(x) => Ok(Value::Int64(x)),
            Err(e) => Err(e),
        },
        Type::Int128 => match get_i128_le(reader) {
            Ok(x) => Ok(Value::Int128(x)),
            Err(e) => Err(e),
        },
        Type::Float32 => match get_u32_le(reader) {
            Ok(x) => Ok(Value::Float32(x)),
            Err(e) => Err(e),
        },
        Type::Float64 => match get_u64_le(reader) {
            Ok(x) => Ok(Value::Float64(x)),
            Err(e) => Err(e),
        },
        Type::UInt256 => match get_bytes(reader, 32) {
            Ok(b) => Ok(Value::UInt256(u256(array32(&b)))),
            Err(e) => Err(e),
        },
        Type::Int256 => match get_bytes(reader, 32) {
            Ok(b) => Ok(Value::Int256(i256(array32(&b)))),
            Err(e) => Err(e),
        },
        Type::Date => match get_u16_le(reader) {
            Ok(x) => Ok(Value::Date(Date(x))),
            Err(e) => Err(e),
        },
        Type::Date32 => match get_i32_le(reader) {
            Ok(x) => Ok(Value::Date32(Date32(x))),
            Err(e) => Err(e),
        },
        Type::Ipv4 => match get_u32_le(reader) {
            Ok(x) => Ok(Value::Ipv4(Ipv4(x))),
            Err(e) => Err(e),
        },
        Type::DateTime(tz) => match get_u32_le(reader) {
            Ok(x) => Ok(Value::DateTime(DateTime(*tz, x))),
            Err(e) => Err(e),
        },
        Type::DateTime64(p, tz) => match get_u64_le(reader) {
            Ok(x) => Ok(Value::DateTime64(DynDateTime64(*tz, x, *p))),
            Err(e) => Err(e),
        },
        Type::String => match read_string(reader) {
            Ok(b) => Ok(Value::String(b)),
            Err(e) => Err(e),
        },
        Type::FixedSizedString(n) => match get_bytes(reader, *n) {
            Ok(b) => Ok(Value::String(b)),
            Err(e) => Err(e),
        },
        Type::Uuid => {
            let low: u64 = match get_u64_le(reader) {
                Ok(x) => x,
                Err(e) => return Err(e),
            };
            match get_u64_le(reader) {
                Ok(high) => Ok(Value::Uuid(high as u128 * 0x1_0000_0000_0000_0000 + low as u128)),
                Err(e) => Err(e),
            }
        },
        Type::Ipv6 => match get_bytes(reader, 16) {
            Ok(b) => Ok(Value::Ipv6(Ipv6(array16(&b)))),
            Err(e) => Err(e),
        },
        _ => Err(Error::DeserializeError(ReadReason::UnsupportedType)),
    }
}

/// Reads a value that was written as a type.
fn deserialize_value_with_type(reader: &mut &[u8], ty: &Type) -> (r: Result<Value>)
    ensures
        match r {
            Ok(v) => parsed_value(old(reader)@, ty@) == Ok::<_, Error>((v@, final(reader)@)),
            Err(e) => parsed_value(old(reader)@, ty@) == Err::<(ValueView, Seq<u8>), _>(e),
        },
    decreases ty, 0nat,
{
    proof {
        ty.lemma_view();
    }
    match ty {
        Type::Array(inner) => {
            let n: u64 = match read_varuint(reader) {
                Ok(n) => n,
                Err(e) => return Err(e),
            };
            match deserialize_values(reader, inner, n as usize) {
                Ok(v) => {
                    let r = Value::Array(v);
                    proof {
                        r.lemma_view();
                    }
                    Ok(r)
                },
                Err(e) => Err(e),
            }
        },
        Type::Tuple(ts) => match deserialize_fields(reader, ts) {
            Ok(v) => {
                let r = Value::Tuple(v);
                proof {
                    r.lemma_view();
                }
                Ok(r)
            },
            Err(e) => Err(e),
        },
        Type::Nullable(inner) => match get_u8(reader) {
            Err(e) => Err(e),
            Ok(b) => if b != 0 {
                Ok(Value::Null)
            } else {
                deserialize_value_with_type(reader, inner)
            },
        },
        Type::MapOf(kt, vt) => {
            let n: u64 = match read_varuint(reader) {
                Ok(n) => n,
                Err(e) => return Err(e),
            };
            let k = match deserialize_values(reader, kt, n as usize) {
                Ok(k) => k,
                Err(e) => return Err(e),
            };
            match deserialize_values(reader, vt, n as usize) {
                Ok(v) => {
                    let r = Value::MapOf(k, v);
                    proof {
                        r.lemma_view();
                    }
                    Ok(r)
                },
                Err(e) => Err(e),
            }
        },
        _ => deserialize_scalar(reader, ty),
    }
}

/// Reads a value behind the encoding of its type.
pub fn deserialize_binary_value_from_reader(reader: &mut &[u8]) -> (r: Result<Value>)
    ensures
        match r {
            Ok(v) => parsed_binary_value(old(reader)@) == Ok::<_, Error>((v@, final(reader)@)),
            Err(e) => parsed_binary_value(old(reader)@) == Err::<(ValueView, Seq<u8>), _>(e),
        },
{
    let ty = match decode_type(reader) {
        Ok(t) => t,
        Err(e) => return Err(e),
    };
    deserialize_value_with_type(reader, &ty)
}

/// Reads the value that bytes begin with, behind the encoding of its type.
pub fn deserialize_binary_value(data: &[u8]) -> (r: Result<Value>)
    ensures
        match r {
            Ok(v) => parsed_binary_value(data@) is Ok && parsed_binary_value(data@)->Ok_0.0 == v@,
            Err(e) => parsed_binary_value(data@) == Err::<(ValueView, Seq<u8>), _>(e),
        },
{
    let mut reader: &[u8] = data;
    deserialize_binary_value_from_reader(&mut reader)
}

} // verus!
