//! The codes of types, and values behind them.
use vstd::prelude::*;

use crate::binary_value::{
    all_binary, binary_data, binary_value, inferred, parsed_binary_value, parsed_value,
    parsed_values,
};
use crate::error::Error;
use crate::type_encoding::{encoded_type, encoded_types, parsed_code};
use crate::types::{utc, TypeView};
use crate::values::ValueView;
use crate::wire::{
    int_bytes, law_int_reads_back, law_uint_reads_back, law_varuint_reads_back, le_bytes,
    lemma_pow256, parsed_uint, string_bytes, varuint_bytes,
};

verus! {

// ---------------------------------------------------------------------------
// Codes
// ---------------------------------------------------------------------------

/// Each type without arguments has the one byte of the table as its code, and no others.
pub proof fn law_table_of_codes(t: TypeView)
    ensures
        encoded_type(TypeView::Nothing) == Some(seq![0x00u8]),
        encoded_type(TypeView::UInt8) == Some(seq![0x01u8]),
        encoded_type(TypeView::UInt16) == Some(seq![0x02u8]),
        encoded_type(TypeView::UInt32) == Some(seq![0x03u8]),
        encoded_type(TypeView::UInt64) == Some(seq![0x04u8]),
        encoded_type(TypeView::UInt128) == Some(seq![0x05u8]),
        encoded_type(TypeView::UInt256) == Some(seq![0x06u8]),
        encoded_type(TypeView::Int8) == Some(seq![0x07u8]),
        encoded_type(TypeView::Int16) == Some(seq![0x08u8]),
        encoded_type(TypeView::Int32) == Some(seq![0x09u8]),
        encoded_type(TypeView::Int64) == Some(seq![0x0Au8]),
        encoded_type(TypeView::Int128) == Some(seq![0x0Bu8]),
        encoded_type(TypeView::Int256) == Some(seq![0x0Cu8]),
        encoded_type(TypeView::Float32) == Some(seq![0x0Du8]),
        encoded_type(TypeView::Float64) == Some(seq![0x0Eu8]),
        encoded_type(TypeView::Date) == Some(seq![0x0Fu8]),
        encoded_type(TypeView::Date32) == Some(seq![0x10u8]),
        t is DateTime ==> encoded_type(t) == Some(seq![0x11u8]),
        encoded_type(TypeView::String) == Some(seq![0x15u8]),
        encoded_type(TypeView::Uuid) == Some(seq![0x1Du8]),
        encoded_type(TypeView::Ipv4) == Some(seq![0x25u8]),
        encoded_type(TypeView::Ipv6) == Some(seq![0x26u8]),
        encoded_type(TypeView::Bool) == Some(seq![0x2Du8]),
        t is Object || t is JSON || t is Dynamic || t is Variant || t is LowCardinality
            || t is Enum8 || t is Enum16 || t is Decimal32 || t is Decimal64 || t is Decimal128
            || t is Decimal256 || t is Point || t is Ring || t is Polygon || t is MultiPolygon
            || t is TupleNamed || t is Binary || t is FixedSizedBinary ==> encoded_type(t) is None,
{
}

/// The byte of the table is read as the type, with nothing behind it. A time is in UTC.
pub proof fn law_code_is_read(rest: Seq<u8>)
    ensures
        parsed_code(seq![0x00u8] + rest) == Ok::<_, Error>((TypeView::Nothing, rest)),
        parsed_code(seq![0x01u8] + rest) == Ok::<_, Error>((TypeView::UInt8, rest)),
        parsed_code(seq![0x02u8] + rest) == Ok::<_, Error>((TypeView::UInt16, rest)),
        parsed_code(seq![0x03u8] + rest) == Ok::<_, Error>((TypeView::UInt32, rest)),
        parsed_code(seq![0x04u8] + rest) == Ok::<_, Error>((TypeView::UInt64, rest)),
        parsed_code(seq![0x05u8] + rest) == Ok::<_, Error>((TypeView::UInt128, rest)),
        parsed_code(seq![0x06u8] + rest) == Ok::<_, Error>((TypeView::UInt256, rest)),
        parsed_code(seq![0x07u8] + rest) == Ok::<_, Error>((TypeView::Int8, rest)),
        parsed_code(seq![0x08u8] + rest) == Ok::<_, Error>((TypeView::Int16, rest)),
        parsed_code(seq![0x09u8] + rest) == Ok::<_, Error>((TypeView::Int32, rest)),
        parsed_code(seq![0x0Au8] + rest) == Ok::<_, Error>((TypeView::Int64, rest)),
        parsed_code(seq![0x0Bu8] + rest) == Ok::<_, Error>((TypeView::Int128, rest)),
        parsed_code(seq![0x0Cu8] + rest) == Ok::<_, Error>((TypeView::Int256, rest)),
        parsed_code(seq![0x0Du8] + rest) == Ok::<_, Error>((TypeView::Float32, rest)),
        parsed_code(seq![0x0Eu8] + rest) == Ok::<_, Error>((TypeView::Float64, rest)),
        parsed_code(seq![0x0Fu8] + rest) == Ok::<_, Error>((TypeView::Date, rest)),
        parsed_code(seq![0x10u8] + rest) == Ok::<_, Error>((TypeView::Date32, rest)),
        parsed_code(seq![0x11u8] + rest) == Ok::<_, Error>((TypeView::DateTime(utc()), rest)),
        parsed_code(seq![0x15u8] + rest) == Ok::<_, Error>((TypeView::String, rest)),
        parsed_code(seq![0x1Du8] + rest) == Ok::<_, Error>((TypeView::Uuid, rest)),
        parsed_code(seq![0x25u8] + rest) == Ok::<_, Error>((TypeView::Ipv4, rest)),
        parsed_code(seq![0x26u8] + rest) == Ok::<_, Error>((TypeView::Ipv6, rest)),
        parsed_code(seq![0x2Du8] + rest) == Ok::<_, Error>((TypeView::Bool, rest)),
{
    assert forall|b: u8| #[trigger] seq![b].len() == 1 && (seq![b] + rest).skip(1) == rest by {
        assert((seq![b] + rest).skip(1) =~= rest);
    }
    assert(seq![0x00u8].len() == 1 && seq![0x01u8].len() == 1 && seq![0x02u8].len() == 1);
    assert(seq![0x03u8].len() == 1 && seq![0x04u8].len() == 1 && seq![0x05u8].len() == 1);
    assert(seq![0x06u8].len() == 1 && seq![0x07u8].len() == 1 && seq![0x08u8].len() == 1);
    assert(seq![0x09u8].len() == 1 && seq![0x0Au8].len() == 1 && seq![0x0Bu8].len() == 1);
    assert(seq![0x0Cu8].len() == 1 && seq![0x0Du8].len() == 1 && seq![0x0Eu8].len() == 1);
    assert(seq![0x0Fu8].len() == 1 && seq![0x10u8].len() == 1 && seq![0x11u8].len() == 1);
    assert(seq![0x15u8].len() == 1 && seq![0x1Du8].len() == 1 && seq![0x25u8].len() == 1);
    assert(seq![0x26u8].len() == 1 && seq![0x2Du8].len() == 1);
}

/// A type with arguments has a byte of its own before the codes, or the numbers, of them.
pub proof fn law_codes_with_arguments(t: TypeView, u: TypeView, ts: Seq<TypeView>, n: usize)
    requires
        encoded_type(t) is Some,
        encoded_type(u) is Some,
        encoded_types(ts) is Some,
    ensures
        encoded_type(TypeView::Array(Box::new(t))) == Some(seq![0x1Eu8] + encoded_type(t)->0),
        encoded_type(TypeView::Nullable(Box::new(t))) == Some(seq![0x23u8] + encoded_type(t)->0),
        encoded_type(TypeView::MapOf(Box::new(t), Box::new(u))) == Some(
            seq![0x27u8] + encoded_type(t)->0 + encoded_type(u)->0,
        ),
        encoded_type(TypeView::Tuple(ts)) == Some(
            seq![0x1Fu8] + varuint_bytes(ts.len()) + encoded_types(ts)->0,
        ),
        encoded_types(seq![t] + ts) == Some(encoded_type(t)->0 + encoded_types(ts)->0),
        encoded_type(TypeView::FixedSizedString(n)) == Some(
            seq![0x16u8] + varuint_bytes(n as nat),
        ),
        encoded_type(TypeView::DateTime64(n, utc())) == Some(
            seq![0x12u8] + varuint_bytes(n as nat),
        ),
{
    let all = seq![t] + ts;
    assert(all.subrange(1, all.len() as int) =~= ts);
    assert(all[0] == t);
}

/// Behind such a byte stand the codes of the arguments.
pub proof fn law_codes_with_arguments_are_read(s: Seq<u8>, n: u64, rest: Seq<u8>)
    ensures
        parsed_code(s) matches Ok((t, end)) ==> parsed_code(seq![0x1Eu8] + s) == Ok::<_, Error>(
            (TypeView::Array(Box::new(t)), end),
        ),
        parsed_code(s) matches Ok((t, end)) ==> parsed_code(seq![0x23u8] + s) == Ok::<_, Error>(
            (TypeView::Nullable(Box::new(t)), end),
        ),
        parsed_code(seq![0x16u8] + varuint_bytes(n as nat) + rest) == Ok::<_, Error>(
            (TypeView::FixedSizedString(n as usize), rest),
        ),
        parsed_code(seq![0x12u8] + varuint_bytes(n as nat) + rest) == Ok::<_, Error>(
            (TypeView::DateTime64(n as usize, utc()), rest),
        ),
{
    assert((seq![0x1Eu8] + s).skip(1) =~= s);
    assert((seq![0x23u8] + s).skip(1) =~= s);
    assert((seq![0x16u8] + varuint_bytes(n as nat) + rest).skip(1) =~= varuint_bytes(n as nat)
        + rest);
    assert((seq![0x12u8] + varuint_bytes(n as nat) + rest).skip(1) =~= varuint_bytes(n as nat)
        + rest);
    law_varuint_reads_back(n, rest);
}

// ---------------------------------------------------------------------------
// Values behind codes
// ---------------------------------------------------------------------------

/// A scalar in its binary form is the byte of its type and its own bytes.
pub proof fn law_binary_scalars(v: ValueView)
    ensures
        v is Null ==> binary_value(v) == Some(seq![0x00u8]),
        v matches ValueView::Bool(b) ==> binary_value(v) == Some(
            seq![0x2Du8, if b { 1u8 } else { 0u8 }],
        ),
        v matches ValueView::UInt8(x) ==> binary_value(v) == Some(seq![0x01u8, x]),
        v matches ValueView::UInt16(x) ==> binary_value(v) == Some(
            seq![0x02u8] + le_bytes(x as nat, 2),
        ),
        v matches ValueView::UInt32(x) ==> binary_value(v) == Some(
            seq![0x03u8] + le_bytes(x as nat, 4),
        ),
        v matches ValueView::UInt64(x) ==> binary_value(v) == Some(
            seq![0x04u8] + le_bytes(x as nat, 8),
        ),
        v matches ValueView::UInt128(x) ==> binary_value(v) == Some(
            seq![0x05u8] + le_bytes(x as nat, 16),
        ),
        v matches ValueView::UInt256(b) ==> binary_value(v) == Some(seq![0x06u8] + b.reverse()),
        v matches ValueView::Int8(x) ==> binary_value(v) == Some(
            seq![0x07u8] + int_bytes(x as int, 1),
        ),
        v matches ValueView::Int16(x) ==> binary_value(v) == Some(
            seq![0x08u8] + int_bytes(x as int, 2),
        ),
        v matches ValueView::Int32(x) ==> binary_value(v) == Some(
            seq![0x09u8] + int_bytes(x as int, 4),
        ),
        v matches ValueView::Int64(x) ==> binary_value(v) == Some(
            seq![0x0Au8] + int_bytes(x as int, 8),
        ),
        v matches ValueView::Int128(x) ==> binary_value(v) == Some(
            seq![0x0Bu8] + int_bytes(x as int, 16),
        ),
        v matches ValueView::Int256(b) ==> binary_value(v) == Some(seq![0x0Cu8] + b.reverse()),
        v matches ValueView::Float32(x) ==> binary_value(v) == Some(
            seq![0x0Du8] + le_bytes(x as nat, 4),
        ),
        v matches ValueView::Float64(x) ==> binary_value(v) == Some(
            seq![0x0Eu8] + le_bytes(x as nat, 8),
        ),
        v matches ValueView::Date(x) ==> binary_value(v) == Some(
            seq![0x0Fu8] + le_bytes(x as nat, 2),
        ),
        v matches ValueView::Date32(x) ==> binary_value(v) == Some(
            seq![0x10u8] + int_bytes(x as int, 4),
        ),
        v matches ValueView::DateTime(_, x) ==> binary_value(v) == Some(
            seq![0x11u8] + le_bytes(x as nat, 4),
        ),
        v matches ValueView::DateTime64(_, x, p) ==> binary_value(v) == Some(
            seq![0x12u8] + varuint_bytes(p as nat) + le_bytes(x as nat, 8),
        ),
        v matches ValueView::String(b) ==> binary_value(v) == Some(
            seq![0x15u8] + varuint_bytes(b.len()) + b,
        ),
        v matches ValueView::Uuid(n) ==> binary_value(v) == Some(
            seq![0x1Du8] + le_bytes(n as nat % 0x1_0000_0000_0000_0000, 8) + le_bytes(
                n as nat / 0x1_0000_0000_0000_0000,
                8,
            ),
        ),
        v matches ValueView::Ipv4(x) ==> binary_value(v) == Some(
            seq![0x25u8] + le_bytes(x as nat, 4),
        ),
        v matches ValueView::Ipv6(b) ==> binary_value(v) == Some(seq![0x26u8] + b),
        v is Decimal32 || v is Decimal64 || v is Decimal128 || v is Decimal256 || v is Enum8
            || v is Enum16 || v is Variant || v is Dynamic || v is Json || v is Object || v is Point
            || v is Ring || v is Polygon || v is MultiPolygon ==> binary_value(v) is None,
{
    law_table_of_codes(TypeView::DateTime(utc()));
    match v {
        ValueView::Null => {
            assert(seq![0x00u8] + Seq::<u8>::empty() =~= seq![0x00u8]);
        },
        ValueView::Bool(b) => {
            let x: u8 = if b {
                1u8
            } else {
                0u8
            };
            assert(seq![0x2Du8] + seq![x] =~= seq![0x2Du8, x]);
        },
        ValueView::UInt8(x) => {
            reveal_with_fuel(le_bytes, 2);
            assert(seq![0x01u8] + le_bytes(x as nat, 1) =~= seq![0x01u8, x]);
        },
        ValueView::DateTime64(_, x, p) => {},
        ValueView::String(b) => {
            assert(seq![0x15u8] + string_bytes(b) =~= seq![0x15u8] + varuint_bytes(b.len()) + b);
        },
        ValueView::Uuid(n) => {
            let a = le_bytes(n as nat % 0x1_0000_0000_0000_0000, 8);
            let b = le_bytes(n as nat / 0x1_0000_0000_0000_0000, 8);
            assert(seq![0x1Du8] + (a + b) =~= seq![0x1Du8] + a + b);
        },
        _ => {},
    }
}

/// What arrays, tuples, maps and values that may be null are in their binary form: the
/// number of elements before arrays and maps, all keys before all values, and one byte
/// that tells null.
pub proof fn law_binary_data_of_several(
    s: Seq<ValueView>,
    x: Seq<ValueView>,
    t: TypeView,
    u: TypeView,
    v: ValueView,
)
    ensures
        all_binary(s, t) is Some ==> binary_data(
            ValueView::Array(s),
            TypeView::Array(Box::new(t)),
        ) == Some(varuint_bytes(s.len()) + all_binary(s, t)->0),
        all_binary(s, t) is Some && all_binary(x, u) is Some ==> binary_data(
            ValueView::MapOf(s, x),
            TypeView::MapOf(Box::new(t), Box::new(u)),
        ) == Some(varuint_bytes(s.len()) + all_binary(s, t)->0 + all_binary(x, u)->0),
        binary_data(ValueView::Null, TypeView::Nullable(Box::new(t))) == Some(seq![1u8]),
        !(v is Null) && binary_data(v, t) is Some ==> binary_data(
            v,
            TypeView::Nullable(Box::new(t)),
        ) == Some(seq![0u8] + binary_data(v, t)->0),
        binary_data(v, t) is Some && all_binary(s, t) is Some ==> all_binary(seq![v] + s, t)
            == Some(binary_data(v, t)->0 + all_binary(s, t)->0),
{
    let all = seq![v] + s;
    assert(all.subrange(1, all.len() as int) =~= s);
    assert(all[0] == v);
}

/// The types that tell the keys and the values of a map are those of the first ones; a map without
/// entries tells no types.
pub proof fn law_binary_type_of_a_map(k: Seq<ValueView>, x: Seq<ValueView>)
    ensures
        k.len() == 0 ==> inferred(ValueView::MapOf(k, x)) == Some(
            TypeView::MapOf(Box::new(TypeView::Nothing), Box::new(TypeView::Nothing)),
        ),
        k.len() > 0 && x.len() > 0 && inferred(k[0]) is Some && inferred(x[0]) is Some ==> inferred(
            ValueView::MapOf(k, x),
        ) == Some(
            TypeView::MapOf(Box::new(inferred(k[0])->0), Box::new(inferred(x[0])->0)),
        ),
{
}

/// The type that tells the elements of an array is that of the first; an array without
/// elements tells no type.
pub proof fn law_binary_type_of_an_array(s: Seq<ValueView>)
    ensures
        s.len() == 0 ==> inferred(ValueView::Array(s)) == Some(
            TypeView::Array(Box::new(TypeView::Nothing)),
        ),
        s.len() > 0 && inferred(s[0]) is Some ==> inferred(ValueView::Array(s)) == Some(
            TypeView::Array(Box::new(inferred(s[0])->0)),
        ),
        s.len() > 0 && inferred(s[0]) is None ==> inferred(ValueView::Array(s)) is None,
{
}

/// A scalar behind the byte of its type is read from as many bytes as the type has.
pub proof fn law_binary_scalars_are_read(a: u8, b: u8, x: u64, y: i64, rest: Seq<u8>)
    ensures
        parsed_binary_value(seq![0x00u8] + rest) == Ok::<_, Error>((ValueView::Null, rest)),
        parsed_binary_value(seq![0x2Du8, a] + rest) == Ok::<_, Error>(
            (ValueView::Bool(a != 0), rest),
        ),
        parsed_binary_value(seq![0x01u8, a] + rest) == Ok::<_, Error>((ValueView::UInt8(a), rest)),
        parsed_binary_value(seq![0x02u8, a, b] + rest) == Ok::<_, Error>(
            (ValueView::UInt16((a + 256 * b) as u16), rest),
        ),
        parsed_binary_value(seq![0x0Fu8, a, b] + rest) == Ok::<_, Error>(
            (ValueView::Date((a + 256 * b) as u16), rest),
        ),
        parsed_binary_value(seq![0x04u8] + (le_bytes(x as nat, 8) + rest)) == Ok::<_, Error>(
            (ValueView::UInt64(x), rest),
        ),
        parsed_binary_value(seq![0x0Eu8] + (le_bytes(x as nat, 8) + rest)) == Ok::<_, Error>(
            (ValueView::Float64(x), rest),
        ),
        parsed_binary_value(seq![0x0Au8] + (int_bytes(y as int, 8) + rest)) == Ok::<_, Error>(
            (ValueView::Int64(y), rest),
        ),
{
    lemma_small_are_read(a, b, rest);
    let s8 = le_bytes(x as nat, 8) + rest;
    let i8s = int_bytes(y as int, 8) + rest;
    law_code_is_read(s8);
    law_code_is_read(i8s);
    lemma_pow256();
    law_uint_reads_back(x as nat, 8, rest);
    law_int_reads_back(y as int, 8, rest);
}

pub(crate) proof fn lemma_one_byte(a: u8, rest: Seq<u8>)
    ensures
        parsed_uint(seq![a] + rest, 1) == Ok::<_, Error>((a as nat, rest)),
{
    let s = seq![a] + rest;
    reveal_with_fuel(crate::wire::le_value, 2);
    assert(s.take(1) =~= seq![a] && s.skip(1) =~= rest);
    assert(seq![a].skip(1) =~= Seq::<u8>::empty());
}

pub(crate) proof fn lemma_two_bytes(a: u8, b: u8, rest: Seq<u8>)
    ensures
        parsed_uint(seq![a, b] + rest, 2) == Ok::<_, Error>(((a + 256 * b) as nat, rest)),
{
    let s = seq![a, b] + rest;
    reveal_with_fuel(crate::wire::le_value, 3);
    assert(s.take(2) =~= seq![a, b] && s.skip(2) =~= rest);
    assert(seq![a, b].skip(1) =~= seq![b]);
    assert(seq![b].skip(1) =~= Seq::<u8>::empty());
}

proof fn lemma_small_are_read(a: u8, b: u8, rest: Seq<u8>)
    ensures
        parsed_binary_value(seq![0x00u8] + rest) == Ok::<_, Error>((ValueView::Null, rest)),
        parsed_binary_value(seq![0x2Du8, a] + rest) == Ok::<_, Error>(
            (ValueView::Bool(a != 0), rest),
        ),
        parsed_binary_value(seq![0x01u8, a] + rest) == Ok::<_, Error>((ValueView::UInt8(a), rest)),
        parsed_binary_value(seq![0x02u8, a, b] + rest) == Ok::<_, Error>(
            (ValueView::UInt16((a + 256 * b) as u16), rest),
        ),
        parsed_binary_value(seq![0x0Fu8, a, b] + rest) == Ok::<_, Error>(
            (ValueView::Date((a + 256 * b) as u16), rest),
        ),
{
    let s1 = seq![a] + rest;
    let s2 = seq![a, b] + rest;
    law_code_is_read(rest);
    law_code_is_read(s1);
    law_code_is_read(s2);
    assert(seq![0x2Du8, a] + rest =~= seq![0x2Du8] + s1);
    assert(seq![0x01u8, a] + rest =~= seq![0x01u8] + s1);
    assert(seq![0x02u8, a, b] + rest =~= seq![0x02u8] + s2);
    assert(seq![0x0Fu8, a, b] + rest =~= seq![0x0Fu8] + s2);
    lemma_one_byte(a, rest);
    lemma_two_bytes(a, b, rest);
}

/// The same of strings, of bytes of fixed number and of identifiers, whose lower half
/// comes first.
pub proof fn law_binary_strings_are_read(b: Seq<u8>, low: u64, high: u64, rest: Seq<u8>)
    requires
        b.len() < 128,
    ensures
        parsed_binary_value(seq![0x15u8, b.len() as u8] + b + rest) == Ok::<_, Error>(
            (ValueView::String(b), rest),
        ),
        b.len() == 16 ==> parsed_binary_value(seq![0x26u8] + (b + rest)) == Ok::<_, Error>(
            (ValueView::Ipv6(b), rest),
        ),
        b.len() == 32 ==> parsed_binary_value(seq![0x06u8] + (b + rest)) == Ok::<_, Error>(
            (ValueView::UInt256(b), rest),
        ),
        b.len() == 32 ==> parsed_binary_value(seq![0x0Cu8] + (b + rest)) == Ok::<_, Error>(
            (ValueView::Int256(b), rest),
        ),
        parsed_binary_value(
            seq![0x1Du8] + (le_bytes(low as nat, 8) + (le_bytes(high as nat, 8) + rest)),
        ) == Ok::<_, Error>(
            (ValueView::Uuid((high * 0x1_0000_0000_0000_0000 + low) as u128), rest),
        ),
{
    let s = seq![b.len() as u8] + b + rest;
    crate::wire_format::law_length_stands_before_a_string(b, rest);
    law_code_is_read(s);
    assert(seq![0x15u8, b.len() as u8] + b + rest =~= seq![0x15u8] + s);
    law_code_is_read(b + rest);
    assert((b + rest).take(b.len() as int) =~= b);
    assert((b + rest).skip(b.len() as int) =~= rest);
    lemma_pow256();
    let h = le_bytes(high as nat, 8) + rest;
    law_uint_reads_back(low as nat, 8, h);
    law_uint_reads_back(high as nat, 8, rest);
    law_code_is_read(le_bytes(low as nat, 8) + h);
}

/// Values behind the codes of arrays, maps and values that may be null: a number of
/// elements, all keys before all values, and a byte that is not zero for null.
pub proof fn law_binary_several_are_read(s: Seq<u8>, n: u64, k: TypeView, t: TypeView, b: u8)
    requires
        n <= usize::MAX,
    ensures
        parsed_values(s, t, n as nat) matches Ok((vs, end)) ==> parsed_value(
            varuint_bytes(n as nat) + s,
            TypeView::Array(Box::new(t)),
        ) == Ok::<_, Error>((ValueView::Array(vs), end)),
        parsed_value(varuint_bytes(n as nat) + s, TypeView::MapOf(Box::new(k), Box::new(t))) == (
        match parsed_values(s, k, n as nat) {
            Err(e) => Err(e),
            Ok((ks, mid)) => match parsed_values(mid, t, n as nat) {
                Err(e) => Err(e),
                Ok((vs, end)) => Ok((ValueView::MapOf(ks, vs), end)),
            },
        }),
        b != 0 ==> parsed_value(seq![b] + s, TypeView::Nullable(Box::new(t))) == Ok::<_, Error>(
            (ValueView::Null, s),
        ),
        b == 0 ==> parsed_value(seq![b] + s, TypeView::Nullable(Box::new(t))) == parsed_value(s, t),
{
    law_varuint_reads_back(n, s);
    reveal_with_fuel(crate::wire::le_value, 2);
    assert((seq![b] + s).take(1) =~= seq![b] && (seq![b] + s).skip(1) =~= s);
    assert(seq![b].skip(1) =~= Seq::<u8>::empty());
}

} // verus!
