//! The binary encoding of types, as it stands in the shared data of JSON columns.
use vstd::prelude::*;

use crate::error::{Error, Result};
use crate::types::{type_views, utc, utc_zone, Type, TypeView};
use crate::wire::{
    get_u8, law_varuint_reads_back, parsed_varuint, put_var_uint, read_varuint, varuint_bytes,
    Parsed,
};

verus! {

pub const TYPE_NOTHING: u8 = 0x00;

pub const TYPE_UINT8: u8 = 0x01;

pub const TYPE_UINT16: u8 = 0x02;

pub const TYPE_UINT32: u8 = 0x03;

pub const TYPE_UINT64: u8 = 0x04;

pub const TYPE_UINT128: u8 = 0x05;

pub const TYPE_UINT256: u8 = 0x06;

pub const TYPE_INT8: u8 = 0x07;

pub const TYPE_INT16: u8 = 0x08;

pub const TYPE_INT32: u8 = 0x09;

pub const TYPE_INT64: u8 = 0x0A;

pub const TYPE_INT128: u8 = 0x0B;

pub const TYPE_INT256: u8 = 0x0C;

pub const TYPE_FLOAT32: u8 = 0x0D;

pub const TYPE_FLOAT64: u8 = 0x0E;

pub const TYPE_DATE: u8 = 0x0F;

pub const TYPE_DATE32: u8 = 0x10;

pub const TYPE_DATETIME: u8 = 0x11;

pub const TYPE_DATETIME64: u8 = 0x12;

pub const TYPE_STRING: u8 = 0x15;

pub const TYPE_FIXED_STRING: u8 = 0x16;

pub const TYPE_UUID: u8 = 0x1D;

pub const TYPE_ARRAY: u8 = 0x1E;

pub const TYPE_TUPLE: u8 = 0x1F;

pub const TYPE_NULLABLE: u8 = 0x23;

pub const TYPE_IPV4: u8 = 0x25;

pub const TYPE_IPV6: u8 = 0x26;

pub const TYPE_MAP: u8 = 0x27;

pub const TYPE_BOOL: u8 = 0x2D;

/// The byte of a type that is encoded by one byte alone.
pub open spec fn code_of(t: TypeView) -> Option<u8> {
    match t {
        TypeView::Nothing => Some(TYPE_NOTHING),
        TypeView::UInt8 => Some(TYPE_UINT8),
        TypeView::UInt16 => Some(TYPE_UINT16),
        TypeView::UInt32 => Some(TYPE_UINT32),
        TypeView::UInt64 => Some(TYPE_UINT64),
        TypeView::UInt128 => Some(TYPE_UINT128),
        TypeView::UInt256 => Some(TYPE_UINT256),
        TypeView::Int8 => Some(TYPE_INT8),
        TypeView::Int16 => Some(TYPE_INT16),
        TypeView::Int32 => Some(TYPE_INT32),
        TypeView::Int64 => Some(TYPE_INT64),
        TypeView::Int128 => Some(TYPE_INT128),
        TypeView::Int256 => Some(TYPE_INT256),
        TypeView::Float32 => Some(TYPE_FLOAT32),
        TypeView::Float64 => Some(TYPE_FLOAT64),
        TypeView::Date => Some(TYPE_DATE),
        TypeView::Date32 => Some(TYPE_DATE32),
        TypeView::String => Some(TYPE_STRING),
        TypeView::Uuid => Some(TYPE_UUID),
        TypeView::Ipv4 => Some(TYPE_IPV4),
        TypeView::Ipv6 => Some(TYPE_IPV6),
        TypeView::Bool => Some(TYPE_BOOL),
        TypeView::DateTime(_) => Some(TYPE_DATETIME),
        _ => None,
    }
}

/// The type that one byte alone encodes. A time of which no zone is told is in UTC.
pub open spec fn type_of_code(b: u8) -> Option<TypeView> {
    if b == TYPE_NOTHING {
        Some(TypeView::Nothing)
    } else if b == TYPE_UINT8 {
        Some(TypeView::UInt8)
    } else if b == TYPE_UINT16 {
        Some(TypeView::UInt16)
    } else if b == TYPE_UINT32 {
        Some(TypeView::UInt32)
    } else if b == TYPE_UINT64 {
        Some(TypeView::UInt64)
    } else if b == TYPE_UINT128 {
        Some(TypeView::UInt128)
    } else if b == TYPE_UINT256 {
        Some(TypeView::UInt256)
    } else if b == TYPE_INT8 {
        Some(TypeView::Int8)
    } else if b == TYPE_INT16 {
        Some(TypeView::Int16)
    } else if b == TYPE_INT32 {
        Some(TypeView::Int32)
    } else if b == TYPE_INT64 {
        Some(TypeView::Int64)
    } else if b == TYPE_INT128 {
        Some(TypeView::Int128)
    } else if b == TYPE_INT256 {
        Some(TypeView::Int256)
    } else if b == TYPE_FLOAT32 {
        Some(TypeView::Float32)
    } else if b == TYPE_FLOAT64 {
        Some(TypeView::Float64)
    } else if b == TYPE_DATE {
        Some(TypeView::Date)
    } else if b == TYPE_DATE32 {
        Some(TypeView::Date32)
    } else if b == TYPE_STRING {
        Some(TypeView::String)
    } else if b == TYPE_UUID {
        Some(TypeView::Uuid)
    } else if b == TYPE_IPV4 {
        Some(TypeView::Ipv4)
    } else if b == TYPE_IPV6 {
        Some(TypeView::Ipv6)
    } else if b == TYPE_BOOL {
        Some(TypeView::Bool)
    } else if b == TYPE_DATETIME {
        Some(TypeView::DateTime(utc()))
    } else {
        None
    }
}

/// The encoding of a type, where it has one.
pub open spec fn encoded_type(t: TypeView) -> Option<Seq<u8>>
    decreases t,
{
    match t {
        TypeView::DateTime64(p, _) => Some(seq![TYPE_DATETIME64] + varuint_bytes(p as nat)),
        TypeView::FixedSizedString(n) => Some(seq![TYPE_FIXED_STRING] + varuint_bytes(n as nat)),
        TypeView::Array(inner) => match encoded_type(*inner) {
            Some(bytes) => Some(seq![TYPE_ARRAY] + bytes),
            None => None,
        },
        TypeView::Tuple(v) => match encoded_types(v) {
            Some(bytes) => Some(seq![TYPE_TUPLE] + varuint_bytes(v.len()) + bytes),
            None => None,
        },
        TypeView::Nullable(inner) => match encoded_type(*inner) {
            Some(bytes) => Some(seq![TYPE_NULLABLE] + bytes),
            None => None,
        },
        TypeView::MapOf(k, v) => match (encoded_type(*k), encoded_type(*v)) {
            (Some(a), Some(b)) => Some(seq![TYPE_MAP] + a + b),
            _ => None,
        },
        _ => match code_of(t) {
            Some(b) => Some(seq![b]),
            None => None,
        },
    }
}

/// The encodings of types, one behind the other.
pub open spec fn encoded_types(v: Seq<TypeView>) -> Option<Seq<u8>>
    decreases v,
{
    if v.len() == 0 {
        Some(Seq::empty())
    } else {
        match (encoded_type(v[0]), encoded_types(v.subrange(1, v.len() as int))) {
            (Some(a), Some(b)) => Some(a + b),
            _ => None,
        }
    }
}

/// Reads a type from its encoding.
pub open spec fn parsed_code(s: Seq<u8>) -> Parsed<TypeView>
    decreases s.len(), 0nat,
{
    if s.len() == 0 {
        Err(Error::UnexpectedEof)
    } else {
        let b = s[0];
        let rest = s.skip(1);
        if b == TYPE_DATETIME64 {
            match parsed_varuint(rest) {
                Err(e) => Err(e),
                Ok((p, end)) => Ok((TypeView::DateTime64(p as usize, utc()), end)),
            }
        } else if b == TYPE_FIXED_STRING {
            match parsed_varuint(rest) {
                Err(e) => Err(e),
                Ok((n, end)) => Ok((TypeView::FixedSizedString(n as usize), end)),
            }
        } else if b == TYPE_ARRAY {
            match parsed_code(rest) {
                Err(e) => Err(e),
                Ok((t, end)) => Ok((TypeView::Array(Box::new(t)), end)),
            }
        } else if b == TYPE_NULLABLE {
            match parsed_code(rest) {
                Err(e) => Err(e),
                Ok((t, end)) => Ok((TypeView::Nullable(Box::new(t)), end)),
            }
        } else if b == TYPE_TUPLE {
            match parsed_varuint(rest) {
                Err(e) => Err(e),
                Ok((n, list)) => if list.len() >= s.len() {
                    arbitrary()
                } else {
                    match parsed_codes(list, (n as usize) as nat) {
                        Err(e) => Err(e),
                        Ok((ts, end)) => Ok((TypeView::Tuple(ts), end)),
                    }
                },
            }
        } else if b == TYPE_MAP {
            match parsed_code(rest) {
                Err(e) => Err(e),
                Ok((k, next)) => if next.len() >= s.len() {
                    arbitrary()
                } else {
                    match parsed_code(next) {
                        Err(e) => Err(e),
                        Ok((v, end)) => Ok((TypeView::MapOf(Box::new(k), Box::new(v)), end)),
                    }
                },
            }
        } else {
            match type_of_code(b) {
                Some(t) => Ok((t, rest)),
                None => Err(Error::Decode),
            }
        }
    }
}

/// Reads `n` types from their encodings.
pub open spec fn parsed_codes(s: Seq<u8>, n: nat) -> Parsed<Seq<TypeView>>
    decreases s.len(), n + 1,
{
    if n == 0 {
        Ok((Seq::empty(), s))
    } else {
        match parsed_code(s) {
            Err(e) => Err(e),
            Ok((t, next)) => if next.len() >= s.len() {
                arbitrary()
            } else {
                match parsed_codes(next, (n - 1) as nat) {
                    Err(e) => Err(e),
                    Ok((ts, end)) => Ok((seq![t] + ts, end)),
                }
            },
        }
    }
}

/// Types, with further types behind them.
pub open spec fn types_before(head: Seq<TypeView>, rest: Parsed<Seq<TypeView>>) -> Parsed<
    Seq<TypeView>,
> {
    match rest {
        Err(e) => Err(e),
        Ok((ts, end)) => Ok((head + ts, end)),
    }
}

/// Appends the encodings of types.
fn encode_types(writer: &mut Vec<u8>, v: &Vec<Type>) -> (r: Result<()>)
    ensures
        match r {
            Ok(()) => encoded_types(type_views(v@)) is Some && final(writer)@ == old(writer)@
                + encoded_types(type_views(v@))->0,
            Err(e) => encoded_types(type_views(v@)) is None && e == Error::Encode,
        },
    decreases v,
{
    let ghost all = type_views(v@);
    let mut i: usize = 0;
    assert(all.subrange(0, all.len() as int) =~= all);
    while i < v.len()
        invariant
            i <= v.len(),
            all == type_views(v@),
            encoded_types(all) is Some <==> encoded_types(
                all.subrange(i as int, all.len() as int),
            ) is Some,
            encoded_types(all) is Some ==> old(writer)@ + encoded_types(all)->0 == writer@
                + encoded_types(all.subrange(i as int, all.len() as int))->0,
        decreases v.len() - i,
    {
        proof {
            let here = all.subrange(i as int, all.len() as int);
            assert(here[0] == v@[i as int]@);
            assert(here.subrange(1, here.len() as int) =~= all.subrange(i + 1, all.len() as int));
            assert(decreases_to!(v@ => v@[i as int]));
        }
        let ghost before = writer@;
        match encode_type(writer, &v[i]) {
            Ok(()) => {},
            Err(e) => return Err(e),
        }
        proof {
            let next = encoded_types(all.subrange(i + 1, all.len() as int));
            if next is Some {
                assert(before + (encoded_type(v@[i as int]@)->0 + next->0) =~= writer@ + next->0);
            }
        }
        i += 1;
    }
    assert(writer@ + Seq::<u8>::empty() =~= writer@);
    Ok(())
}

/// Appends the encoding of a type.
pub fn encode_type(writer: &mut Vec<u8>, ty: &Type) -> (r: Result<()>)
    ensures
        match r {
            Ok(()) => encoded_type(ty@) is Some && final(writer)@ == old(writer)@
                + encoded_type(ty@)->0,
            Err(e) => encoded_type(ty@) is None && e == Error::Encode,
        },
    decreases ty,
{
    proof {
        ty.lemma_view();
    }
    let code: u8 = match ty {
        Type::Nothing => TYPE_NOTHING,
        Type::UInt8 => TYPE_UINT8,
        Type::UInt16 => TYPE_UINT16,
        Type::UInt32 => TYPE_UINT32,
        Type::UInt64 => TYPE_UINT64,
        Type::UInt128 => TYPE_UINT128,
        Type::UInt256 => TYPE_UINT256,
        Type::Int8 => TYPE_INT8,
        Type::Int16 => TYPE_INT16,
        Type::Int32 => TYPE_INT32,
        Type::Int64 => TYPE_INT64,
        Type::Int128 => TYPE_INT128,
        Type::Int256 => TYPE_INT256,
        Type::Float32 => TYPE_FLOAT32,
        Type::Float64 => TYPE_FLOAT64,
        Type::Date => TYPE_DATE,
        Type::Date32 => TYPE_DATE32,
        Type::String => TYPE_STRING,
        Type::Uuid => TYPE_UUID,
        Type::Ipv4 => TYPE_IPV4,
        Type::Ipv6 => TYPE_IPV6,
        Type::Bool => TYPE_BOOL,
        Type::DateTime(_) => TYPE_DATETIME,
        Type::DateTime64(p, _) => {
            writer.push(TYPE_DATETIME64);
            put_var_uint(writer, *p as u64);
            assert(writer@ =~= old(writer)@ + encoded_type(ty@)->0);
            return Ok(());
        },
        Type::FixedSizedString(n) => {
            writer.push(TYPE_FIXED_STRING);
            put_var_uint(writer, *n as u64);
            assert(writer@ =~= old(writer)@ + encoded_type(ty@)->0);
            return Ok(());
        },
        Type::Array(inner) => {
            writer.push(TYPE_ARRAY);
            match encode_type(writer, inner) {
                Ok(()) => {},
                Err(e) => return Err(e),
            }
            assert(writer@ =~= old(writer)@ + encoded_type(ty@)->0);
            return Ok(());
        },
        Type::Nullable(inner) => {
            writer.push(TYPE_NULLABLE);
            match encode_type(writer, inner) {
                Ok(()) => {},
                Err(e) => return Err(e),
            }
            assert(writer@ =~= old(writer)@ + encoded_type(ty@)->0);
            return Ok(());
        },
        Type::Tuple(v) => {
            writer.push(TYPE_TUPLE);
            put_var_uint(writer, v.len() as u64);
            match encode_types(writer, v) {
                Ok(()) => {},
                Err(e) => return Err(e),
            }
            assert(writer@ =~= old(writer)@ + encoded_type(ty@)->0);
            return Ok(());
        },
        Type::MapOf(k, v) => {
            writer.push(TYPE_MAP);
            match encode_type(writer, k) {
                Ok(()) => {},
                Err(e) => return Err(e),
            }
            match encode_type(writer, v) {
                Ok(()) => {},
                Err(e) => return Err(e),
            }
            assert(writer@ =~= old(writer)@ + encoded_type(ty@)->0);
            return Ok(());
        },
        _ => return Err(Error::Encode),
    };
    writer.push(code);
    assert(writer@ =~= old(writer)@ + seq![code]);
    Ok(())
}

/// A variable-length integer takes at least one byte.
pub proof fn lemma_varuint_advances(s: Seq<u8>, k: nat)
    ensures
        crate::wire::parsed_groups(s, k) matches Ok((_, rest)) ==> rest.len() < s.len(),
    decreases 10 - k,
{
    if s.len() > 0 && s[0] >= 128 && k < 9 {
        lemma_varuint_advances(s.skip(1), k + 1);
    }
}

fn decode_types(reader: &mut &[u8], n: usize) -> (r: Result<Vec<Type>>)
    ensures
        match r {
            Ok(v) => parsed_codes(old(reader)@, n as nat) == Ok::<_, Error>(
                (type_views(v@), final(reader)@),
            ) && final(reader)@.len() <= old(reader)@.len(),
            Err(e) => parsed_codes(old(reader)@, n as nat) == Err::<(Seq<TypeView>, Seq<u8>), _>(e),
        },
    decreases old(reader)@.len(), n + 1,
{
    let mut out: Vec<Type> = Vec::new();
    let mut i: usize = 0;
    proof {
        let p = parsed_codes(reader@, n as nat);
        if let Ok((ts, _)) = p {
            assert(type_views(out@) + ts =~= ts);
        }
    }
    while i < n
        invariant
            i <= n,
            reader@.len() <= old(reader)@.len(),
            i > 0 ==> reader@.len() < old(reader)@.len(),
            parsed_codes(old(reader)@, n as nat) == types_before(
                type_views(out@),
                parsed_codes(reader@, (n - i) as nat),
            ),
        decreases n - i,
    {
        let ghost head = type_views(out@);
        let ghost here = reader@;
        match decode_type(reader) {
            Err(e) => return Err(e),
            Ok(t) => {
                let ghost tv = t@;
                out.push(t);
                proof {
                    assert(type_views(out@) =~= head.push(tv));
                    if let Ok((ts, _)) = parsed_codes(reader@, (n - i - 1) as nat) {
                        assert(head + (seq![tv] + ts) =~= type_views(out@) + ts);
                    }
                }
            },
        }
        i += 1;
    }
    assert(type_views(out@) + Seq::<TypeView>::empty() =~= type_views(out@));
    Ok(out)
}

/// Reads a type from its encoding.
pub fn decode_type(reader: &mut &[u8]) -> (r: Result<Type>)
    ensures
        match r {
            Ok(t) => parsed_code(old(reader)@) == Ok::<_, Error>((t@, final(reader)@))
                && final(reader)@.len() < old(reader)@.len(),
            Err(e) => parsed_code(old(reader)@) == Err::<(TypeView, Seq<u8>), _>(e),
        },
    decreases old(reader)@.len(), 0nat,
{
    let ghost start = reader@;
    let b: u8 = match get_u8(reader) {
        Ok(b) => b,
        Err(e) => return Err(e),
    };
    proof {
        assert(start.take(1).skip(1) =~= Seq::<u8>::empty());
        assert(crate::wire::le_value(start.take(1)) == start[0]) by {
            reveal_with_fuel(crate::wire::le_value, 2);
        }
        lemma_varuint_advances(reader@, 0);
    }
    match b {
        TYPE_NOTHING => Ok(Type::Nothing),
        TYPE_UINT8 => Ok(Type::UInt8),
        TYPE_UINT16 => Ok(Type::UInt16),
        TYPE_UINT32 => Ok(Type::UInt32),
        TYPE_UINT64 => Ok(Type::UInt64),
        TYPE_UINT128 => Ok(Type::UInt128),
        TYPE_UINT256 => Ok(Type::UInt256),
        TYPE_INT8 => Ok(Type::Int8),
        TYPE_INT16 => Ok(Type::Int16),
        TYPE_INT32 => Ok(Type::Int32),
        TYPE_INT64 => Ok(Type::Int64),
        TYPE_INT128 => Ok(Type::Int128),
        TYPE_INT256 => Ok(Type::Int256),
        TYPE_FLOAT32 => Ok(Type::Float32),
        TYPE_FLOAT64 => Ok(Type::Float64),
        TYPE_DATE => Ok(Type::Date),
        TYPE_DATE32 => Ok(Type::Date32),
        TYPE_STRING => Ok(Type::String),
        TYPE_UUID => Ok(Type::Uuid),
        TYPE_IPV4 => Ok(Type::Ipv4),
        TYPE_IPV6 => Ok(Type::Ipv6),
        TYPE_BOOL => Ok(Type::Bool),
        TYPE_DATETIME => Ok(Type::DateTime(utc_zone())),
        TYPE_DATETIME64 => match read_varuint(reader) {
            Ok(p) => Ok(Type::DateTime64(p as usize, utc_zone())),
            Err(e) => Err(e),
        },
        TYPE_FIXED_STRING => match read_varuint(reader) {
            Ok(n) => Ok(Type::FixedSizedString(n as usize)),
            Err(e) => Err(e),
        },
        TYPE_ARRAY => match decode_type(reader) {
            Ok(t) => Ok(Type::Array(Box::new(t))),
            Err(e) => Err(e),
        },
        TYPE_NULLABLE => match decode_type(reader) {
            Ok(t) => Ok(Type::Nullable(Box::new(t))),
            Err(e) => Err(e),
        },
        TYPE_TUPLE => {
            let n: u64 = match read_varuint(reader) {
                Ok(n) => n,
                Err(e) => return Err(e),
            };
            match decode_types(reader, n as usize) {
                Ok(v) => {
                    let t = Type::Tuple(v);
                    proof {
                        t.lemma_view();
                    }
                    Ok(t)
                },
                Err(e) => Err(e),
            }
        },
        TYPE_MAP => {
            let k = match decode_type(reader) {
                Ok(k) => k,
                Err(e) => return Err(e),
            };
            match decode_type(reader) {
                Ok(v) => Ok(Type::MapOf(Box::new(k), Box::new(v))),
                Err(e) => Err(e),
            }
        },
        _ => Err(Error::Decode),
    }
}

/// The type with every time zone replaced by UTC.
pub open spec fn in_utc(t: TypeView) -> TypeView
    decreases t,
{
    match t {
        TypeView::DateTime(_) => TypeView::DateTime(utc()),
        TypeView::DateTime64(p, _) => TypeView::DateTime64(p, utc()),
        TypeView::Array(inner) => TypeView::Array(Box::new(in_utc(*inner))),
        TypeView::Nullable(inner) => TypeView::Nullable(Box::new(in_utc(*inner))),
        TypeView::MapOf(k, v) => TypeView::MapOf(Box::new(in_utc(*k)), Box::new(in_utc(*v))),
        TypeView::Tuple(v) => TypeView::Tuple(all_in_utc(v)),
        _ => t,
    }
}

/// Types with every time zone replaced by UTC.
pub open spec fn all_in_utc(v: Seq<TypeView>) -> Seq<TypeView>
    decreases v,
{
    if v.len() == 0 {
        Seq::empty()
    } else {
        seq![in_utc(v[0])] + all_in_utc(v.subrange(1, v.len() as int))
    }
}

/// Tuples have no more fields than memory can hold.
pub open spec fn fits_memory(t: TypeView) -> bool
    decreases t,
{
    match t {
        TypeView::Array(inner) => fits_memory(*inner),
        TypeView::Nullable(inner) => fits_memory(*inner),
        TypeView::MapOf(k, v) => fits_memory(*k) && fits_memory(*v),
        TypeView::Tuple(v) => v.len() <= usize::MAX && forall|i: int|
            0 <= i < v.len() ==> fits_memory(#[trigger] v[i]),
        _ => true,
    }
}

/// Decoding gives back the type that was encoded, with its times in UTC.
pub proof fn law_type_code_reads_back(t: TypeView, rest: Seq<u8>)
    requires
        encoded_type(t) is Some,
        fits_memory(t),
    ensures
        parsed_code(encoded_type(t)->0 + rest) == Ok::<_, Error>((in_utc(t), rest)),
        encoded_type(t)->0.len() > 0,
    decreases t,
{
    let bytes = encoded_type(t)->0;
    let s = bytes + rest;
    match t {
        TypeView::DateTime64(p, _) => {
            assert(s.skip(1) =~= varuint_bytes(p as nat) + rest);
            law_varuint_reads_back(p as u64, rest);
        },
        TypeView::FixedSizedString(n) => {
            assert(s.skip(1) =~= varuint_bytes(n as nat) + rest);
            law_varuint_reads_back(n as u64, rest);
        },
        TypeView::Array(inner) => {
            assert(s.skip(1) =~= encoded_type(*inner)->0 + rest);
            law_type_code_reads_back(*inner, rest);
        },
        TypeView::Nullable(inner) => {
            assert(s.skip(1) =~= encoded_type(*inner)->0 + rest);
            law_type_code_reads_back(*inner, rest);
        },
        TypeView::MapOf(k, v) => {
            let second = encoded_type(*v)->0 + rest;
            assert(s.skip(1) =~= encoded_type(*k)->0 + second);
            law_type_code_reads_back(*k, second);
            law_type_code_reads_back(*v, rest);
        },
        TypeView::Tuple(v) => {
            let list = encoded_types(v)->0 + rest;
            assert(s.skip(1) =~= varuint_bytes(v.len()) + list);
            law_varuint_reads_back(v.len() as u64, list);
            lemma_varuint_advances(s.skip(1), 0);
            lemma_codes_read_back(v, rest);
        },
        _ => {
            assert(s.skip(1) =~= rest);
        },
    }
}

proof fn lemma_codes_read_back(v: Seq<TypeView>, rest: Seq<u8>)
    requires
        encoded_types(v) is Some,
        forall|i: int| 0 <= i < v.len() ==> fits_memory(#[trigger] v[i]),
    ensures
        parsed_codes(encoded_types(v)->0 + rest, v.len()) == Ok::<_, Error>((all_in_utc(v), rest)),
    decreases v,
{
    if v.len() == 0 {
        assert(encoded_types(v)->0 + rest =~= rest);
    } else {
        let tail = v.subrange(1, v.len() as int);
        let next = encoded_types(tail)->0 + rest;
        assert(encoded_types(v)->0 + rest =~= encoded_type(v[0])->0 + next);
        law_type_code_reads_back(v[0], next);
        lemma_codes_read_back(tail, rest);
    }
}

} // verus!
