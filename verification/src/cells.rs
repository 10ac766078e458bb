//! Cells of columns that hold one value after another: numbers, strings and objects.
use vstd::prelude::*;

use crate::binary_value::{array16, array32, reversed};
use crate::error::{Error, ReadReason, Result, WriteReason};
use crate::guess::{justified, zeros};
use crate::json_render::document_text;
use crate::types::{options16, options8, Type, TypeView};
use crate::values::{
    i256, u256, value_views, Date, Date32, DateTime, DynDateTime64, Ipv4, Ipv6, Value, ValueView,
};
use crate::wire::{
    get_bytes, get_i128_le, get_i16_le, get_i32_le, get_i64_le, get_i8, get_u128_le, get_u16_le,
    get_u32_le, get_u64_le, get_u8, int_bytes, le_bytes, parsed_bytes, parsed_int, parsed_string,
    parsed_uint, put_bytes, put_i128_le, put_i16_le, put_i32_le, put_i64_le, put_i8, put_string,
    put_u128_le, put_u16_le, put_u32_le, put_u64_le, put_u8, read_string, string_bytes, Parsed,
};

verus! {

/// Types whose values take a fixed number of bytes.
pub open spec fn is_sized(t: TypeView) -> bool {
    match t {
        TypeView::Int8
        | TypeView::Int16
        | TypeView::Int32
        | TypeView::Int64
        | TypeView::Int128
        | TypeView::Int256
        | TypeView::UInt8
        | TypeView::UInt16
        | TypeView::UInt32
        | TypeView::UInt64
        | TypeView::UInt128
        | TypeView::UInt256
        | TypeView::Float32
        | TypeView::Float64
        | TypeView::Uuid
        | TypeView::Date
        | TypeView::Date32
        | TypeView::Ipv4
        | TypeView::Ipv6
        | TypeView::Decimal32(_)
        | TypeView::Decimal64(_)
        | TypeView::Decimal128(_)
        | TypeView::Decimal256(_)
        | TypeView::DateTime(_)
        | TypeView::DateTime64(_, _)
        | TypeView::Enum8(_)
        | TypeView::Enum16(_) => true,
        _ => false,
    }
}

/// Types whose values are strings of bytes.
pub open spec fn is_string(t: TypeView) -> bool {
    match t {
        TypeView::String
        | TypeView::FixedSizedString(_)
        | TypeView::Binary
        | TypeView::FixedSizedBinary(_) => true,
        _ => false,
    }
}

/// Types whose columns hold one cell after another.
pub open spec fn is_cell_type(t: TypeView) -> bool {
    is_sized(t) || is_string(t) || t is Object
}

/// Whether a type's columns hold one cell after another.
pub fn has_cells(t: &Type) -> (r: bool)
    ensures
        r == is_cell_type(t@),
{
    match t {
        Type::Int8
        | Type::Int16
        | Type::Int32
        | Type::Int64
        | Type::Int128
        | Type::Int256
        | Type::UInt8
        | Type::UInt16
        | Type::UInt32
        | Type::UInt64
        | Type::UInt128
        | Type::UInt256
        | Type::Float32
        | Type::Float64
        | Type::Uuid
        | Type::Date
        | Type::Date32
        | Type::Ipv4
        | Type::Ipv6
        | Type::Decimal32(_)
        | Type::Decimal64(_)
        | Type::Decimal128(_)
        | Type::Decimal256(_)
        | Type::DateTime(_)
        | Type::DateTime64(_, _)
        | Type::Enum8(_)
        | Type::Enum16(_)
        | Type::String
        | Type::FixedSizedString(_)
        | Type::Binary
        | Type::FixedSizedBinary(_)
        | Type::Object => true,
        _ => false,
    }
}

// ---------------------------------------------------------------------------
// Writing
// ---------------------------------------------------------------------------

/// Bytes in the opposite order.
pub open spec fn swapped(b: Seq<u8>) -> Seq<u8> {
    b.reverse()
}

/// Turns big-endian bytes into little-endian ones, and back.
pub fn swap_endian_256(input: [u8; 32]) -> (r: [u8; 32])
    ensures
        r@ == swapped(input@),
{
    let v = reversed(input.as_slice());
    array32(&v)
}

/// Turning the order of bytes around twice changes nothing.
pub proof fn law_swap_twice(b: Seq<u8>)
    ensures
        swapped(swapped(b)) == b,
{
    assert(swapped(swapped(b)) =~= b);
}

/// The bytes of a number, where the value is one.
pub open spec fn sized_bytes(v: ValueView) -> Option<Seq<u8>> {
    match v {
        ValueView::Int8(x) => Some(int_bytes(x as int, 1)),
        ValueView::Enum8(_, x) => Some(int_bytes(x as int, 1)),
        ValueView::Int16(x) => Some(int_bytes(x as int, 2)),
        ValueView::Enum16(_, x) => Some(int_bytes(x as int, 2)),
        ValueView::Int32(x) => Some(int_bytes(x as int, 4)),
        ValueView::Decimal32(_, x) => Some(int_bytes(x as int, 4)),
        ValueView::Int64(x) => Some(int_bytes(x as int, 8)),
        ValueView::Decimal64(_, x) => Some(int_bytes(x as int, 8)),
        ValueView::Int128(x) => Some(int_bytes(x as int, 16)),
        ValueView::Decimal128(_, x) => Some(int_bytes(x as int, 16)),
        ValueView::Int256(b) => Some(swapped(b)),
        ValueView::Decimal256(_, b) => Some(swapped(b)),
        ValueView::UInt8(x) => Some(le_bytes(x as nat, 1)),
        ValueView::UInt16(x) => Some(le_bytes(x as nat, 2)),
        ValueView::UInt32(x) => Some(le_bytes(x as nat, 4)),
        ValueView::UInt64(x) => Some(le_bytes(x as nat, 8)),
        ValueView::UInt128(x) => Some(le_bytes(x as nat, 16)),
        ValueView::UInt256(b) => Some(swapped(b)),
        ValueView::Float32(x) => Some(le_bytes(x as nat, 4)),
        ValueView::Float64(x) => Some(le_bytes(x as nat, 8)),
        ValueView::Uuid(n) => Some(
            le_bytes(n as nat / 0x1_0000_0000_0000_0000, 8) + le_bytes(
                n as nat % 0x1_0000_0000_0000_0000,
                8,
            ),
        ),
        ValueView::Date(x) => Some(le_bytes(x as nat, 2)),
        ValueView::Date32(x) => Some(int_bytes(x as int, 4)),
        ValueView::DateTime(_, x) => Some(le_bytes(x as nat, 4)),
        ValueView::DateTime64(_, x, _) => Some(le_bytes(x as nat, 8)),
        ValueView::Ipv4(x) => Some(le_bytes(x as nat, 4)),
        ValueView::Ipv6(b) => Some(b),
        _ => None,
    }
}

/// Appends the bytes of a number.
pub fn put_sized(out: &mut Vec<u8>, v: &Value) -> (r: Result<()>)
    ensures
        match r {
            Ok(()) => sized_bytes(v@) is Some && final(out)@ == old(out)@ + sized_bytes(v@)->0,
            Err(e) => sized_bytes(v@) is None && e == Error::SerializeError(
                WriteReason::UnsupportedValue,
            ) && final(out)@ == old(out)@,
        },
{
    match v {
        Value::Int8(x) => put_i8(out, *x),
        Value::Enum8(_, x) => put_i8(out, *x),
        Value::Int16(x) => put_i16_le(out, *x),
        Value::Enum16(_, x) => put_i16_le(out, *x),
        Value::Int32(x) => put_i32_le(out, *x),
        Value::Decimal32(_, x) => put_i32_le(out, *x),
        Value::Int64(x) => put_i64_le(out, *x),
        Value::Decimal64(_, x) => put_i64_le(out, *x),
        Value::Int128(x) => put_i128_le(out, *x),
        Value::Decimal128(_, x) => put_i128_le(out, *x),
        Value::Int256(x) => {
            let b = swap_endian_256(x.0);
            put_bytes(out, b.as_slice());
        },
        Value::Decimal256(_, x) => {
            let b = swap_endian_256(x.0);
            put_bytes(out, b.as_slice());
        },
        Value::UInt8(x) => put_u8(out, *x),
        Value::UInt16(x) => put_u16_le(out, *x),
        Value::UInt32(x) => put_u32_le(out, *x),
        Value::UInt64(x) => put_u64_le(out, *x),
        Value::UInt128(x) => put_u128_le(out, *x),
        Value::UInt256(x) => {
            let b = swap_endian_256(x.0);
            put_bytes(out, b.as_slice());
        },
        Value::Float32(x) => put_u32_le(out, *x),
        Value::Float64(x) => put_u64_le(out, *x),
        Value::Uuid(n) => {
            put_u64_le(out, (*n / 0x1_0000_0000_0000_0000) as u64);
            put_u64_le(out, (*n % 0x1_0000_0000_0000_0000) as u64);
        },
        Value::Date(x) => put_u16_le(out, x.0),
        Value::Date32(x) => put_i32_le(out, x.0),
        Value::DateTime(x) => put_u32_le(out, x.1),
        Value::DateTime64(x) => put_u64_le(out, x.1),
        Value::Ipv4(x) => put_u32_le(out, x.0),
        Value::Ipv6(x) => put_bytes(out, x.0.as_slice()),
        _ => return Err(Error::SerializeError(WriteReason::UnsupportedValue)),
    }
    assert(out@ =~= old(out)@ + sized_bytes(v@)->0);
    Ok(())
}

/// The bytes of a string in a column: cut or filled up with zeros where the type tells
/// a size, and else behind their length.
pub open spec fn emitted(t: TypeView, b: Seq<u8>) -> Seq<u8> {
    match t {
        TypeView::FixedSizedString(n) => if b.len() >= n {
            b.take(n as int)
        } else {
            b + zeros((n - b.len()) as nat)
        },
        _ => string_bytes(b),
    }
}

/// Appends the bytes of a string in a column.
fn emit_bytes(out: &mut Vec<u8>, t: &Type, b: &[u8])
    ensures
        final(out)@ == old(out)@ + emitted(t@, b@),
{
    if let Type::FixedSizedString(n) = t {
        if b.len() >= *n {
            put_bytes(out, vstd::slice::slice_subrange(b, 0, *n));
        } else {
            put_bytes(out, b);
            let mut k: usize = b.len();
            assert(out@ =~= old(out)@ + b@ + zeros(0));
            while k < *n
                invariant
                    b@.len() <= k <= *n,
                    out@ == old(out)@ + b@ + zeros((k - b@.len()) as nat),
                decreases *n - k,
            {
                out.push(0);
                assert(out@ =~= old(out)@ + b@ + zeros((k + 1 - b@.len()) as nat));
                k += 1;
            }
            assert(out@ =~= old(out)@ + emitted(t@, b@));
        }
    } else {
        put_string(out, b);
    }
}

/// The bytes that small integers stand for.
pub open spec fn bytes_of_items(s: Seq<ValueView>) -> core::result::Result<Seq<u8>, Error>
    decreases s.len(),
{
    if s.len() == 0 {
        Ok(Seq::empty())
    } else {
        let b = match s[0] {
            ValueView::UInt8(x) => Some(x),
            ValueView::Int8(x) => Some(x as u8),
            _ => None,
        };
        match b {
            None => Err(Error::SerializeError(WriteReason::NotAByte)),
            Some(x) => match bytes_of_items(s.skip(1)) {
                Err(e) => Err(e),
                Ok(rest) => Ok(seq![x] + rest),
            },
        }
    }
}

fn collect_bytes(items: &Vec<Value>) -> (r: Result<Vec<u8>>)
    ensures
        match r {
            Ok(b) => bytes_of_items(value_views(items@)) == Ok::<_, Error>(b@),
            Err(e) => bytes_of_items(value_views(items@)) == Err::<Seq<u8>, _>(e),
        },
{
    let ghost all = value_views(items@);
    let mut out: Vec<u8> = Vec::new();
    let mut i: usize = 0;
    proof {
        assert(all.skip(0) =~= all);
        if let Ok(b) = bytes_of_items(all) {
            assert(out@ + b =~= b);
        }
    }
    while i < items.len()
        invariant
            i <= items.len(),
            all == value_views(items@),
            bytes_of_items(all) == match bytes_of_items(all.skip(i as int)) {
                Err(e) => Err(e),
                Ok(rest) => Ok(out@ + rest),
            },
        decreases items.len() - i,
    {
        let ghost head = out@;
        proof {
            assert(all.skip(i as int)[0] == items@[i as int]@);
            assert(all.skip(i as int).skip(1) =~= all.skip(i + 1));
        }
        let x: u8 = match &items[i] {
            Value::UInt8(x) => *x,
            Value::Int8(x) => *x as u8,
            _ => return Err(Error::SerializeError(WriteReason::NotAByte)),
        };
        out.push(x);
        proof {
            if let Ok(rest) = bytes_of_items(all.skip(i + 1)) {
                assert(head + (seq![x] + rest) =~= out@ + rest);
            }
        }
        i += 1;
    }
    assert(out@ + Seq::<u8>::empty() =~= out@);
    Ok(out)
}

/// The bytes of one cell of a column.
pub open spec fn cell_bytes(t: TypeView, v: ValueView) -> core::result::Result<Seq<u8>, Error> {
    let x = justified(v, t);
    if is_sized(t) {
        match sized_bytes(x) {
            Some(b) => Ok(b),
            None => Err(Error::SerializeError(WriteReason::UnsupportedValue)),
        }
    } else if t is Object {
        match x {
            ValueView::Object(b) => Ok(string_bytes(b)),
            ValueView::Json(j) => Ok(string_bytes(document_text(j))),
            _ => Err(Error::SerializeError(WriteReason::UnsupportedValue)),
        }
    } else {
        match x {
            ValueView::String(b) => Ok(emitted(t, b)),
            ValueView::Array(s) => match bytes_of_items(s) {
                Err(e) => Err(e),
                Ok(b) => Ok(emitted(t, b)),
            },
            _ => Err(Error::SerializeError(WriteReason::UnsupportedValue)),
        }
    }
}

/// The bytes of the cells of a column, one behind the other.
pub open spec fn cells_bytes(t: TypeView, vs: Seq<ValueView>) -> core::result::Result<
    Seq<u8>,
    Error,
>
    decreases vs.len(),
{
    if vs.len() == 0 {
        Ok(Seq::empty())
    } else {
        match cell_bytes(t, vs[0]) {
            Err(e) => Err(e),
            Ok(a) => match cells_bytes(t, vs.skip(1)) {
                Err(e) => Err(e),
                Ok(b) => Ok(a + b),
            },
        }
    }
}

fn put_plain_cell(out: &mut Vec<u8>, t: &Type, v: &Value) -> (r: Result<()>)
    requires
        is_cell_type(t@),
        justified(v@, t@) == v@,
    ensures
        match r {
            Ok(()) => cell_bytes(t@, v@) is Ok && final(out)@ == old(out)@ + cell_bytes(
                t@,
                v@,
            )->Ok_0,
            Err(e) => cell_bytes(t@, v@) == Err::<Seq<u8>, _>(e),
        },
{
    proof {
        v.lemma_view();
    }
    match t {
        Type::Object => match v {
            Value::Object(b) => {
                put_string(out, b);
                Ok(())
            },
            Value::Json(j) => {
                let text = j.to_text();
                put_string(out, &text);
                Ok(())
            },
            _ => Err(Error::SerializeError(WriteReason::UnsupportedValue)),
        },
        Type::String | Type::FixedSizedString(_) | Type::Binary | Type::FixedSizedBinary(_) => {
            match v {
                Value::String(b) => {
                    emit_bytes(out, t, b);
                    Ok(())
                },
                Value::Array(items) => match collect_bytes(items) {
                    Ok(b) => {
                        emit_bytes(out, t, &b);
                        Ok(())
                    },
                    Err(e) => Err(e),
                },
                _ => Err(Error::SerializeError(WriteReason::UnsupportedValue)),
            }
        },
        _ => put_sized(out, v),
    }
}

/// Appends one cell of a column. A null is written as the value that the type starts with.
pub fn put_cell(out: &mut Vec<u8>, t: &Type, v: &Value) -> (r: Result<()>)
    requires
        is_cell_type(t@),
    ensures
        match r {
            Ok(()) => cell_bytes(t@, v@) is Ok && final(out)@ == old(out)@ + cell_bytes(
                t@,
                v@,
            )->Ok_0,
            Err(e) => cell_bytes(t@, v@) == Err::<Seq<u8>, _>(e),
        },
{
    match v {
        Value::Null => {
            let x = t.default_value();
            assert(!(x@ is Null));
            put_plain_cell(out, t, &x)
        },
        _ => put_plain_cell(out, t, v),
    }
}

/// Appends the cells of a column.
pub fn put_cells(out: &mut Vec<u8>, t: &Type, values: &Vec<Value>) -> (r: Result<()>)
    requires
        is_cell_type(t@),
    ensures
        match r {
            Ok(()) => cells_bytes(t@, value_views(values@)) is Ok && final(out)@ == old(out)@
                + cells_bytes(t@, value_views(values@))->Ok_0,
            Err(e) => cells_bytes(t@, value_views(values@)) == Err::<Seq<u8>, _>(e),
        },
{
    let ghost all = value_views(values@);
    let mut i: usize = 0;
    proof {
        assert(all.skip(0) =~= all);
    }
    while i < values.len()
        invariant
            i <= values.len(),
            is_cell_type(t@),
            all == value_views(values@),
            match cells_bytes(t@, all.skip(i as int)) {
                Err(e) => cells_bytes(t@, all) == Err::<Seq<u8>, _>(e),
                Ok(rest) => cells_bytes(t@, all) is Ok && old(out)@ + cells_bytes(t@, all)->Ok_0
                    == out@ + rest,
            },
        decreases values.len() - i,
    {
        let ghost head = out@;
        proof {
            assert(all.skip(i as int)[0] == values@[i as int]@);
            assert(all.skip(i as int).skip(1) =~= all.skip(i + 1));
        }
        match put_cell(out, t, &values[i]) {
            Ok(()) => {},
            Err(e) => return Err(e),
        }
        proof {
            if let Ok(rest) = cells_bytes(t@, all.skip(i + 1)) {
                assert(head + (cell_bytes(t@, values@[i as int]@)->Ok_0 + rest) =~= out@ + rest);
            }
        }
        i += 1;
    }
    assert(out@ + Seq::<u8>::empty() =~= out@);
    Ok(())
}

// ---------------------------------------------------------------------------
// Reading
// ---------------------------------------------------------------------------

/// The name of the first option with a number.
pub open spec fn name8(options: Seq<(Seq<char>, i8)>, x: i8) -> Option<Seq<char>>
    decreases options.len(),
{
    if options.len() == 0 {
        None
    } else if options[0].1 == x {
        Some(options[0].0)
    } else {
        name8(options.skip(1), x)
    }
}

/// The name of the first option with a number.
pub open spec fn name16(options: Seq<(Seq<char>, i16)>, x: i16) -> Option<Seq<char>>
    decreases options.len(),
{
    if options.len() == 0 {
        None
    } else if options[0].1 == x {
        Some(options[0].0)
    } else {
        name16(options.skip(1), x)
    }
}

fn find_name8(options: &Vec<(String, i8)>, x: i8) -> (r: Option<String>)
    ensures
        match r {
            Some(s) => name8(options8(options@), x) == Some(s@),
            None => name8(options8(options@), x) is None,
        },
{
    let ghost all = options8(options@);
    let mut i: usize = 0;
    assert(all.skip(0) =~= all);
    while i < options.len()
        invariant
            i <= options.len(),
            all == options8(options@),
            name8(all, x) == name8(all.skip(i as int), x),
        decreases options.len() - i,
    {
        proof {
            assert(all.skip(i as int)[0] == (options@[i as int].0@, options@[i as int].1));
            assert(all.skip(i as int).skip(1) =~= all.skip(i + 1));
        }
        if options[i].1 == x {
            return Some(options[i].0.clone());
        }
        i += 1;
    }
    None
}

fn find_name16(options: &Vec<(String, i16)>, x: i16) -> (r: Option<String>)
    ensures
        match r {
            Some(s) => name16(options16(options@), x) == Some(s@),
            None => name16(options16(options@), x) is None,
        },
{
    let ghost all = options16(options@);
    let mut i: usize = 0;
    assert(all.skip(0) =~= all);
    while i < options.len()
        invariant
            i <= options.len(),
            all == options16(options@),
            name16(all, x) == name16(all.skip(i as int), x),
        decreases options.len() - i,
    {
        proof {
            assert(all.skip(i as int)[0] == (options@[i as int].0@, options@[i as int].1));
            assert(all.skip(i as int).skip(1) =~= all.skip(i + 1));
        }
        if options[i].1 == x {
            return Some(options[i].0.clone());
        }
        i += 1;
    }
    None
}

/// Bytes up to the first that is zero.
pub open spec fn until_zero(b: Seq<u8>) -> Seq<u8>
    decreases b.len(),
{
    if b.len() == 0 || b[0] == 0 {
        Seq::empty()
    } else {
        seq![b[0]] + until_zero(b.skip(1))
    }
}

fn cut_at_zero(b: &Vec<u8>) -> (r: Vec<u8>)
    ensures
        r@ == until_zero(b@),
{
    let mut out: Vec<u8> = Vec::new();
    let mut i: usize = 0;
    assert(b@.skip(0) =~= b@);
    assert(out@ + until_zero(b@) =~= until_zero(b@));
    while i < b.len() && b[i] != 0
        invariant
            i <= b.len(),
            until_zero(b@) == out@ + until_zero(b@.skip(i as int)),
        decreases b.len() - i,
    {
        proof {
            assert(b@.skip(i as int).skip(1) =~= b@.skip(i + 1));
            assert(out@ + (seq![b@[i as int]] + until_zero(b@.skip(i + 1))) =~= out@.push(
                b@[i as int],
            ) + until_zero(b@.skip(i + 1)));
        }
        out.push(b[i]);
        i += 1;
    }
    assert(out@ + Seq::<u8>::empty() =~= out@);
    out
}

/// Reads one cell of a column of numbers.
pub open spec fn parsed_sized(s: Seq<u8>, t: TypeView) -> Parsed<ValueView> {
    match t {
        TypeView::Int8 => match parsed_int(s, 1) {
            Err(e) => Err(e),
            Ok((x, end)) => Ok((ValueView::Int8(x as i8), end)),
        },
        TypeView::Int16 => match parsed_int(s, 2) {
            Err(e) => Err(e),
            Ok((x, end)) => Ok((ValueView::Int16(x as i16), end)),
        },
        TypeView::Int32 => match parsed_int(s, 4) {
            Err(e) => Err(e),
            Ok((x, end)) => Ok((ValueView::Int32(x as i32), end)),
        },
        TypeView::Int64 => match parsed_int(s, 8) {
            Err(e) => Err(e),
            Ok((x, end)) => Ok((ValueView::Int64(x as i64), end)),
        },
        TypeView::Int128 => match parsed_int(s, 16) {
            Err(e) => Err(e),
            Ok((x, end)) => Ok((ValueView::Int128(x as i128), end)),
        },
        TypeView::UInt8 => match parsed_uint(s, 1) {
            Err(e) => Err(e),
            Ok((x, end)) => Ok((ValueView::UInt8(x as u8), end)),
        },
        TypeView::UInt16 => match parsed_uint(s, 2) {
            Err(e) => Err(e),
            Ok((x, end)) => Ok((ValueView::UInt16(x as u16), end)),
        },
        TypeView::UInt32 => match parsed_uint(s, 4) {
            Err(e) => Err(e),
            Ok((x, end)) => Ok((ValueView::UInt32(x as u32), end)),
        },
        TypeView::UInt64 => match parsed_uint(s, 8) {
            Err(e) => Err(e),
            Ok((x, end)) => Ok((ValueView::UInt64(x as u64), end)),
        },
        TypeView::UInt128 => match parsed_uint(s, 16) {
            Err(e) => Err(e),
            Ok((x, end)) => Ok((ValueView::UInt128(x as u128), end)),
        },
        TypeView::Float32 => match parsed_uint(s, 4) {
            Err(e) => Err(e),
            Ok((x, end)) => Ok((ValueView::Float32(x as u32), end)),
        },
        TypeView::Float64 => match parsed_uint(s, 8) {
            Err(e) => Err(e),
            Ok((x, end)) => Ok((ValueView::Float64(x as u64), end)),
        },
        TypeView::Date => match parsed_uint(s, 2) {
            Err(e) => Err(e),
            Ok((x, end)) => Ok((ValueView::Date(x as u16), end)),
        },
        TypeView::Date32 => match parsed_int(s, 4) {
            Err(e) => Err(e),
            Ok((x, end)) => Ok((ValueView::Date32(x as i32), end)),
        },
        TypeView::Ipv4 => match parsed_uint(s, 4) {
            Err(e) => Err(e),
            Ok((x, end)) => Ok((ValueView::Ipv4(x as u32), end)),
        },
        TypeView::Decimal32(scale) => match parsed_int(s, 4) {
            Err(e) => Err(e),
            Ok((x, end)) => Ok((ValueView::Decimal32(scale, x as i32), end)),
        },
        TypeView::Decimal64(scale) => match parsed_int(s, 8) {
            Err(e) => Err(e),
            Ok((x, end)) => Ok((ValueView::Decimal64(scale, x as i64), end)),
        },
        TypeView::Decimal128(scale) => match parsed_int(s, 16) {
            Err(e) => Err(e),
            Ok((x, end)) => Ok((ValueView::Decimal128(scale, x as i128), end)),
        },
        TypeView::Int256 => match parsed_bytes(s, 32) {
            Err(e) => Err(e),
            Ok((b, end)) => Ok((ValueView::Int256(swapped(b)), end)),
        },
        TypeView::UInt256 => match parsed_bytes(s, 32) {
            Err(e) => Err(e),
            Ok((b, end)) => Ok((ValueView::UInt256(swapped(b)), end)),
        },
        TypeView::Decimal256(scale) => match parsed_bytes(s, 32) {
            Err(e) => Err(e),
            Ok((b, end)) => Ok((ValueView::Decimal256(scale, swapped(b)), end)),
        },
        TypeView::Uuid => match parsed_uint(s, 8) {
            Err(e) => Err(e),
            Ok((high, rest)) => match parsed_uint(rest, 8) {
                Err(e) => Err(e),
                Ok((low, end)) => Ok(
                    (ValueView::Uuid((high * 0x1_0000_0000_0000_0000 + low) as u128), end),
                ),
            },
        },
        TypeView::Ipv6 => match parsed_bytes(s, 16) {
            Err(e) => Err(e),
            Ok((b, end)) => Ok((ValueView::Ipv6(b), end)),
        },
        TypeView::DateTime(tz) => match parsed_uint(s, 4) {
            Err(e) => Err(e),
            Ok((x, end)) => Ok((ValueView::DateTime(tz, x as u32), end)),
        },
        TypeView::DateTime64(p, tz) => match parsed_uint(s, 8) {
            Err(e) => Err(e),
            Ok((x, end)) => Ok((ValueView::DateTime64(tz, x as u64, p), end)),
        },
        TypeView::Enum8(options) => match parsed_int(s, 1) {
            Err(e) => Err(e),
            Ok((x, end)) => match name8(options, x as i8) {
                None => Err(Error::DeserializeError(ReadReason::InvalidEnumIndex)),
                Some(name) => Ok((ValueView::Enum8(name, x as i8), end)),
            },
        },
        TypeView::Enum16(options) => match parsed_int(s, 2) {
            Err(e) => Err(e),
            Ok((x, end)) => match name16(options, x as i16) {
                None => Err(Error::DeserializeError(ReadReason::InvalidEnumIndex)),
                Some(name) => Ok((ValueView::Enum16(name, x as i16), end)),
            },
        },
        _ => Err(Error::DeserializeError(ReadReason::UnsupportedType)),
    }
}

/// Reads one cell of a column.
pub open spec fn parsed_cell(s: Seq<u8>, t: TypeView) -> Parsed<ValueView> {
    match t {
        TypeView::String => match parsed_string(s) {
            Err(e) => Err(e),
            Ok((b, end)) => Ok((ValueView::String(b), end)),
        },
        TypeView::Binary => match parsed_string(s) {
            Err(e) => Err(e),
            Ok((b, end)) => Ok((ValueView::String(b), end)),
        },
        TypeView::FixedSizedString(n) => match parsed_bytes(s, n as nat) {
            Err(e) => Err(e),
            Ok((b, end)) => Ok((ValueView::String(until_zero(b)), end)),
        },
        TypeView::FixedSizedBinary(n) => match parsed_bytes(s, n as nat) {
            Err(e) => Err(e),
            Ok((b, end)) => Ok((ValueView::String(until_zero(b)), end)),
        },
        TypeView::Object => match parsed_string(s) {
            Err(e) => Err(e),
            Ok((b, end)) => Ok((ValueView::Object(b), end)),
        },
        _ => parsed_sized(s, t),
    }
}

/// Reads `n` cells of a column.
pub open spec fn parsed_cells(s: Seq<u8>, t: TypeView, n: nat) -> Parsed<Seq<ValueView>>
    decreases n,
{
    if n == 0 {
        Ok((Seq::empty(), s))
    } else {
        match parsed_cell(s, t) {
            Err(e) => Err(e),
            Ok((v, next)) => match parsed_cells(next, t, (n - 1) as nat) {
                Err(e) => Err(e),
                Ok((vs, end)) => Ok((seq![v] + vs, end)),
            },
        }
    }
}

/// Reads one cell of a column of numbers.
#[verifier::spinoff_prover]
#[verifier::rlimit(100)]
pub fn get_sized(reader: &mut &[u8], t: &Type) -> (r: Result<Value>)
    ensures
        match r {
            Ok(v) => parsed_sized(old(reader)@, t@) == Ok::<_, Error>((v@, final(reader)@)),
            Err(e) => parsed_sized(old(reader)@, t@) == Err::<(ValueView, Seq<u8>), _>(e),
        },
{
    match t {
        Type::Int8 => match get_i8(reader) {
            Ok(x) => Ok(Value::Int8(x)),
            Err(e) => Err(e),
        },
        Type::Int16 => match get_i16_le(reader) {
            Ok(x) => Ok(Value::Int16(x)),
            Err(e) => Err(e),
        },
        Type::Int32 => match get_i32_le(reader) {
            Ok(x) => Ok(Value::Int32(x)),
            Err(e) => Err(e),
        },
        Type::Int64 => match get_i64_le(reader) {
            Ok(x) => Ok(Value::Int64(x)),
            Err(e) => Err(e),
        },
        Type::Int128 => match get_i128_le(reader) {
            Ok(x) => Ok(Value::Int128(x)),
            Err(e) => Err(e),
        },
        Type::UInt8 => match get_u8(reader) {
            Ok(x) => Ok(Value::UInt8(x)),
            Err(e) => Err(e),
        },
        Type::UInt16 => match get_u16_le(reader) {
            Ok(x) => Ok(Value::UInt16(x)),
            Err(e) => Err(e),
        },
        Type::UInt32 => match get_u32_le(reader) {
            Ok(x) => Ok(Value::UInt32(x)),
            Err(e) => Err(e),
        },
        Type::UInt64 => match get_u64_le(reader) {
            Ok(x) => Ok(Value::UInt64(x)),
            Err(e) => Err(e),
        },
        Type::UInt128 => match get_u128_le(reader) {
            Ok(x) => Ok(Value::UInt128(x)),
            Err(e) => Err(e),
        },
        Type::Float32 => match get_u32_le(reader) {
            Ok(x) => Ok(Value::Float32(x)),
            Err(e) => Err(e),
        },
        Type::Float64 => match get_u64_le(reader) {
            Ok(x) => Ok(Value::Float64(x)),
            Err(e) => Err(e),
        },
        Type::Date => match get_u16_le(reader) {
            Ok(x) => Ok(Value::Date(Date(x))),
            Err(e) => Err(e),
        },
        Type::Date32 => match get_i32_le(reader) {
            Ok(x) => Ok(Value::Date32(Date32(x))),
            Err(e) => Err(e),
        },
        Type::Ipv4 => match get_u32_le(reader) {
            Ok(x) => Ok(Value::Ipv4(Ipv4(x))),
            Err(e) => Err(e),
        },
        Type::Decimal32(s) => match get_i32_le(reader) {
            Ok(x) => Ok(Value::Decimal32(*s, x)),
            Err(e) => Err(e),
        },
        Type::Decimal64(s) => match get_i64_le(reader) {
            Ok(x) => Ok(Value::Decimal64(*s, x)),
            Err(e) => Err(e),
        },
        Type::Decimal128(s) => match get_i128_le(reader) {
            Ok(x) => Ok(Value::Decimal128(*s, x)),
            Err(e) => Err(e),
        },
        Type::Int256 => match get_bytes(reader, 32) {
            Ok(b) => Ok(Value::Int256(i256(swap_endian_256(array32(&b))))),
            Err(e) => Err(e),
        },
        Type::UInt256 => match get_bytes(reader, 32) {
            Ok(b) => Ok(Value::UInt256(u256(swap_endian_256(array32(&b))))),
            Err(e) => Err(e),
        },
        Type::Decimal256(s) => match get_bytes(reader, 32) {
            Ok(b) => Ok(Value::Decimal256(*s, i256(swap_endian_256(array32(&b))))),
            Err(e) => Err(e),
        },
        Type::Uuid => {
            let high: u64 = match get_u64_le(reader) {
                Ok(x) => x,
                Err(e) => return Err(e),
            };
            match get_u64_le(reader) {
                Ok(low) => Ok(Value::Uuid(high as u128 * 0x1_0000_0000_0000_0000 + low as u128)),
                Err(e) => Err(e),
            }
        },
        Type::Ipv6 => match get_bytes(reader, 16) {
            Ok(b) => Ok(Value::Ipv6(Ipv6(array16(&b)))),
            Err(e) => Err(e),
        },
        Type::DateTime(tz) => match get_u32_le(reader) {
            Ok(x) => Ok(Value::DateTime(DateTime(*tz, x))),
            Err(e) => Err(e),
        },
        Type::DateTime64(p, tz) => match get_u64_le(reader) {
            Ok(x) => Ok(Value::DateTime64(DynDateTime64(*tz, x, *p))),
            Err(e) => Err(e),
        },
        Type::Enum8(options) => match get_i8(reader) {
            Ok(x) => match find_name8(options, x) {
                Some(name) => Ok(Value::Enum8(name, x)),
                None => Err(Error::DeserializeError(ReadReason::InvalidEnumIndex)),
            },
            Err(e) => Err(e),
        },
        Type::Enum16(options) => match get_i16_le(reader) {
            Ok(x) => match find_name16(options, x) {
                Some(name) => Ok(Value::Enum16(name, x)),
                None => Err(Error::DeserializeError(ReadReason::InvalidEnumIndex)),
            },
            Err(e) => Err(e),
        },
        _ => Err(Error::DeserializeError(ReadReason::UnsupportedType)),
    }
}

/// Reads one cell of a column.
pub fn get_cell(reader: &mut &[u8], t: &Type) -> (r: Result<Value>)
    ensures
        match r {
            Ok(v) => parsed_cell(old(reader)@, t@) == Ok::<_, Error>((v@, final(reader)@)),
            Err(e) => parsed_cell(old(reader)@, t@) == Err::<(ValueView, Seq<u8>), _>(e),
        },
{
    match t {
        Type::String | Type::Binary => match read_string(reader) {
            Ok(b) => Ok(Value::String(b)),
            Err(e) => Err(e),
        },
        Type::FixedSizedString(n) | Type::FixedSizedBinary(n) => match get_bytes(reader, *n) {
            Ok(b) => Ok(Value::String(cut_at_zero(&b))),
            Err(e) => Err(e),
        },
        Type::Object => match read_string(reader) {
            Ok(b) => Ok(Value::Object(b)),
            Err(e) => Err(e),
        },
        _ => get_sized(reader, t),
    }
}

/// Reads `n` cells of a column.
pub fn get_cells(reader: &mut &[u8], t: &Type, n: usize) -> (r: Result<Vec<Value>>)
    ensures
        match r {
            Ok(v) => parsed_cells(old(reader)@, t@, n as nat) == Ok::<_, Error>(
                (value_views(v@), final(reader)@),
            ) && v@.len() == n,
            Err(e) => parsed_cells(old(reader)@, t@, n as nat) == Err::<
                (Seq<ValueView>, Seq<u8>),
                _,
            >(e),
        },
{
    let mut out: Vec<Value> = Vec::new();
    let mut i: usize = 0;
    proof {
        if let Ok((vs, _)) = parsed_cells(reader@, t@, n as nat) {
            assert(value_views(out@) + vs =~= vs);
        }
    }
    while i < n
        invariant
            i <= n,
            out@.len() == i,
            parsed_cells(old(reader)@, t@, n as nat) == crate::binary_value::values_before(
                value_views(out@),
                parsed_cells(reader@, t@, (n - i) as nat),
            ),
        decreases n - i,
    {
        let ghost head = value_views(out@);
        match get_cell(reader, t) {
            Err(e) => return Err(e),
            Ok(v) => {
                let ghost vv = v@;
                out.push(v);
                proof {
                    assert(value_views(out@) =~= head.push(vv));
                    if let Ok((vs, _)) = parsed_cells(reader@, t@, (n - i - 1) as nat) {
                        assert(head + (seq![vv] + vs) =~= value_views(out@) + vs);
                    }
                }
            },
        }
        i += 1;
    }
    assert(value_views(out@) + Seq::<ValueView>::empty() =~= value_views(out@));
    Ok(out)
}

} // verus!
