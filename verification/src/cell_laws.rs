//! Laws of cells: what is read is what was written.
use vstd::prelude::*;

use crate::cells::{
    cell_bytes, cells_bytes, emitted, is_cell_type, name16, name8, parsed_cell, parsed_cells,
    parsed_sized, sized_bytes, swapped, until_zero,
};
use crate::error::Error;
use crate::guess::zeros;
use crate::types::TypeView;
use crate::values::ValueView;
use crate::wire::{
    law_int_reads_back, law_string_reads_back, law_uint_reads_back, le_bytes, lemma_pow256,
};

verus! {

/// Whether a number is a value of a type.
pub open spec fn sized_fits(v: ValueView, t: TypeView) -> bool {
    match (v, t) {
        (ValueView::Int8(_), TypeView::Int8) => true,
        (ValueView::Int16(_), TypeView::Int16) => true,
        (ValueView::Int32(_), TypeView::Int32) => true,
        (ValueView::Int64(_), TypeView::Int64) => true,
        (ValueView::Int128(_), TypeView::Int128) => true,
        (ValueView::UInt8(_), TypeView::UInt8) => true,
        (ValueView::UInt16(_), TypeView::UInt16) => true,
        (ValueView::UInt32(_), TypeView::UInt32) => true,
        (ValueView::UInt64(_), TypeView::UInt64) => true,
        (ValueView::UInt128(_), TypeView::UInt128) => true,
        (ValueView::Float32(_), TypeView::Float32) => true,
        (ValueView::Float64(_), TypeView::Float64) => true,
        (ValueView::Uuid(_), TypeView::Uuid) => true,
        (ValueView::Date(_), TypeView::Date) => true,
        (ValueView::Date32(_), TypeView::Date32) => true,
        (ValueView::Ipv4(_), TypeView::Ipv4) => true,
        (ValueView::Int256(b), TypeView::Int256) => b.len() == 32,
        (ValueView::UInt256(b), TypeView::UInt256) => b.len() == 32,
        (ValueView::Decimal32(s, _), TypeView::Decimal32(scale)) => s == scale,
        (ValueView::Decimal64(s, _), TypeView::Decimal64(scale)) => s == scale,
        (ValueView::Decimal128(s, _), TypeView::Decimal128(scale)) => s == scale,
        (ValueView::Decimal256(s, b), TypeView::Decimal256(scale)) => s == scale && b.len() == 32,
        (ValueView::Ipv6(b), TypeView::Ipv6) => b.len() == 16,
        (ValueView::DateTime(zone, _), TypeView::DateTime(tz)) => zone == tz,
        (ValueView::DateTime64(zone, _, q), TypeView::DateTime64(p, tz)) => zone == tz && q == p,
        (ValueView::Enum8(name, x), TypeView::Enum8(options)) => name8(options, x) == Some(name),
        (ValueView::Enum16(name, x), TypeView::Enum16(options)) => name16(options, x) == Some(name),
        _ => false,
    }
}

/// Whether a value is one of a type that takes one cell. A string of a fixed size is
/// filled up with zeros, so it holds none itself.
pub open spec fn cell_fits(v: ValueView, t: TypeView) -> bool {
    match (v, t) {
        (ValueView::String(b), TypeView::String) => b.len() <= usize::MAX,
        (ValueView::String(b), TypeView::Binary) => b.len() <= usize::MAX,
        (ValueView::String(b), TypeView::FixedSizedString(n)) => b.len() <= n && forall|i: int|
            0 <= i < b.len() ==> (#[trigger] b[i]) != 0,
        (ValueView::Object(b), TypeView::Object) => b.len() <= usize::MAX,
        _ => sized_fits(v, t),
    }
}

proof fn lemma_sized_reads_back(v: ValueView, t: TypeView, rest: Seq<u8>)
    requires
        sized_fits(v, t),
    ensures
        sized_bytes(v) is Some,
        parsed_sized(sized_bytes(v)->0 + rest, t) == Ok::<_, Error>((v, rest)),
{
    lemma_pow256();
    let b = sized_bytes(v)->0;
    match v {
        ValueView::Int8(x) => law_int_reads_back(x as int, 1, rest),
        ValueView::Int16(x) => law_int_reads_back(x as int, 2, rest),
        ValueView::Int32(x) => law_int_reads_back(x as int, 4, rest),
        ValueView::Int64(x) => law_int_reads_back(x as int, 8, rest),
        ValueView::Int128(x) => law_int_reads_back(x as int, 16, rest),
        ValueView::Date32(x) => law_int_reads_back(x as int, 4, rest),
        ValueView::Decimal32(_, x) => law_int_reads_back(x as int, 4, rest),
        ValueView::Decimal64(_, x) => law_int_reads_back(x as int, 8, rest),
        ValueView::Decimal128(_, x) => law_int_reads_back(x as int, 16, rest),
        ValueView::UInt8(x) => law_uint_reads_back(x as nat, 1, rest),
        ValueView::UInt16(x) => law_uint_reads_back(x as nat, 2, rest),
        ValueView::UInt32(x) => law_uint_reads_back(x as nat, 4, rest),
        ValueView::UInt64(x) => law_uint_reads_back(x as nat, 8, rest),
        ValueView::UInt128(x) => law_uint_reads_back(x as nat, 16, rest),
        ValueView::Float32(x) => law_uint_reads_back(x as nat, 4, rest),
        ValueView::Float64(x) => law_uint_reads_back(x as nat, 8, rest),
        ValueView::Date(x) => law_uint_reads_back(x as nat, 2, rest),
        ValueView::Ipv4(x) => law_uint_reads_back(x as nat, 4, rest),
        ValueView::DateTime(_, x) => law_uint_reads_back(x as nat, 4, rest),
        ValueView::DateTime64(_, x, _) => law_uint_reads_back(x as nat, 8, rest),
        ValueView::Enum8(_, x) => law_int_reads_back(x as int, 1, rest),
        ValueView::Enum16(_, x) => law_int_reads_back(x as int, 2, rest),
        ValueView::Uuid(n) => {
            let low = n as nat % 0x1_0000_0000_0000_0000;
            let high = n as nat / 0x1_0000_0000_0000_0000;
            let second = le_bytes(low, 8) + rest;
            assert(b + rest =~= le_bytes(high, 8) + second);
            law_uint_reads_back(high, 8, second);
            law_uint_reads_back(low, 8, rest);
        },
        ValueView::Int256(x) => {
            assert((b + rest).take(32) =~= b);
            assert((b + rest).skip(32) =~= rest);
            assert(swapped(swapped(x)) =~= x);
        },
        ValueView::UInt256(x) => {
            assert((b + rest).take(32) =~= b);
            assert((b + rest).skip(32) =~= rest);
            assert(swapped(swapped(x)) =~= x);
        },
        ValueView::Decimal256(_, x) => {
            assert((b + rest).take(32) =~= b);
            assert((b + rest).skip(32) =~= rest);
            assert(swapped(swapped(x)) =~= x);
        },
        ValueView::Ipv6(x) => {
            assert((b + rest).take(16) =~= b);
            assert((b + rest).skip(16) =~= rest);
        },
        _ => {},
    }
}

proof fn lemma_until_zero(b: Seq<u8>, n: nat)
    requires
        forall|i: int| 0 <= i < b.len() ==> (#[trigger] b[i]) != 0,
    ensures
        until_zero(b + zeros(n)) == b,
    decreases b.len(),
{
    if b.len() == 0 {
        assert(b + zeros(n) =~= zeros(n));
        assert(until_zero(zeros(n)) =~= b);
    } else {
        let tail = b.skip(1);
        assert forall|i: int| 0 <= i < tail.len() implies (#[trigger] tail[i]) != 0 by {
            assert(tail[i] == b[i + 1]);
        }
        lemma_until_zero(tail, n);
        assert((b + zeros(n)).skip(1) =~= tail + zeros(n));
        assert((b + zeros(n))[0] == b[0]);
        assert(seq![b[0]] + tail =~= b);
    }
}

/// A cell that was written is read back.
pub proof fn law_cell_reads_back(v: ValueView, t: TypeView, rest: Seq<u8>)
    requires
        cell_fits(v, t),
    ensures
        is_cell_type(t),
        cell_bytes(t, v) is Ok,
        parsed_cell(cell_bytes(t, v)->Ok_0 + rest, t) == Ok::<_, Error>((v, rest)),
{
    match t {
        TypeView::String => law_string_reads_back(v->String_0, rest),
        TypeView::Binary => law_string_reads_back(v->String_0, rest),
        TypeView::Object => law_string_reads_back(v->Object_0, rest),
        TypeView::FixedSizedString(n) => {
            let b = v->String_0;
            let pad = zeros((n - b.len()) as nat);
            lemma_until_zero(b, (n - b.len()) as nat);
            assert(emitted(t, b) =~= b + pad);
            assert((emitted(t, b) + rest).take(n as int) =~= b + pad);
            assert((emitted(t, b) + rest).skip(n as int) =~= rest);
        },
        _ => lemma_sized_reads_back(v, t, rest),
    }
}

/// Cells that were written are read back.
pub proof fn law_cells_read_back(vs: Seq<ValueView>, t: TypeView, rest: Seq<u8>)
    requires
        forall|i: int| 0 <= i < vs.len() ==> cell_fits(#[trigger] vs[i], t),
    ensures
        cells_bytes(t, vs) is Ok,
        parsed_cells(cells_bytes(t, vs)->Ok_0 + rest, t, vs.len()) == Ok::<_, Error>((vs, rest)),
    decreases vs.len(),
{
    if vs.len() == 0 {
        assert(cells_bytes(t, vs)->Ok_0 + rest =~= rest);
        assert(vs =~= Seq::empty());
    } else {
        let tail = vs.skip(1);
        assert forall|i: int| 0 <= i < tail.len() implies cell_fits(#[trigger] tail[i], t) by {
            assert(tail[i] == vs[i + 1]);
        }
        assert(cell_fits(vs[0], t));
        law_cells_read_back(tail, t, rest);
        let next = cells_bytes(t, tail)->Ok_0 + rest;
        law_cell_reads_back(vs[0], t, next);
        assert(cells_bytes(t, vs)->Ok_0 + rest =~= cell_bytes(t, vs[0])->Ok_0 + next);
        assert(seq![vs[0]] + tail =~= vs);
    }
}

} // verus!
