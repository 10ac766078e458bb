//! Laws of binary values: what is read is what was written.
use vstd::prelude::*;

use crate::binary_value::{
    all_binary, all_inferred, binary_data, binary_value, fields_binary, inferred,
    parsed_binary_value, parsed_fields, parsed_scalar, parsed_value, parsed_values,
};
use crate::error::Error;
use crate::type_encoding::{all_in_utc, encoded_type, fits_memory, in_utc, law_type_code_reads_back};
use crate::types::TypeView;
use crate::values::ValueView;
use crate::wire::{
    law_int_reads_back, law_string_reads_back, law_uint_reads_back, law_varuint_reads_back,
    le_bytes, lemma_pow256, varuint_bytes,
};

verus! {

/// The value as it is read back from a type: a time takes the zone and the precision
/// of the type, and the bytes of an integer of 256 bits come in the opposite order.
pub open spec fn as_typed(v: ValueView, t: TypeView) -> ValueView
    decreases v, t,
{
    match (v, t) {
        (ValueView::DateTime(_, n), TypeView::DateTime(tz)) => ValueView::DateTime(tz, n),
        (ValueView::DateTime64(_, n, _), TypeView::DateTime64(p, tz)) => ValueView::DateTime64(
            tz,
            n,
            p,
        ),
        (ValueView::Int256(b), TypeView::Int256) => ValueView::Int256(b.reverse()),
        (ValueView::UInt256(b), TypeView::UInt256) => ValueView::UInt256(b.reverse()),
        (ValueView::Array(s), TypeView::Array(inner)) => ValueView::Array(all_typed(s, *inner)),
        (ValueView::Tuple(s), TypeView::Tuple(ts)) => ValueView::Tuple(fields_typed(s, ts)),
        (ValueView::MapOf(k, s), TypeView::MapOf(kt, vt)) => ValueView::MapOf(
            all_typed(k, *kt),
            all_typed(s, *vt),
        ),
        (ValueView::Null, TypeView::Nullable(_)) => v,
        (_, TypeView::Nullable(inner)) => as_typed(v, *inner),
        _ => v,
    }
}

/// Values as they are read back from one type.
pub open spec fn all_typed(s: Seq<ValueView>, t: TypeView) -> Seq<ValueView>
    decreases s, t,
{
    if s.len() == 0 {
        Seq::empty()
    } else {
        seq![as_typed(s[0], t)] + all_typed(s.subrange(1, s.len() as int), t)
    }
}

/// Fields as they are read back from their types.
pub open spec fn fields_typed(s: Seq<ValueView>, ts: Seq<TypeView>) -> Seq<ValueView>
    decreases s, ts,
{
    if s.len() == 0 || ts.len() == 0 {
        Seq::empty()
    } else {
        seq![as_typed(s[0], ts[0])] + fields_typed(
            s.subrange(1, s.len() as int),
            ts.subrange(1, ts.len() as int),
        )
    }
}

/// What can be read back: every map has as many values as keys, nothing is longer than
/// memory, arrays of octets have their length, and no string is written as a
/// `FixedString`, which is read without a length.
pub open spec fn readable(v: ValueView, t: TypeView) -> bool
    decreases v, t,
{
    match (v, t) {
        (ValueView::String(b), TypeView::String) => b.len() <= usize::MAX,
        (ValueView::String(_), TypeView::FixedSizedString(_)) => false,
        (ValueView::Ipv6(b), TypeView::Ipv6) => b.len() == 16,
        (ValueView::Int256(b), TypeView::Int256) => b.len() == 32,
        (ValueView::UInt256(b), TypeView::UInt256) => b.len() == 32,
        (ValueView::Array(s), TypeView::Array(inner)) => s.len() <= usize::MAX && all_readable(
            s,
            *inner,
        ),
        (ValueView::Tuple(s), TypeView::Tuple(ts)) => fields_readable(s, ts),
        (ValueView::MapOf(k, s), TypeView::MapOf(kt, vt)) => {
            &&& k.len() == s.len()
            &&& k.len() <= usize::MAX
            &&& all_readable(k, *kt)
            &&& all_readable(s, *vt)
        },
        (ValueView::Null, TypeView::Nullable(_)) => true,
        (_, TypeView::Nullable(inner)) => readable(v, *inner),
        _ => true,
    }
}

/// All values can be read back from one type.
pub open spec fn all_readable(s: Seq<ValueView>, t: TypeView) -> bool
    decreases s, t,
{
    s.len() == 0 || (readable(s[0], t) && all_readable(s.subrange(1, s.len() as int), t))
}

/// All fields can be read back from their types.
pub open spec fn fields_readable(s: Seq<ValueView>, ts: Seq<TypeView>) -> bool
    decreases s, ts,
{
    s.len() == 0 || ts.len() == 0 || (readable(s[0], ts[0]) && fields_readable(
        s.subrange(1, s.len() as int),
        ts.subrange(1, ts.len() as int),
    ))
}

proof fn lemma_scalar_reads_back(v: ValueView, t: TypeView, rest: Seq<u8>)
    requires
        binary_data(v, t) is Some,
        readable(v, t),
        !(t is Array),
        !(t is Tuple),
        !(t is MapOf),
        !(t is Nullable),
    ensures
        parsed_scalar(binary_data(v, t)->0 + rest, t) == Ok::<_, Error>((as_typed(v, t), rest)),
{
    lemma_pow256();
    let b = binary_data(v, t)->0;
    match v {
        ValueView::Bool(x) => {
            let n: nat = if x {
                1
            } else {
                0
            };
            law_uint_reads_back(n, 1, rest);
            reveal_with_fuel(le_bytes, 2);
            assert(b =~= le_bytes(n, 1));
        },
        ValueView::UInt8(x) => law_uint_reads_back(x as nat, 1, rest),
        ValueView::UInt16(x) => law_uint_reads_back(x as nat, 2, rest),
        ValueView::UInt32(x) => law_uint_reads_back(x as nat, 4, rest),
        ValueView::UInt64(x) => law_uint_reads_back(x as nat, 8, rest),
        ValueView::UInt128(x) => law_uint_reads_back(x as nat, 16, rest),
        ValueView::Float32(x) => law_uint_reads_back(x as nat, 4, rest),
        ValueView::Float64(x) => law_uint_reads_back(x as nat, 8, rest),
        ValueView::Int8(x) => law_int_reads_back(x as int, 1, rest),
        ValueView::Int16(x) => law_int_reads_back(x as int, 2, rest),
        ValueView::Int32(x) => law_int_reads_back(x as int, 4, rest),
        ValueView::Int64(x) => law_int_reads_back(x as int, 8, rest),
        ValueView::Int128(x) => law_int_reads_back(x as int, 16, rest),
        ValueView::Date(x) => law_uint_reads_back(x as nat, 2, rest),
        ValueView::Date32(x) => law_int_reads_back(x as int, 4, rest),
        ValueView::DateTime(_, x) => law_uint_reads_back(x as nat, 4, rest),
        ValueView::DateTime64(_, x, _) => law_uint_reads_back(x as nat, 8, rest),
        ValueView::Ipv4(x) => law_uint_reads_back(x as nat, 4, rest),
        ValueView::String(x) => law_string_reads_back(x, rest),
        ValueView::Uuid(n) => {
            let low = n as nat % 0x1_0000_0000_0000_0000;
            let high = n as nat / 0x1_0000_0000_0000_0000;
            let second = le_bytes(high, 8) + rest;
            assert(b + rest =~= le_bytes(low, 8) + second);
            law_uint_reads_back(low, 8, second);
            law_uint_reads_back(high, 8, rest);
        },
        ValueView::Int256(x) => {
            assert((b + rest).take(32) =~= b);
            assert((b + rest).skip(32) =~= rest);
        },
        ValueView::UInt256(x) => {
            assert((b + rest).take(32) =~= b);
            assert((b + rest).skip(32) =~= rest);
        },
        ValueView::Ipv6(x) => {
            assert((b + rest).take(16) =~= b);
            assert((b + rest).skip(16) =~= rest);
        },
        ValueView::Null => {
            assert(b + rest =~= rest);
        },
        _ => {},
    }
}

/// A value that was written as a type is read back from it.
pub proof fn law_data_reads_back(v: ValueView, t: TypeView, rest: Seq<u8>)
    requires
        binary_data(v, t) is Some,
        readable(v, t),
    ensures
        parsed_value(binary_data(v, t)->0 + rest, t) == Ok::<_, Error>((as_typed(v, t), rest)),
    decreases v, t,
{
    let b = binary_data(v, t)->0;
    match t {
        TypeView::Array(inner) => {
            let s = v->Array_0;
            let items = all_binary(s, *inner)->0 + rest;
            assert(b + rest =~= varuint_bytes(s.len()) + items);
            law_varuint_reads_back(s.len() as u64, items);
            lemma_all_read_back(s, *inner, rest);
        },
        TypeView::Tuple(ts) => {
            lemma_fields_read_back(v->Tuple_0, ts, rest);
        },
        TypeView::MapOf(kt, vt) => {
            let k = v->MapOf_0;
            let s = v->MapOf_1;
            let second = all_binary(s, *vt)->0 + rest;
            let first = all_binary(k, *kt)->0 + second;
            assert(b + rest =~= varuint_bytes(k.len()) + first);
            law_varuint_reads_back(k.len() as u64, first);
            lemma_all_read_back(k, *kt, second);
            lemma_all_read_back(s, *vt, rest);
        },
        TypeView::Nullable(inner) => {
            lemma_pow256();
            reveal_with_fuel(le_bytes, 2);
            if v is Null {
                law_uint_reads_back(1, 1, rest);
                assert(b =~= le_bytes(1, 1));
            } else {
                let data = binary_data(v, *inner)->0 + rest;
                assert(b + rest =~= le_bytes(0, 1) + data);
                law_uint_reads_back(0, 1, data);
                law_data_reads_back(v, *inner, rest);
            }
        },
        _ => lemma_scalar_reads_back(v, t, rest),
    }
}

proof fn lemma_all_read_back(s: Seq<ValueView>, t: TypeView, rest: Seq<u8>)
    requires
        all_binary(s, t) is Some,
        all_readable(s, t),
    ensures
        parsed_values(all_binary(s, t)->0 + rest, t, s.len()) == Ok::<_, Error>(
            (all_typed(s, t), rest),
        ),
    decreases s, t,
{
    if s.len() == 0 {
        assert(all_binary(s, t)->0 + rest =~= rest);
    } else {
        let tail = s.subrange(1, s.len() as int);
        let next = all_binary(tail, t)->0 + rest;
        assert(all_binary(s, t)->0 + rest =~= binary_data(s[0], t)->0 + next);
        law_data_reads_back(s[0], t, next);
        lemma_all_read_back(tail, t, rest);
    }
}

proof fn lemma_fields_read_back(s: Seq<ValueView>, ts: Seq<TypeView>, rest: Seq<u8>)
    requires
        fields_binary(s, ts) is Some,
        fields_readable(s, ts),
        s.len() == ts.len(),
    ensures
        parsed_fields(fields_binary(s, ts)->0 + rest, ts) == Ok::<_, Error>(
            (fields_typed(s, ts), rest),
        ),
    decreases s, ts,
{
    if s.len() == 0 {
        assert(fields_binary(s, ts)->0 + rest =~= rest);
    } else {
        let tail = s.subrange(1, s.len() as int);
        let tailt = ts.subrange(1, ts.len() as int);
        let next = fields_binary(tail, tailt)->0 + rest;
        assert(fields_binary(s, ts)->0 + rest =~= binary_data(s[0], ts[0])->0 + next);
        law_data_reads_back(s[0], ts[0], next);
        lemma_fields_read_back(tail, tailt, rest);
    }
}

proof fn lemma_inferred_in_utc(v: ValueView)
    requires
        inferred(v) is Some,
    ensures
        in_utc(inferred(v)->0) == inferred(v)->0,
    decreases v,
{
    match v {
        ValueView::Array(s) => {
            if s.len() > 0 {
                lemma_inferred_in_utc(s[0]);
            } else {
                assert(in_utc(TypeView::Nothing) == TypeView::Nothing);
            }
        },
        ValueView::Tuple(s) => {
            lemma_all_inferred_in_utc(s);
        },
        ValueView::MapOf(k, s) => {
            if k.len() > 0 {
                lemma_inferred_in_utc(k[0]);
                lemma_inferred_in_utc(s[0]);
            } else {
                assert(in_utc(TypeView::Nothing) == TypeView::Nothing);
            }
        },
        _ => {},
    }
}

proof fn lemma_all_inferred_in_utc(s: Seq<ValueView>)
    requires
        all_inferred(s) is Some,
    ensures
        all_in_utc(all_inferred(s)->0) == all_inferred(s)->0,
    decreases s,
{
    if s.len() > 0 {
        lemma_inferred_in_utc(s[0]);
        let tail = s.subrange(1, s.len() as int);
        lemma_all_inferred_in_utc(tail);
        let ts = all_inferred(s)->0;
        assert(ts.subrange(1, ts.len() as int) =~= all_inferred(tail)->0);
    }
}

/// A value that was written behind its type is read back, as the type has it.
pub proof fn law_binary_value_reads_back(v: ValueView, rest: Seq<u8>)
    requires
        binary_value(v) is Some,
        readable(v, inferred(v)->0),
        fits_memory(inferred(v)->0),
    ensures
        parsed_binary_value(binary_value(v)->0 + rest) == Ok::<_, Error>(
            (as_typed(v, inferred(v)->0), rest),
        ),
{
    let t = inferred(v)->0;
    let data = binary_data(v, t)->0 + rest;
    assert(binary_value(v)->0 + rest =~= encoded_type(t)->0 + data);
    law_type_code_reads_back(t, data);
    lemma_inferred_in_utc(v);
    law_data_reads_back(v, t, rest);
}

/// A value without times and without integers of 256 bits.
pub open spec fn is_plain(v: ValueView) -> bool
    decreases v,
{
    match v {
        ValueView::DateTime(_, _) => false,
        ValueView::DateTime64(_, _, _) => false,
        ValueView::Int256(_) => false,
        ValueView::UInt256(_) => false,
        ValueView::Array(s) => all_plain(s),
        ValueView::Tuple(s) => all_plain(s),
        ValueView::MapOf(k, s) => all_plain(k) && all_plain(s),
        _ => true,
    }
}

/// Values without times and without integers of 256 bits.
pub open spec fn all_plain(s: Seq<ValueView>) -> bool
    decreases s,
{
    s.len() == 0 || (is_plain(s[0]) && all_plain(s.subrange(1, s.len() as int)))
}

/// A value without times and integers of 256 bits is read back unchanged.
pub proof fn law_plain_value_reads_back(v: ValueView, rest: Seq<u8>)
    requires
        binary_value(v) is Some,
        readable(v, inferred(v)->0),
        fits_memory(inferred(v)->0),
        is_plain(v),
    ensures
        parsed_binary_value(binary_value(v)->0 + rest) == Ok::<_, Error>((v, rest)),
{
    law_binary_value_reads_back(v, rest);
    lemma_plain_as_typed(v, inferred(v)->0);
}

proof fn lemma_plain_as_typed(v: ValueView, t: TypeView)
    requires
        is_plain(v),
        binary_data(v, t) is Some,
    ensures
        as_typed(v, t) == v,
    decreases v, t,
{
    match (v, t) {
        (ValueView::Array(s), TypeView::Array(inner)) => lemma_all_plain_as_typed(s, *inner),
        (ValueView::Tuple(s), TypeView::Tuple(ts)) => lemma_fields_plain_as_typed(s, ts),
        (ValueView::MapOf(k, s), TypeView::MapOf(kt, vt)) => {
            lemma_all_plain_as_typed(k, *kt);
            lemma_all_plain_as_typed(s, *vt);
        },
        (ValueView::Null, TypeView::Nullable(_)) => {},
        (_, TypeView::Nullable(inner)) => lemma_plain_as_typed(v, *inner),
        _ => {},
    }
}

proof fn lemma_all_plain_as_typed(s: Seq<ValueView>, t: TypeView)
    requires
        all_plain(s),
        all_binary(s, t) is Some,
    ensures
        all_typed(s, t) == s,
    decreases s, t,
{
    if s.len() > 0 {
        let tail = s.subrange(1, s.len() as int);
        lemma_plain_as_typed(s[0], t);
        lemma_all_plain_as_typed(tail, t);
        assert(seq![s[0]] + tail =~= s);
    } else {
        assert(all_typed(s, t) =~= s);
    }
}

proof fn lemma_fields_plain_as_typed(s: Seq<ValueView>, ts: Seq<TypeView>)
    requires
        all_plain(s),
        s.len() == ts.len(),
        fields_binary(s, ts) is Some,
    ensures
        fields_typed(s, ts) == s,
    decreases s, ts,
{
    if s.len() > 0 {
        let tail = s.subrange(1, s.len() as int);
        let tailt = ts.subrange(1, ts.len() as int);
        lemma_plain_as_typed(s[0], ts[0]);
        lemma_fields_plain_as_typed(tail, tailt);
        assert(seq![s[0]] + tail =~= s);
    } else {
        assert(fields_typed(s, ts) =~= s);
    }
}

} // verus!
