//! Sparse columns: the values that differ from the default, and how many defaults
//! stand between them.
use vstd::prelude::*;

use crate::cell_laws::{law_cells_read_back, sized_fits};
use crate::cells::{
    cells_bytes, get_cells, is_sized, parsed_cells, put_sized, sized_bytes,
};
use crate::error::{Error, ReadReason, Result, WriteReason};
use crate::guess::{default_of, justified};
use crate::types::{stripped, Type, TypeView};
use crate::values::{value_views, Value, ValueView};
use crate::wire::{
    law_varuint_reads_back, parsed_varuint, put_var_uint, read_varuint, varuint_bytes, Parsed,
};

verus! {

/// The bit that marks the last group of a granule.
pub const END_OF_GRANULE_FLAG: u64 = 0x4000_0000_0000_0000;

// ---------------------------------------------------------------------------
// Writing
// ---------------------------------------------------------------------------

/// Bytes that are all zero.
pub open spec fn is_zero(b: Seq<u8>) -> bool {
    forall|i: int| 0 <= i < b.len() ==> (#[trigger] b[i]) == 0
}

/// Whether a value is left out of a sparse column.
pub open spec fn is_default(t: TypeView, v: ValueView) -> bool {
    match (stripped(t), v) {
        (TypeView::Float32, ValueView::Float32(x)) => x == 0,
        (TypeView::Float64, ValueView::Float64(x)) => x == 0,
        (TypeView::Int8, ValueView::Int8(x)) => x == 0,
        (TypeView::Int16, ValueView::Int16(x)) => x == 0,
        (TypeView::Int32, ValueView::Int32(x)) => x == 0,
        (TypeView::Int64, ValueView::Int64(x)) => x == 0,
        (TypeView::UInt8, ValueView::UInt8(x)) => x == 0,
        (TypeView::UInt16, ValueView::UInt16(x)) => x == 0,
        (TypeView::UInt32, ValueView::UInt32(x)) => x == 0,
        (TypeView::UInt64, ValueView::UInt64(x)) => x == 0,
        (TypeView::Date, ValueView::Date(x)) => x == 0,
        (TypeView::Date32, ValueView::Date32(x)) => x == 0,
        (TypeView::DateTime(_), ValueView::DateTime(_, x)) => x == 0,
        (TypeView::DateTime64(_, _), ValueView::DateTime64(_, x, _)) => x == 0,
        (TypeView::Ipv4, ValueView::Ipv4(x)) => x == 0,
        (TypeView::Ipv6, ValueView::Ipv6(b)) => is_zero(b),
        _ => false,
    }
}

fn all_zero(b: &[u8]) -> (r: bool)
    ensures
        r == is_zero(b@),
{
    let mut i: usize = 0;
    while i < b.len()
        invariant
            i <= b.len(),
            forall|j: int| 0 <= j < i ==> (#[trigger] b@[j]) == 0,
        decreases b.len() - i,
    {
        if b[i] != 0 {
            return false;
        }
        i += 1;
    }
    true
}

fn leaves_out(t: &Type, v: &Value) -> (r: bool)
    ensures
        r == is_default(t@, v@),
{
    match (t.strip_null(), v) {
        (Type::Float32, Value::Float32(x)) => *x == 0,
        (Type::Float64, Value::Float64(x)) => *x == 0,
        (Type::Int8, Value::Int8(x)) => *x == 0,
        (Type::Int16, Value::Int16(x)) => *x == 0,
        (Type::Int32, Value::Int32(x)) => *x == 0,
        (Type::Int64, Value::Int64(x)) => *x == 0,
        (Type::UInt8, Value::UInt8(x)) => *x == 0,
        (Type::UInt16, Value::UInt16(x)) => *x == 0,
        (Type::UInt32, Value::UInt32(x)) => *x == 0,
        (Type::UInt64, Value::UInt64(x)) => *x == 0,
        (Type::Date, Value::Date(x)) => x.0 == 0,
        (Type::Date32, Value::Date32(x)) => x.0 == 0,
        (Type::DateTime(_), Value::DateTime(x)) => x.1 == 0,
        (Type::DateTime64(_, _), Value::DateTime64(x)) => x.1 == 0,
        (Type::Ipv4, Value::Ipv4(x)) => x.0 == 0,
        (Type::Ipv6, Value::Ipv6(x)) => all_zero(x.0.as_slice()),
        _ => false,
    }
}

/// How many defaults stand before each value, and, marked, how many behind the last
/// one; `run` defaults have been passed already.
pub open spec fn group_bytes(t: TypeView, vs: Seq<ValueView>, run: nat) -> Seq<u8>
    decreases vs.len(),
{
    if vs.len() == 0 {
        varuint_bytes((run as u64 | END_OF_GRANULE_FLAG) as nat)
    } else if is_default(t, vs[0]) {
        group_bytes(t, vs.skip(1), run + 1)
    } else {
        varuint_bytes(run) + group_bytes(t, vs.skip(1), 0)
    }
}

/// Values that a sparse column can hold.
pub open spec fn is_sparse_value(v: ValueView) -> bool {
    match v {
        ValueView::Int128(_)
        | ValueView::Decimal128(_, _)
        | ValueView::Int256(_)
        | ValueView::Decimal256(_, _)
        | ValueView::UInt128(_)
        | ValueView::UInt256(_)
        | ValueView::Uuid(_) => false,
        _ => sized_bytes(v) is Some,
    }
}

/// The bytes of the values that are not left out.
pub open spec fn element_bytes(t: TypeView, vs: Seq<ValueView>) -> core::result::Result<
    Seq<u8>,
    Error,
>
    decreases vs.len(),
{
    if vs.len() == 0 {
        Ok(Seq::empty())
    } else if is_default(t, vs[0]) {
        element_bytes(t, vs.skip(1))
    } else if !is_sparse_value(justified(vs[0], t)) {
        Err(Error::SerializeError(WriteReason::UnsupportedValue))
    } else {
        match element_bytes(t, vs.skip(1)) {
            Err(e) => Err(e),
            Ok(b) => Ok(sized_bytes(justified(vs[0], t))->0 + b),
        }
    }
}

/// The bytes of a sparse column.
pub open spec fn sparse_bytes(t: TypeView, vs: Seq<ValueView>) -> core::result::Result<
    Seq<u8>,
    Error,
> {
    match element_bytes(t, vs) {
        Err(e) => Err(e),
        Ok(b) => Ok(group_bytes(t, vs, 0) + b),
    }
}

fn put_groups(out: &mut Vec<u8>, t: &Type, values: &Vec<Value>)
    ensures
        final(out)@ == old(out)@ + group_bytes(t@, value_views(values@), 0),
{
    let ghost all = value_views(values@);
    let mut run: usize = 0;
    let mut i: usize = 0;
    assert(all.skip(0) =~= all);
    while i < values.len()
        invariant
            run <= i <= values.len(),
            all == value_views(values@),
            out@ + group_bytes(t@, all.skip(i as int), run as nat) == old(out)@ + group_bytes(
                t@,
                all,
                0,
            ),
        decreases values.len() - i,
    {
        proof {
            assert(all.skip(i as int)[0] == values@[i as int]@);
            assert(all.skip(i as int).skip(1) =~= all.skip(i + 1));
        }
        if leaves_out(t, &values[i]) {
            run += 1;
        } else {
            let ghost head = out@;
            put_var_uint(out, run as u64);
            proof {
                let next = group_bytes(t@, all.skip(i + 1), 0);
                assert(head + (varuint_bytes(run as nat) + next) =~= out@ + next);
            }
            run = 0;
        }
        i += 1;
    }
    put_var_uint(out, run as u64 | END_OF_GRANULE_FLAG);
}

fn is_sparse(v: &Value) -> (r: bool)
    ensures
        !r ==> !is_sparse_value(v@),
        r ==> is_sparse_value(v@) == (sized_bytes(v@) is Some),
{
    match v {
        Value::Int128(_)
        | Value::Decimal128(_, _)
        | Value::Int256(_)
        | Value::Decimal256(_, _)
        | Value::UInt128(_)
        | Value::UInt256(_)
        | Value::Uuid(_) => false,
        _ => true,
    }
}

fn put_element(out: &mut Vec<u8>, v: &Value) -> (r: Result<()>)
    ensures
        match r {
            Ok(()) => is_sparse_value(v@) && final(out)@ == old(out)@ + sized_bytes(v@)->0,
            Err(e) => !is_sparse_value(v@) && e == Error::SerializeError(
                WriteReason::UnsupportedValue,
            ),
        },
{
    if !is_sparse(v) {
        return Err(Error::SerializeError(WriteReason::UnsupportedValue));
    }
    put_sized(out, v)
}

/// Numbers, one after another or as a sparse column.
pub struct SizedSerializer;

impl SizedSerializer {
    /// What a column of numbers begins with: a one where it is sparse.
    pub fn write_prefix(writer: &mut Vec<u8>, sparse: bool)
        ensures
            final(writer)@ == old(writer)@ + (if sparse {
                varuint_bytes(1)
            } else {
                Seq::empty()
            }),
    {
        if sparse {
            put_var_uint(writer, 1);
        } else {
            assert(writer@ =~= old(writer)@ + Seq::<u8>::empty());
        }
    }

    /// Appends a column of numbers. A null is written as the value that the type starts
    /// with; a value that is no number cannot be written.
    pub fn write_sync(type_: &Type, values: &Vec<Value>, writer: &mut Vec<u8>, sparse: bool)
        -> (r: Result<()>)
        ensures
            ({
                let bytes = if sparse {
                    sparse_bytes(type_@, value_views(values@))
                } else {
                    number_bytes(type_@, value_views(values@))
                };
                match r {
                    Ok(()) => bytes is Ok && final(writer)@ == old(writer)@ + bytes->Ok_0,
                    Err(e) => bytes == Err::<Seq<u8>, _>(e),
                }
            }),
    {
        if sparse {
            write_sparse(type_, values, writer)
        } else {
            put_numbers(type_, values, writer)
        }
    }
}

/// The bytes of a column of numbers, one behind the other.
pub open spec fn number_bytes(t: TypeView, vs: Seq<ValueView>) -> core::result::Result<
    Seq<u8>,
    Error,
>
    decreases vs.len(),
{
    if vs.len() == 0 {
        Ok(Seq::empty())
    } else {
        match sized_bytes(justified(vs[0], t)) {
            None => Err(Error::SerializeError(WriteReason::UnsupportedValue)),
            Some(a) => match number_bytes(t, vs.skip(1)) {
                Err(e) => Err(e),
                Ok(b) => Ok(a + b),
            },
        }
    }
}

/// A column of a type of numbers is the same bytes, written as numbers or as cells.
pub proof fn law_numbers_are_cells(t: TypeView, vs: Seq<ValueView>)
    requires
        is_sized(t),
    ensures
        number_bytes(t, vs) == cells_bytes(t, vs),
    decreases vs.len(),
{
    if vs.len() > 0 {
        law_numbers_are_cells(t, vs.skip(1));
    }
}

fn put_numbers(type_: &Type, values: &Vec<Value>, writer: &mut Vec<u8>) -> (r: Result<()>)
    ensures
        match r {
            Ok(()) => number_bytes(type_@, value_views(values@)) is Ok && final(writer)@ == old(
                writer,
            )@ + number_bytes(type_@, value_views(values@))->Ok_0,
            Err(e) => number_bytes(type_@, value_views(values@)) == Err::<Seq<u8>, _>(e),
        },
{
    let ghost all = value_views(values@);
    let mut i: usize = 0;
    assert(all.skip(0) =~= all);
    while i < values.len()
        invariant
            i <= values.len(),
            all == value_views(values@),
            match number_bytes(type_@, all.skip(i as int)) {
                Err(e) => number_bytes(type_@, all) == Err::<Seq<u8>, _>(e),
                Ok(rest) => number_bytes(type_@, all) is Ok && old(writer)@ + number_bytes(
                    type_@,
                    all,
                )->Ok_0 == writer@ + rest,
            },
        decreases values.len() - i,
    {
        let ghost head = writer@;
        proof {
            assert(all.skip(i as int)[0] == values@[i as int]@);
            assert(all.skip(i as int).skip(1) =~= all.skip(i + 1));
        }
        let v = values[i].clone().justify_null(type_);
        match put_sized(writer, &v) {
            Ok(()) => {},
            Err(e) => return Err(e),
        }
        proof {
            if let Ok(rest) = number_bytes(type_@, all.skip(i + 1)) {
                assert(head + (sized_bytes(v@)->0 + rest) =~= writer@ + rest);
            }
        }
        i += 1;
    }
    assert(writer@ + Seq::<u8>::empty() =~= writer@);
    Ok(())
}

/// Appends a sparse column.
pub fn write_sparse(type_: &Type, values: &Vec<Value>, writer: &mut Vec<u8>) -> (r: Result<()>)
    ensures
        match r {
            Ok(()) => sparse_bytes(type_@, value_views(values@)) is Ok && final(writer)@ == old(
                writer,
            )@ + sparse_bytes(type_@, value_views(values@))->Ok_0,
            Err(e) => sparse_bytes(type_@, value_views(values@)) == Err::<Seq<u8>, _>(e),
        },
{
    let ghost all = value_views(values@);
    put_groups(writer, type_, values);
    let ghost base = writer@;
    let mut i: usize = 0;
    assert(all.skip(0) =~= all);
    while i < values.len()
        invariant
            i <= values.len(),
            all == value_views(values@),
            match element_bytes(type_@, all.skip(i as int)) {
                Err(e) => element_bytes(type_@, all) == Err::<Seq<u8>, _>(e),
                Ok(rest) => element_bytes(type_@, all) is Ok && base + element_bytes(
                    type_@,
                    all,
                )->Ok_0 == writer@ + rest,
            },
        decreases values.len() - i,
    {
        let ghost head = writer@;
        proof {
            assert(all.skip(i as int)[0] == values@[i as int]@);
            assert(all.skip(i as int).skip(1) =~= all.skip(i + 1));
        }
        if !leaves_out(type_, &values[i]) {
            let v = values[i].clone().justify_null(type_);
            match put_element(writer, &v) {
                Ok(()) => {},
                Err(e) => return Err(e),
            }
            proof {
                if let Ok(rest) = element_bytes(type_@, all.skip(i + 1)) {
                    assert(head + (sized_bytes(v@)->0 + rest) =~= writer@ + rest);
                }
            }
        }
        i += 1;
    }
    proof {
        assert(writer@ + Seq::<u8>::empty() =~= writer@);
        assert(writer@ =~= old(writer)@ + sparse_bytes(type_@, all)->Ok_0);
    }
    Ok(())
}

// ---------------------------------------------------------------------------
// Reading
// ---------------------------------------------------------------------------

/// What is left of one granule for the next: how many defaults come first, and whether
/// a value stands behind them.
#[derive(Debug, Clone, Copy, PartialEq, Eq, Structural)]
pub struct SparseState {
    pub trailing_defaults: usize,
    pub has_value_after_defaults: bool,
}

/// The places of values and the state behind them, as the groups tell them. `total`
/// rows have been passed, and `trailing` defaults were left from before.
pub open spec fn parsed_groups(s: Seq<u8>, total: nat, trailing: nat, rows: nat) -> Parsed<
    (Seq<nat>, SparseState),
>
    decreases rows - total,
{
    match parsed_varuint(s) {
        Err(e) => Err(e),
        Ok((v, rest)) => {
            let end = (v as u64) & END_OF_GRANULE_FLAG != 0;
            let group = (if end {
                (v as u64) & !END_OF_GRANULE_FLAG
            } else {
                v as u64
            }) as usize;
            let next = total + group;
            if next >= rows {
                if next - rows > usize::MAX {
                    Err(Error::DeserializeError(ReadReason::RowsOutOfRange))
                } else {
                    Ok(
                        (
                            (
                                Seq::empty(),
                                SparseState {
                                    trailing_defaults: (next - rows) as usize,
                                    has_value_after_defaults: !end,
                                },
                            ),
                            rest,
                        ),
                    )
                }
            } else if end {
                if group + trailing > usize::MAX {
                    Err(Error::DeserializeError(ReadReason::RowsOutOfRange))
                } else {
                    Ok(
                        (
                            (
                                Seq::empty(),
                                SparseState {
                                    trailing_defaults: (group + trailing) as usize,
                                    has_value_after_defaults: false,
                                },
                            ),
                            rest,
                        ),
                    )
                }
            } else {
                match parsed_groups(rest, (next + 1) as nat, 0, rows) {
                    Err(e) => Err(e),
                    Ok(((places, st), last)) => Ok(((seq![next as nat] + places, st), last)),
                }
            }
        },
    }
}

/// The places that a granule begins with.
pub open spec fn first_places(st: SparseState) -> Seq<nat> {
    if st.has_value_after_defaults {
        seq![st.trailing_defaults as nat]
    } else {
        Seq::empty()
    }
}

/// Rows with values put in their places. What lies beyond the rows is dropped.
pub open spec fn placed(rows: Seq<ValueView>, places: Seq<nat>, vs: Seq<ValueView>) -> Seq<ValueView>
    decreases places.len(),
{
    if places.len() == 0 || vs.len() == 0 {
        rows
    } else {
        let next = if places[0] < rows.len() {
            rows.update(places[0] as int, vs[0])
        } else {
            rows
        };
        placed(next, places.skip(1), vs.skip(1))
    }
}

/// Reads the values of a sparse column.
pub open spec fn parsed_dense(s: Seq<u8>, t: TypeView, n: nat) -> Parsed<Seq<ValueView>> {
    if n > 0 && t is Object {
        Err(Error::DeserializeError(ReadReason::UnsupportedType))
    } else {
        parsed_cells(s, t, n)
    }
}

/// Reads a granule of a sparse column.
pub open spec fn parsed_sparse(s: Seq<u8>, t: TypeView, rows: nat, st: SparseState) -> Parsed<
    (Seq<ValueView>, SparseState),
> {
    let head = first_places(st);
    let total = (st.trailing_defaults + head.len()) as nat;
    let trailing = if st.has_value_after_defaults {
        0
    } else {
        st.trailing_defaults as nat
    };
    if total > usize::MAX {
        Err(Error::DeserializeError(ReadReason::RowsOutOfRange))
    } else {
        match parsed_groups(s, total, trailing, rows) {
            Err(e) => Err(e),
            Ok(((places, next), rest)) => {
                let all = head + places;
                match parsed_dense(rest, t, all.len()) {
                    Err(e) => Err(e),
                    Ok((vs, last)) => Ok(
                        ((placed(Seq::new(rows, |i: int| default_of(t)), all, vs), next), last),
                    ),
                }
            },
        }
    }
}

/// The views of places.
pub open spec fn place_views(v: Seq<usize>) -> Seq<nat> {
    Seq::new(v.len(), |i: int| v[i] as nat)
}

/// Places, with further places behind them.
pub open spec fn places_before(head: Seq<nat>, rest: Parsed<(Seq<nat>, SparseState)>) -> Parsed<
    (Seq<nat>, SparseState),
> {
    match rest {
        Err(e) => Err(e),
        Ok(((places, st), last)) => Ok(((head + places, st), last)),
    }
}

/// Reads the groups of a granule and puts the places behind those that are known already.
fn read_groups(
    reader: &mut &[u8],
    places: &mut Vec<usize>,
    first_total: usize,
    first_trailing: usize,
    rows: usize,
) -> (r: Result<SparseState>)
    ensures
        match r {
            Ok(st) => places_before(
                place_views(old(places)@),
                parsed_groups(
                    old(reader)@,
                    first_total as nat,
                    first_trailing as nat,
                    rows as nat,
                ),
            ) == Ok::<_, Error>(((place_views(final(places)@), st), final(reader)@)),
            Err(e) => parsed_groups(
                old(reader)@,
                first_total as nat,
                first_trailing as nat,
                rows as nat,
            ) == Err::<((Seq<nat>, SparseState), Seq<u8>), _>(e),
        },
{
    let mut total: usize = first_total;
    let mut trailing: usize = first_trailing;
    loop
        invariant
            places_before(
                place_views(old(places)@),
                parsed_groups(
                    old(reader)@,
                    first_total as nat,
                    first_trailing as nat,
                    rows as nat,
                ),
            ) == places_before(
                place_views(places@),
                parsed_groups(reader@, total as nat, trailing as nat, rows as nat),
            ),
        decreases rows - total,
    {
        let ghost known = place_views(places@);
        let v: u64 = match read_varuint(reader) {
            Ok(v) => v,
            Err(e) => return Err(e),
        };
        let end: bool = v & END_OF_GRANULE_FLAG != 0;
        let rest: u64 = if end {
            v & !END_OF_GRANULE_FLAG
        } else {
            v
        };
        let group: usize = rest as usize;
        assert(known + Seq::<nat>::empty() =~= known);
        if total > rows {
            return match (total - rows).checked_add(group) {
                Some(t) => Ok(SparseState { trailing_defaults: t, has_value_after_defaults: !end }),
                None => Err(Error::DeserializeError(ReadReason::RowsOutOfRange)),
            };
        }
        if group >= rows - total {
            return Ok(
                SparseState {
                    trailing_defaults: group - (rows - total),
                    has_value_after_defaults: !end,
                },
            );
        }
        if end {
            return match group.checked_add(trailing) {
                Some(t) => Ok(SparseState { trailing_defaults: t, has_value_after_defaults: false }),
                None => Err(Error::DeserializeError(ReadReason::RowsOutOfRange)),
            };
        }
        let next: usize = total + group;
        places.push(next);
        proof {
            assert(place_views(places@) =~= known.push(next as nat));
            if let Ok(((more, _), _)) = parsed_groups(reader@, (next + 1) as nat, 0, rows as nat) {
                assert(known + (seq![next as nat] + more) =~= place_views(places@) + more);
            }
        }
        total = next + 1;
        trailing = 0;
    }
}

/// Reads a granule of `rows` rows of a sparse column.
pub fn read_sparse(type_: &Type, reader: &mut &[u8], rows: usize, state: SparseState)
    -> (r: Result<(Vec<Value>, SparseState)>)
    ensures
        match r {
            Ok((v, st)) => parsed_sparse(old(reader)@, type_@, rows as nat, state) == Ok::<
                _,
                Error,
            >(((value_views(v@), st), final(reader)@)),
            Err(e) => parsed_sparse(old(reader)@, type_@, rows as nat, state) == Err::<
                ((Seq<ValueView>, SparseState), Seq<u8>),
                _,
            >(e),
        },
{
    let mut places: Vec<usize> = Vec::new();
    let mut total: usize = state.trailing_defaults;
    let mut trailing: usize = state.trailing_defaults;
    if state.has_value_after_defaults {
        if total == usize::MAX {
            return Err(Error::DeserializeError(ReadReason::RowsOutOfRange));
        }
        places.push(state.trailing_defaults);
        total = total + 1;
        trailing = 0;
    }
    assert(place_views(places@) =~= first_places(state));
    let next = match read_groups(reader, &mut places, total, trailing, rows) {
        Ok(st) => st,
        Err(e) => return Err(e),
    };
    let ghost all = place_views(places@);
    let is_object: bool = match type_ {
        Type::Object => true,
        _ => false,
    };
    if places.len() > 0 && is_object {
        assert(all.len() > 0);
        return Err(Error::DeserializeError(ReadReason::UnsupportedType));
    }
    let values = match get_cells(reader, type_, places.len()) {
        Ok(v) => v,
        Err(e) => return Err(e),
    };
    let default = type_.default_value();
    let mut out: Vec<Value> = Vec::new();
    let mut k: usize = 0;
    while k < rows
        invariant
            k <= rows,
            out@.len() == k,
            default@ == default_of(type_@),
            forall|j: int| 0 <= j < k ==> (#[trigger] out@[j])@ == default_of(type_@),
        decreases rows - k,
    {
        out.push(default.clone());
        k += 1;
    }
    let ghost fresh = value_views(out@);
    assert(fresh =~= Seq::new(rows as nat, |i: int| default_of(type_@)));
    let ghost vs = value_views(values@);
    let mut i: usize = 0;
    proof {
        assert(all.skip(0) =~= all);
        assert(vs.skip(0) =~= vs);
    }
    while i < places.len()
        invariant
            i <= places.len(),
            places@.len() == values@.len(),
            all == place_views(places@),
            vs == value_views(values@),
            placed(fresh, all, vs) == placed(
                value_views(out@),
                all.skip(i as int),
                vs.skip(i as int),
            ),
        decreases places.len() - i,
    {
        proof {
            assert(all.skip(i as int)[0] == places@[i as int]);
            assert(vs.skip(i as int)[0] == values@[i as int]@);
            assert(all.skip(i as int).skip(1) =~= all.skip(i + 1));
            assert(vs.skip(i as int).skip(1) =~= vs.skip(i + 1));
        }
        let p: usize = places[i];
        if p < out.len() {
            let ghost before = out@;
            let v = values[i].clone();
            let ghost vv = v@;
            out.set(p, v);
            assert(value_views(out@) =~= value_views(before).update(p as int, vv));
        }
        i += 1;
    }
    Ok((out, next))
}

// ---------------------------------------------------------------------------
// State between granules
// ---------------------------------------------------------------------------

/// The states of sparse columns, by the path of a column within its type.
pub struct SparseRuntime {
    entries: Vec<(Vec<u16>, SparseState)>,
}

impl SparseRuntime {
    /// The states as a map.
    pub closed spec fn view(&self) -> Map<Seq<u16>, SparseState> {
        runtime_map(self.entries@)
    }

    /// No states.
    pub fn new() -> (r: SparseRuntime)
        ensures
            r@ == Map::<Seq<u16>, SparseState>::empty(),
    {
        SparseRuntime { entries: Vec::new() }
    }

    /// The state at a path. Where there is none, no defaults are left and no value.
    pub fn get(&self, path: &Vec<u16>) -> (r: SparseState)
        ensures
            r == (if self@.contains_key(path@) {
                self@[path@]
            } else {
                SparseState { trailing_defaults: 0, has_value_after_defaults: false }
            }),
    {
        let mut i: usize = self.entries.len();
        assert(self.entries@.take(i as int) =~= self.entries@);
        while i > 0
            invariant
                i <= self.entries.len(),
                self@.contains_key(path@) == runtime_map(
                    self.entries@.take(i as int),
                ).contains_key(path@),
                self@.contains_key(path@) ==> self@[path@] == runtime_map(
                    self.entries@.take(i as int),
                )[path@],
            decreases i,
        {
            i -= 1;
            proof {
                let prefix = self.entries@.take(i + 1);
                assert(prefix.drop_last() =~= self.entries@.take(i as int));
                assert(prefix.last() == self.entries@[i as int]);
            }
            if same_path(&self.entries[i].0, path) {
                return self.entries[i].1;
            }
        }
        SparseState { trailing_defaults: 0, has_value_after_defaults: false }
    }

    /// Sets the state at a path.
    pub fn insert(&mut self, path: Vec<u16>, state: SparseState)
        ensures
            final(self)@ == old(self)@.insert(path@, state),
    {
        let ghost before = self.entries@;
        self.entries.push((path, state));
        assert(self.entries@.drop_last() =~= before);
    }
}

/// The map that entries stand for; a later entry replaces an earlier one.
spec fn runtime_map(entries: Seq<(Vec<u16>, SparseState)>) -> Map<Seq<u16>, SparseState>
    decreases entries.len(),
{
    if entries.len() == 0 {
        Map::empty()
    } else {
        runtime_map(entries.drop_last()).insert(entries.last().0@, entries.last().1)
    }
}

/// Whether two paths are the same.
pub fn same_path(a: &Vec<u16>, b: &Vec<u16>) -> (r: bool)
    ensures
        r == (a@ == b@),
{
    if a.len() != b.len() {
        return false;
    }
    let mut i: usize = 0;
    while i < a.len()
        invariant
            i <= a.len(),
            a.len() == b.len(),
            forall|j: int| 0 <= j < i ==> a@[j] == b@[j],
        decreases a.len() - i,
    {
        if a[i] != b[i] {
            return false;
        }
        i += 1;
    }
    assert(a@ =~= b@);
    true
}

/// Reads a granule of the sparse column at a path, and keeps what is left for the next.
pub fn read_sparse_with_path(
    type_: &Type,
    reader: &mut &[u8],
    rows: usize,
    runtime: &mut SparseRuntime,
    path: Vec<u16>,
) -> (r: Result<Vec<Value>>)
    ensures
        ({
            let state = if old(runtime)@.contains_key(path@) {
                old(runtime)@[path@]
            } else {
                SparseState { trailing_defaults: 0, has_value_after_defaults: false }
            };
            match r {
                Ok(v) => {
                    let p = parsed_sparse(old(reader)@, type_@, rows as nat, state);
                    &&& p is Ok
                    &&& p->Ok_0.0.0 == value_views(v@)
                    &&& p->Ok_0.1 == final(reader)@
                    &&& final(runtime)@ == old(runtime)@.insert(path@, p->Ok_0.0.1)
                },
                Err(e) => parsed_sparse(old(reader)@, type_@, rows as nat, state) == Err::<
                    ((Seq<ValueView>, SparseState), Seq<u8>),
                    _,
                >(e),
            }
        }),
{
    let state = runtime.get(&path);
    match read_sparse(type_, reader, rows, state) {
        Ok((v, next)) => {
            runtime.insert(path, next);
            Ok(v)
        },
        Err(e) => Err(e),
    }
}

// ---------------------------------------------------------------------------
// Laws
// ---------------------------------------------------------------------------

/// The places of the values that are not left out, from row `start` on.
pub open spec fn value_places(t: TypeView, vs: Seq<ValueView>, start: nat) -> Seq<nat>
    decreases vs.len(),
{
    if vs.len() == 0 {
        Seq::empty()
    } else if is_default(t, vs[0]) {
        value_places(t, vs.skip(1), start + 1)
    } else {
        seq![start] + value_places(t, vs.skip(1), start + 1)
    }
}

/// The values that are not left out.
pub open spec fn kept(t: TypeView, vs: Seq<ValueView>) -> Seq<ValueView>
    decreases vs.len(),
{
    if vs.len() == 0 {
        Seq::empty()
    } else if is_default(t, vs[0]) {
        kept(t, vs.skip(1))
    } else {
        seq![vs[0]] + kept(t, vs.skip(1))
    }
}

proof fn lemma_flag(x: u64)
    requires
        x < END_OF_GRANULE_FLAG,
    ensures
        x & END_OF_GRANULE_FLAG == 0,
        (x | END_OF_GRANULE_FLAG) & END_OF_GRANULE_FLAG != 0,
        (x | END_OF_GRANULE_FLAG) & !END_OF_GRANULE_FLAG == x,
{
    assert(x & 0x4000_0000_0000_0000u64 == 0 && (x | 0x4000_0000_0000_0000u64)
        & 0x4000_0000_0000_0000u64 != 0 && (x | 0x4000_0000_0000_0000u64)
        & !0x4000_0000_0000_0000u64 == x) by (bit_vector)
        requires
            x < 0x4000_0000_0000_0000u64,
    ;
}

proof fn lemma_groups_read_back(
    t: TypeView,
    vs: Seq<ValueView>,
    run: nat,
    total: nat,
    rows: nat,
    rest: Seq<u8>,
)
    requires
        total + run + vs.len() == rows,
        rows < END_OF_GRANULE_FLAG,
        rows <= usize::MAX,
    ensures
        parsed_groups(group_bytes(t, vs, run) + rest, total, 0, rows) == Ok::<_, Error>(
            (
                (
                    value_places(t, vs, total + run),
                    SparseState { trailing_defaults: 0, has_value_after_defaults: false },
                ),
                rest,
            ),
        ),
    decreases vs.len(),
{
    if vs.len() == 0 {
        lemma_flag(run as u64);
        law_varuint_reads_back(run as u64 | END_OF_GRANULE_FLAG, rest);
    } else if is_default(t, vs[0]) {
        lemma_groups_read_back(t, vs.skip(1), run + 1, total, rows, rest);
    } else {
        let next = group_bytes(t, vs.skip(1), 0) + rest;
        assert(group_bytes(t, vs, run) + rest =~= varuint_bytes(run) + next);
        lemma_flag(run as u64);
        law_varuint_reads_back(run as u64, next);
        lemma_groups_read_back(t, vs.skip(1), 0, total + run + 1, rows, rest);
    }
}

proof fn lemma_elements(t: TypeView, vs: Seq<ValueView>)
    requires
        is_sized(t),
        forall|i: int| 0 <= i < vs.len() ==> sized_fits(#[trigger] vs[i], t) && is_sparse_value(
            vs[i],
        ),
    ensures
        element_bytes(t, vs) == cells_bytes(t, kept(t, vs)),
        element_bytes(t, vs) is Ok,
        forall|i: int| 0 <= i < kept(t, vs).len() ==> sized_fits(#[trigger] kept(t, vs)[i], t),
        kept(t, vs).len() == value_places(t, vs, 0).len(),
    decreases vs.len(),
{
    lemma_places_len(t, vs, 0);
    if vs.len() > 0 {
        let tail = vs.skip(1);
        assert forall|i: int| 0 <= i < tail.len() implies sized_fits(#[trigger] tail[i], t)
            && is_sparse_value(tail[i]) by {
            assert(tail[i] == vs[i + 1]);
        }
        lemma_elements(t, tail);
        if !is_default(t, vs[0]) {
            assert(sized_fits(vs[0], t));
            assert(kept(t, vs).skip(1) =~= kept(t, tail));
        }
    }
}

proof fn lemma_places_len(t: TypeView, vs: Seq<ValueView>, start: nat)
    ensures
        value_places(t, vs, start).len() == kept(t, vs).len(),
    decreases vs.len(),
{
    if vs.len() > 0 {
        lemma_places_len(t, vs.skip(1), start + 1);
    }
}

/// Rows that are put together from the defaults and the values that were kept.
proof fn lemma_placed(t: TypeView, done: Seq<ValueView>, vs: Seq<ValueView>)
    requires
        is_sized(t),
        forall|i: int| 0 <= i < vs.len() ==> sized_fits(#[trigger] vs[i], t),
    ensures
        placed(
            done + Seq::new(vs.len(), |i: int| default_of(t)),
            value_places(t, vs, done.len()),
            kept(t, vs),
        ) == done + vs,
    decreases vs.len(),
{
    let fresh = done + Seq::new(vs.len(), |i: int| default_of(t));
    if vs.len() == 0 {
        assert(fresh =~= done + vs);
    } else {
        let tail = vs.skip(1);
        assert forall|i: int| 0 <= i < tail.len() implies sized_fits(#[trigger] tail[i], t) by {
            assert(tail[i] == vs[i + 1]);
        }
        lemma_placed(t, done.push(vs[0]), tail);
        assert(sized_fits(vs[0], t));
        let next = done.push(vs[0]) + Seq::new(tail.len(), |i: int| default_of(t));
        assert(done.push(vs[0]) + tail =~= done + vs);
        if is_default(t, vs[0]) {
            assert(vs[0] == default_of(t)) by {
                if let ValueView::Ipv6(b) = vs[0] {
                    assert(b =~= crate::guess::zeros(16));
                }
            }
            assert(fresh =~= next);
        } else {
            assert(fresh.update(done.len() as int, vs[0]) =~= next);
            assert(value_places(t, vs, done.len()).skip(1) =~= value_places(
                t,
                tail,
                done.len() + 1,
            ));
            assert(kept(t, vs).skip(1) =~= kept(t, tail));
        }
    }
}

/// A sparse column that was written as one granule is read back.
pub proof fn law_sparse_reads_back(t: TypeView, vs: Seq<ValueView>, rest: Seq<u8>)
    requires
        is_sized(t),
        forall|i: int| 0 <= i < vs.len() ==> sized_fits(#[trigger] vs[i], t) && is_sparse_value(
            vs[i],
        ),
        vs.len() < END_OF_GRANULE_FLAG,
        vs.len() <= usize::MAX,
    ensures
        sparse_bytes(t, vs) is Ok,
        parsed_sparse(
            sparse_bytes(t, vs)->Ok_0 + rest,
            t,
            vs.len(),
            (SparseState { trailing_defaults: 0, has_value_after_defaults: false }),
        ) == Ok::<_, Error>(
            ((vs, SparseState { trailing_defaults: 0, has_value_after_defaults: false }), rest),
        ),
{
    let fresh_state = SparseState { trailing_defaults: 0, has_value_after_defaults: false };
    lemma_elements(t, vs);
    let cells = element_bytes(t, vs)->Ok_0 + rest;
    assert(sparse_bytes(t, vs)->Ok_0 + rest =~= group_bytes(t, vs, 0) + cells);
    lemma_groups_read_back(t, vs, 0, 0, vs.len(), cells);
    let places = value_places(t, vs, 0);
    assert(first_places(fresh_state) + places =~= places);
    assert forall|i: int| 0 <= i < kept(t, vs).len() implies crate::cell_laws::cell_fits(
        #[trigger] kept(t, vs)[i],
        t,
    ) by {
        assert(sized_fits(kept(t, vs)[i], t));
    }
    law_cells_read_back(kept(t, vs), t, rest);
    lemma_placed(t, Seq::empty(), vs);
    assert(Seq::<ValueView>::empty() + Seq::new(vs.len(), |i: int| default_of(t)) =~= Seq::new(
        vs.len(),
        |i: int| default_of(t),
    ));
    assert(Seq::<ValueView>::empty() + vs =~= vs);
}

} // verus!
