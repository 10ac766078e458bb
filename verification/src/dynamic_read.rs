//! Reading values of any type.
use std::collections::HashMap;

use vstd::prelude::*;

use crate::column_read::{
    all_found, parsed_column, parsed_groups, read_groups, variant_rows, DeserializerState, KindPlan,
};
use crate::columns::{field_types, types_of_fields};
use crate::discriminators::{
    build_offsets, parse_type_entry, parsed_discriminators, read_discriminators, type_entry,
};
use crate::dynamic::{DynamicState, DYNAMIC_VERSION_FLATTENED};
use crate::error::{Error, ReadReason, Result};
use crate::prefixes::{deserialize_prefixes, parsed_prefixes};
use crate::sparse::SparseRuntime;
use crate::state::TypeSpecificState;
use crate::types::{field_views, type_views, Type, TypeView};
use crate::values::{value_views, Value, ValueView};
use crate::variant::{
    column_views, rank, row_value, shorter, VariantDeserializer, NULL_DISCRIMINATOR,
};
use crate::wire::{
    get_bytes, get_u64_le, parsed_bytes, parsed_string, parsed_uint, parsed_varuint, read_string,
    read_varuint, Parsed,
};

verus! {

/// The oldest version of the format.
pub const DYNAMIC_VERSION_V1: u64 = 0;

/// The version of the format without a limit on the types.
pub const DYNAMIC_VERSION_V2: u64 = 2;

// ---------------------------------------------------------------------------
// What stands before a column
// ---------------------------------------------------------------------------

/// Reads the names of `n` types.
pub open spec fn parsed_entries(s: Seq<u8>, n: nat) -> Parsed<Seq<(Seq<char>, TypeView)>>
    decreases n,
{
    if n == 0 {
        Ok((Seq::empty(), s))
    } else {
        match parsed_string(s) {
            Err(e) => Err(e),
            Ok((b, next)) => match type_entry(b) {
                Err(e) => Err(e),
                Ok(entry) => match parsed_entries(next, (n - 1) as nat) {
                    Err(e) => Err(e),
                    Ok((rest, end)) => Ok((seq![entry] + rest, end)),
                },
            },
        }
    }
}

/// Reads the number of types, their names, and what stands before their columns.
pub open spec fn parsed_types_flattened(s: Seq<u8>) -> Parsed<Seq<(Seq<char>, TypeView)>> {
    match parsed_varuint(s) {
        Err(e) => Err(e),
        Ok((n, next)) => match parsed_entries(next, n) {
            Err(e) => Err(e),
            Ok((entries, rest)) => match parsed_prefixes(rest, field_types(entries)) {
                Err(e) => Err(e),
                Ok((_, end)) => Ok((entries, end)),
            },
        },
    }
}

/// The same in the older versions: the types of a variant, with the string type that
/// other types share behind them, and the version of the variant before what stands
/// before their columns. The oldest version tells a limit first.
pub open spec fn parsed_types_v1_v2(s: Seq<u8>, version: u64) -> Parsed<
    Seq<(Seq<char>, TypeView)>,
> {
    let start = if version == DYNAMIC_VERSION_V1 {
        match parsed_varuint(s) {
            Err(e) => Err(e),
            Ok((_, next)) => Ok(next),
        }
    } else {
        Ok(s)
    };
    match start {
        Err(e) => Err(e),
        Ok(s1) => match parsed_varuint(s1) {
            Err(e) => Err(e),
            Ok((n, s2)) => match parsed_entries(s2, n) {
                Err(e) => Err(e),
                Ok((entries, s3)) => {
                    let all = entries.push(("String"@, TypeView::String));
                    match parsed_uint(s3, 8) {
                        Err(e) => Err(e),
                        Ok((_, s4)) => match parsed_prefixes(s4, field_types(all)) {
                            Err(e) => Err(e),
                            Ok((_, end)) => Ok((all, end)),
                        },
                    }
                },
            },
        },
    }
}

/// Reads what stands before a column: the version and the types.
pub open spec fn parsed_dynamic_prefix(s: Seq<u8>) -> Parsed<(u64, Seq<(Seq<char>, TypeView)>)> {
    match parsed_uint(s, 8) {
        Err(e) => Err(e),
        Ok((version, next)) => {
            let types = if version == DYNAMIC_VERSION_FLATTENED {
                parsed_types_flattened(next)
            } else if version == DYNAMIC_VERSION_V1 || version == DYNAMIC_VERSION_V2 {
                parsed_types_v1_v2(next, version as u64)
            } else {
                Err(Error::DeserializeError(ReadReason::UnsupportedVersion))
            };
            match types {
                Err(e) => Err(e),
                Ok((entries, end)) => Ok(((version as u64, entries), end)),
            }
        },
    }
}

/// Reads values of any type.
pub struct DynamicDeserializer;

fn read_entries(reader: &mut &[u8], n: u64) -> (r: Result<Vec<(String, Type)>>)
    ensures
        match r {
            Ok(v) => parsed_entries(old(reader)@, n as nat) == Ok::<_, Error>(
                (field_views(v@), final(reader)@),
            ),
            Err(e) => parsed_entries(old(reader)@, n as nat) == Err::<
                (Seq<(Seq<char>, TypeView)>, Seq<u8>),
                Error,
            >(e),
        },
{
    let mut out: Vec<(String, Type)> = Vec::new();
    let mut i: u64 = 0;
    proof {
        if let Ok((rest, _)) = parsed_entries(reader@, n as nat) {
            assert(field_views(out@) + rest =~= rest);
        }
    }
    while i < n
        invariant
            i <= n,
            parsed_entries(old(reader)@, n as nat) == match parsed_entries(
                reader@,
                (n - i) as nat,
            ) {
                Err(e) => Err(e),
                Ok((rest, end)) => Ok((field_views(out@) + rest, end)),
            },
        decreases n - i,
    {
        let ghost head = field_views(out@);
        let bytes = match read_string(reader) {
            Ok(b) => b,
            Err(e) => return Err(e),
        };
        match parse_type_entry(bytes) {
            Err(e) => return Err(e),
            Ok((name, t)) => {
                let ghost entry = (name@, t@);
                out.push((name, t));
                proof {
                    assert(field_views(out@) =~= head.push(entry));
                    if let Ok((rest, _)) = parsed_entries(reader@, (n - i - 1) as nat) {
                        assert(head + (seq![entry] + rest) =~= field_views(out@) + rest);
                    }
                }
            },
        }
        i += 1;
    }
    assert(field_views(out@) + Seq::<(Seq<char>, TypeView)>::empty() =~= field_views(out@));
    Ok(out)
}

pub(crate) fn read_types_flattened(reader: &mut &[u8]) -> (r: Result<Vec<(String, Type)>>)
    ensures
        match r {
            Ok(v) => parsed_types_flattened(old(reader)@) == Ok::<_, Error>(
                (field_views(v@), final(reader)@),
            ),
            Err(e) => parsed_types_flattened(old(reader)@) == Err::<
                (Seq<(Seq<char>, TypeView)>, Seq<u8>),
                Error,
            >(e),
        },
{
    let n: u64 = match read_varuint(reader) {
        Ok(n) => n,
        Err(e) => return Err(e),
    };
    let types = match read_entries(reader, n) {
        Ok(v) => v,
        Err(e) => return Err(e),
    };
    let ts = types_of_fields(&types);
    match deserialize_prefixes(&ts, reader) {
        Ok(()) => Ok(types),
        Err(e) => Err(e),
    }
}

fn read_types_v1_v2(reader: &mut &[u8], version: u64) -> (r: Result<Vec<(String, Type)>>)
    ensures
        match r {
            Ok(v) => parsed_types_v1_v2(old(reader)@, version) == Ok::<_, Error>(
                (field_views(v@), final(reader)@),
            ),
            Err(e) => parsed_types_v1_v2(old(reader)@, version) == Err::<
                (Seq<(Seq<char>, TypeView)>, Seq<u8>),
                Error,
            >(e),
        },
{
    if version == DYNAMIC_VERSION_V1 {
        match read_varuint(reader) {
            Ok(_) => {},
            Err(e) => return Err(e),
        }
    }
    let n: u64 = match read_varuint(reader) {
        Ok(n) => n,
        Err(e) => return Err(e),
    };
    let mut types = match read_entries(reader, n) {
        Ok(v) => v,
        Err(e) => return Err(e),
    };
    let ghost entries = field_views(types@);
    types.push((crate::text::from_chars(&crate::text::to_chars("String")), Type::String));
    assert(field_views(types@) =~= entries.push(("String"@, TypeView::String)));
    match get_u64_le(reader) {
        Ok(_) => {},
        Err(e) => return Err(e),
    }
    let ts = types_of_fields(&types);
    match deserialize_prefixes(&ts, reader) {
        Ok(()) => Ok(types),
        Err(e) => Err(e),
    }
}

// ---------------------------------------------------------------------------
// Columns
// ---------------------------------------------------------------------------

/// Reads the columns of types, from the one with the discriminator `d` on. A type
/// without a row has none.
pub open spec fn parsed_type_columns(s: Seq<u8>, ts: Seq<TypeView>, ds: Seq<u64>, d: nat) -> Parsed<
    Seq<Seq<ValueView>>,
>
    decreases ts.len(),
{
    if ts.len() == 0 {
        Ok((Seq::empty(), s))
    } else {
        let count = rank(ds, d as u64, ds.len() as int);
        let column = if count == 0 {
            Ok(((Seq::empty(), Map::empty()), s))
        } else {
            parsed_column(s, ts[0], count, Set::empty(), Seq::empty(), Map::empty())
        };
        match column {
            Err(e) => Err(e),
            Ok(((c, _), next)) => match parsed_type_columns(
                next,
                ts.subrange(1, ts.len() as int),
                ds,
                d + 1,
            ) {
                Err(e) => Err(e),
                Ok((cs, end)) => Ok((seq![c] + cs, end)),
            },
        }
    }
}

/// A row that is found at an offset in the column of its discriminator. The one behind
/// all types is that of null.
pub open spec fn dynamic_row(d: u64, offset: int, total: nat, columns: Seq<Seq<ValueView>>) -> Option<
    ValueView,
> {
    if d == total {
        Some(ValueView::Null)
    } else if d < columns.len() && 0 <= offset < columns[d as int].len() {
        Some(columns[d as int][offset])
    } else {
        None
    }
}

/// Whether each discriminator finds its value.
pub open spec fn all_placed(ds: Seq<u64>, total: nat, columns: Seq<Seq<ValueView>>) -> bool {
    forall|i: int|
        0 <= i < ds.len() ==> dynamic_row(
            #[trigger] ds[i],
            rank(ds, ds[i], i) as int,
            total,
            columns,
        ) is Some
}

/// The rows that discriminators make of columns.
pub open spec fn dynamic_rows(ds: Seq<u64>, total: nat, columns: Seq<Seq<ValueView>>) -> Seq<
    ValueView,
> {
    Seq::new(ds.len(), |i: int| dynamic_row(ds[i], rank(ds, ds[i], i) as int, total, columns)->0)
}

/// Reads a column of `n` values of the given types.
pub open spec fn parsed_flattened(s: Seq<u8>, n: nat, ts: Seq<TypeView>) -> Parsed<Seq<ValueView>> {
    match parsed_discriminators(s, n, ts.len()) {
        Err(e) => Err(e),
        Ok((ds, rest)) => match parsed_type_columns(rest, ts, ds, 0) {
            Err(e) => Err(e),
            Ok((columns, end)) => if all_placed(ds, ts.len(), columns) {
                Ok((dynamic_rows(ds, ts.len(), columns), end))
            } else {
                Err(Error::DeserializeError(ReadReason::InvalidOffset))
            },
        },
    }
}

/// Reads a column in the older versions: variants whose types are told apart in the
/// order in which they were named.
pub open spec fn parsed_v1_v2(s: Seq<u8>, n: nat, ts: Seq<TypeView>) -> Parsed<Seq<ValueView>> {
    if ts.len() > 256 {
        Err(Error::DeserializeError(ReadReason::UnsupportedType))
    } else {
        match parsed_bytes(s, n) {
            Err(e) => Err(e),
            Ok((ds, rest)) => match parsed_groups(rest, ts, ds, 0) {
                Err(e) => Err(e),
                Ok((columns, end)) => if all_found(ds, columns) {
                    Ok((variant_rows(ds, columns), end))
                } else {
                    Err(Error::DeserializeError(ReadReason::InvalidOffset))
                },
            },
        }
    }
}

/// Reads a column of `n` values whose types are known.
pub open spec fn parsed_dynamic(
    s: Seq<u8>,
    n: nat,
    version: Option<u64>,
    entries: Seq<(Seq<char>, TypeView)>,
) -> Parsed<Seq<ValueView>> {
    let v = match version {
        Some(v) => v,
        None => DYNAMIC_VERSION_FLATTENED,
    };
    if v == DYNAMIC_VERSION_FLATTENED {
        parsed_flattened(s, n, field_types(entries))
    } else if v == DYNAMIC_VERSION_V1 || v == DYNAMIC_VERSION_V2 {
        parsed_v1_v2(s, n, field_types(entries))
    } else {
        Err(Error::DeserializeError(ReadReason::UnsupportedVersion))
    }
}

pub(crate) fn read_type_columns(types: &Vec<Type>, reader: &mut &[u8], counts: &HashMap<u64, usize>, Ghost(
    ds,
): Ghost<Seq<u64>>) -> (r: Result<Vec<Vec<Value>>>)
    requires
        forall|d: u64|
            #![trigger counts@.contains_key(d)]
            d < types@.len() ==> counts@.contains_key(d) == (rank(ds, d, ds.len() as int) > 0),
        forall|d: u64|
            #![trigger counts@[d]]
            counts@.contains_key(d) ==> counts@[d] == rank(ds, d, ds.len() as int),
    ensures
        match r {
            Ok(v) => {
                &&& parsed_type_columns(old(reader)@, type_views(types@), ds, 0) == Ok::<_, Error>(
                    (column_views(v@), final(reader)@),
                )
                &&& v@.len() == types@.len()
            },
            Err(e) => parsed_type_columns(old(reader)@, type_views(types@), ds, 0) == Err::<
                (Seq<Seq<ValueView>>, Seq<u8>),
                Error,
            >(e),
        },
{
    broadcast use vstd::std_specs::hash::group_hash_axioms;

    let ghost all = type_views(types@);
    let ghost whole = parsed_type_columns(reader@, all, ds, 0);
    let mut out: Vec<Vec<Value>> = Vec::new();
    let mut i: usize = 0;
    let plan = KindPlan::new(Vec::new());
    let root: Vec<u16> = Vec::new();
    proof {
        crate::column_read::lemma_kinds_of(Seq::empty());
        assert(plan.sparse() =~= Set::<Seq<u16>>::empty());
        assert(all.subrange(0, all.len() as int) =~= all);
        if let Ok((cs, _)) = whole {
            assert(column_views(out@) + cs =~= cs);
        }
    }
    while i < types.len()
        invariant
            i <= types.len(),
            all == type_views(types@),
            out@.len() == i,
            root@ == Seq::<u16>::empty(),
            plan.sparse() == Set::<Seq<u16>>::empty(),
            forall|d: u64|
                #![trigger counts@.contains_key(d)]
                d < types@.len() ==> counts@.contains_key(d) == (rank(ds, d, ds.len() as int) > 0),
            forall|d: u64|
                #![trigger counts@[d]]
                counts@.contains_key(d) ==> counts@[d] == rank(ds, d, ds.len() as int),
            whole == parsed_type_columns(old(reader)@, all, ds, 0),
            whole == match parsed_type_columns(
                reader@,
                all.subrange(i as int, all.len() as int),
                ds,
                i as nat,
            ) {
                Err(e) => Err(e),
                Ok((cs, end)) => Ok((column_views(out@) + cs, end)),
            },
        decreases types.len() - i,
    {
        let ghost head = column_views(out@);
        let ghost here = all.subrange(i as int, all.len() as int);
        proof {
            assert(here[0] == all[i as int]);
            assert(here.subrange(1, here.len() as int) =~= all.subrange(i + 1, all.len() as int));
        }
        let d: u64 = i as u64;
        let count: usize = match counts.get(&d) {
            Some(c) => *c,
            None => 0,
        };
        assert(count == rank(ds, d, ds.len() as int)) by {
            assert(counts@.contains_key(d) == (rank(ds, d, ds.len() as int) > 0));
        }
        let mut column: Vec<Value> = Vec::new();
        assert(value_views(column@) =~= Seq::<ValueView>::empty());
        if count > 0 {
            let mut runtime = SparseRuntime::new();
            column = match types[i].deserialize_column_with_path(
                reader,
                count,
                &plan,
                &mut runtime,
                &root,
            ) {
                Ok(v) => v,
                Err(e) => return Err(e),
            };
        }
        let ghost vv = value_views(column@);
        out.push(column);
        proof {
            assert(column_views(out@) =~= head.push(vv));
            if let Ok((cs, _)) = parsed_type_columns(
                reader@,
                all.subrange(i + 1, all.len() as int),
                ds,
                (i + 1) as nat,
            ) {
                assert(head + (seq![vv] + cs) =~= column_views(out@) + cs);
            }
        }
        i += 1;
    }
    assert(column_views(out@) + Seq::<Seq<ValueView>>::empty() =~= column_views(out@));
    Ok(out)
}

impl DynamicDeserializer {
    /// The rows that discriminators make of the columns of the types, as many as there are
    /// both discriminators and offsets.
    pub fn reconstruct_values(
        discriminators: &Vec<u64>,
        offsets: &Vec<usize>,
        columns: &Vec<Vec<Value>>,
        total_types: u64,
    ) -> (r: Result<Vec<Value>>)
        ensures
            match r {
                Ok(v) => {
                    &&& v@.len() == shorter(discriminators@.len(), offsets@.len())
                    &&& forall|i: int|
                        0 <= i < v@.len() ==> dynamic_row(
                            discriminators@[i],
                            offsets@[i] as int,
                            total_types as nat,
                            column_views(columns@),
                        ) == Some((#[trigger] v@[i])@)
                },
                Err(e) => e == Error::DeserializeError(ReadReason::InvalidOffset) && exists|i: int|
                    0 <= i < shorter(discriminators@.len(), offsets@.len()) && dynamic_row(
                        #[trigger] discriminators@[i],
                        offsets@[i] as int,
                        total_types as nat,
                        column_views(columns@),
                    ) is None,
            },
    {
        let mut out: Vec<Value> = Vec::new();
        let mut i: usize = 0;
        while i < discriminators.len() && i < offsets.len()
            invariant
                i <= discriminators.len(),
                i <= offsets.len(),
                out@.len() == i,
                forall|j: int|
                    0 <= j < i ==> dynamic_row(
                        discriminators@[j],
                        offsets@[j] as int,
                        total_types as nat,
                        column_views(columns@),
                    ) == Some((#[trigger] out@[j])@),
            decreases discriminators.len() - i,
        {
            let disc: u64 = discriminators[i];
            let offset: usize = offsets[i];
            if disc == total_types {
                out.push(Value::Null);
            } else if disc < columns.len() as u64 && offset < columns[disc as usize].len() {
                let x = columns[disc as usize][offset].clone();
                assert(column_views(columns@)[disc as int][offset as int] == x@);
                out.push(x);
            } else {
                assert(dynamic_row(
                    discriminators@[i as int],
                    offset as int,
                    total_types as nat,
                    column_views(columns@),
                ) is None) by {
                    if disc < columns@.len() {
                        assert(column_views(columns@)[disc as int].len()
                            == columns@[disc as int]@.len());
                    }
                }
                return Err(Error::DeserializeError(ReadReason::InvalidOffset));
            }
            i += 1;
        }
        Ok(out)
    }

    /// Reads a column of values of the given types.
    pub fn read_data_flattened(reader: &mut &[u8], rows: usize, types: &Vec<Type>) -> (r: Result<
        Vec<Value>,
    >)
        ensures
            match r {
                Ok(v) => parsed_flattened(old(reader)@, rows as nat, type_views(types@)) == Ok::<
                    _,
                    Error,
                >((value_views(v@), final(reader)@)),
                Err(e) => parsed_flattened(old(reader)@, rows as nat, type_views(types@)) == Err::<
                    (Seq<ValueView>, Seq<u8>),
                    Error,
                >(e),
            },
    {
        let total: u64 = types.len() as u64;
        assert(type_views(types@).len() == total);
        let ds = match read_discriminators(reader, rows, total) {
            Ok(v) => v,
            Err(e) => return Err(e),
        };
        let (offsets, counts) = build_offsets(&ds, total);
        let columns = match read_type_columns(types, reader, &counts, Ghost(ds@)) {
            Ok(v) => v,
            Err(e) => return Err(e),
        };
        let ghost cols = column_views(columns@);
        proof {
            assert forall|i: int| 0 <= i < ds@.len() implies dynamic_row(
                #[trigger] ds@[i],
                rank(ds@, ds@[i], i) as int,
                total as nat,
                cols,
            ) == dynamic_row(ds@[i], offsets@[i] as int, total as nat, cols) by {
                assert(offsets@[i] == (if ds@[i] == total {
                    0
                } else {
                    rank(ds@, ds@[i], i)
                }));
            }
        }
        match DynamicDeserializer::reconstruct_values(&ds, &offsets, &columns, total) {
            Ok(v) => {
                proof {
                    assert forall|i: int| 0 <= i < ds@.len() implies dynamic_row(
                        #[trigger] ds@[i],
                        rank(ds@, ds@[i], i) as int,
                        total as nat,
                        cols,
                    ) is Some by {
                        assert(dynamic_row(ds@[i], offsets@[i] as int, total as nat, cols) == Some(
                            v@[i]@,
                        ));
                    }
                    assert(value_views(v@) =~= dynamic_rows(ds@, total as nat, cols));
                }
                Ok(v)
            },
            Err(e) => Err(e),
        }
    }

    /// Reads a column in the older versions.
    pub fn read_data_v1_v2(reader: &mut &[u8], rows: usize, types: &Vec<Type>) -> (r: Result<
        Vec<Value>,
    >)
        ensures
            match r {
                Ok(v) => parsed_v1_v2(old(reader)@, rows as nat, type_views(types@)) == Ok::<
                    _,
                    Error,
                >((value_views(v@), final(reader)@)),
                Err(e) => parsed_v1_v2(old(reader)@, rows as nat, type_views(types@)) == Err::<
                    (Seq<ValueView>, Seq<u8>),
                    Error,
                >(e),
            },
    {
        assert(type_views(types@).len() == types@.len());
        if types.len() > 256 {
            return Err(Error::DeserializeError(ReadReason::UnsupportedType));
        }
        let discriminators = match get_bytes(reader, rows) {
            Ok(b) => b,
            Err(e) => return Err(e),
        };
        let (offsets, counts) = VariantDeserializer::build_offsets_and_counts(&discriminators);
        let columns = match read_groups(types, reader, &counts, Ghost(discriminators@)) {
            Ok(c) => c,
            Err(e) => return Err(e),
        };
        let ghost cols = column_views(columns@);
        let ghost ds = discriminators@;
        proof {
            assert forall|i: int| 0 <= i < ds.len() implies row_value(
                #[trigger] ds[i],
                rank(ds, ds[i], i) as int,
                cols,
            ) == row_value(ds[i], offsets@[i] as int, cols) by {
                assert(offsets@[i] == (if ds[i] == NULL_DISCRIMINATOR {
                    0
                } else {
                    rank(ds, ds[i], i)
                }));
            }
        }
        match VariantDeserializer::reconstruct_values(&discriminators, &offsets, &columns) {
            Ok(v) => {
                proof {
                    assert forall|i: int| 0 <= i < ds.len() implies row_value(
                        #[trigger] ds[i],
                        rank(ds, ds[i], i) as int,
                        cols,
                    ) is Some by {
                        assert(row_value(ds[i], offsets@[i] as int, cols) == Some(v@[i]@));
                    }
                    assert(value_views(v@) =~= variant_rows(ds, cols));
                }
                Ok(v)
            },
            Err(e) => Err(e),
        }
    }

    /// Reads what stands before a column: the version and the types.
    pub fn read_types(reader: &mut &[u8]) -> (r: Result<DynamicState>)
        ensures
            match r {
                Ok(st) => st.version is Some && parsed_dynamic_prefix(old(reader)@) == Ok::<
                    _,
                    Error,
                >(((st.version->0, st@), final(reader)@)),
                Err(e) => parsed_dynamic_prefix(old(reader)@) == Err::<
                    ((u64, Seq<(Seq<char>, TypeView)>), Seq<u8>),
                    Error,
                >(e),
            },
    {
        let version: u64 = match get_u64_le(reader) {
            Ok(v) => v,
            Err(e) => return Err(e),
        };
        let types = if version == DYNAMIC_VERSION_FLATTENED {
            read_types_flattened(reader)
        } else if version == DYNAMIC_VERSION_V1 || version == DYNAMIC_VERSION_V2 {
            read_types_v1_v2(reader, version)
        } else {
            Err(Error::DeserializeError(ReadReason::UnsupportedVersion))
        };
        match types {
            Ok(types) => Ok(DynamicState { version: Some(version), types }),
            Err(e) => Err(e),
        }
    }

    /// Reads a column of values whose types are known.
    pub fn read_values(reader: &mut &[u8], rows: usize, dynamic_state: &DynamicState) -> (r: Result<
        Vec<Value>,
    >)
        ensures
            match r {
                Ok(v) => parsed_dynamic(
                    old(reader)@,
                    rows as nat,
                    dynamic_state.version,
                    dynamic_state@,
                ) == Ok::<_, Error>((value_views(v@), final(reader)@)),
                Err(e) => parsed_dynamic(
                    old(reader)@,
                    rows as nat,
                    dynamic_state.version,
                    dynamic_state@,
                ) == Err::<(Seq<ValueView>, Seq<u8>), Error>(e),
            },
    {
        let version: u64 = match dynamic_state.version {
            Some(v) => v,
            None => DYNAMIC_VERSION_FLATTENED,
        };
        let types = types_of_fields(&dynamic_state.types);
        if version == DYNAMIC_VERSION_FLATTENED {
            DynamicDeserializer::read_data_flattened(reader, rows, &types)
        } else if version == DYNAMIC_VERSION_V1 || version == DYNAMIC_VERSION_V2 {
            DynamicDeserializer::read_data_v1_v2(reader, rows, &types)
        } else {
            Err(Error::DeserializeError(ReadReason::UnsupportedVersion))
        }
    }

    /// Reads what stands before a column, and keeps what it tells.
    pub fn read_prefix(reader: &mut &[u8], state: &mut DeserializerState) -> (r: Result<()>)
        ensures
            match r {
                Ok(()) => match final(state).type_specific {
                    TypeSpecificState::Dynamic(st) => st.version is Some && parsed_dynamic_prefix(
                        old(reader)@,
                    ) == Ok::<_, Error>(((st.version->0, st@), final(reader)@)),
                    _ => false,
                },
                Err(e) => {
                    &&& parsed_dynamic_prefix(old(reader)@) == Err::<
                        ((u64, Seq<(Seq<char>, TypeView)>), Seq<u8>),
                        Error,
                    >(e)
                    &&& final(state).type_specific == old(state).type_specific
                },
            },
            final(state).kind_plan == old(state).kind_plan,
            final(state).sparse == old(state).sparse,
    {
        match DynamicDeserializer::read_types(reader) {
            Ok(st) => {
                state.type_specific = TypeSpecificState::Dynamic(st);
                Ok(())
            },
            Err(e) => Err(e),
        }
    }

    /// Reads a column, if what stands before it has told its types.
    pub fn read(reader: &mut &[u8], rows: usize, state: &DeserializerState) -> (r: Result<
        Vec<Value>,
    >)
        ensures
            match state.type_specific {
                TypeSpecificState::Dynamic(st) => match r {
                    Ok(v) => parsed_dynamic(old(reader)@, rows as nat, st.version, st@) == Ok::<
                        _,
                        Error,
                    >((value_views(v@), final(reader)@)),
                    Err(e) => parsed_dynamic(old(reader)@, rows as nat, st.version, st@) == Err::<
                        (Seq<ValueView>, Seq<u8>),
                        Error,
                    >(e),
                },
                _ => r is Err && r->Err_0 == Error::DeserializeError(ReadReason::StateNotSet),
            },
    {
        match &state.type_specific {
            TypeSpecificState::Dynamic(st) => DynamicDeserializer::read_values(reader, rows, st),
            _ => Err(Error::DeserializeError(ReadReason::StateNotSet)),
        }
    }
}

} // verus!
