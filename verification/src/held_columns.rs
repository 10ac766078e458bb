//! Columns of types that hold columns of any values, or of documents, below others.
use vstd::prelude::*;

use crate::column_read::{
    all_found, apply_mask, array_rows, ascending, build_arrays, build_maps, build_tuples, child,
    map_rows, masked, no_plan, parsed_column, parsed_offsets, reach, reach_of, read_as,
    read_offsets, tuple_rows, variant_rows, DeserializerState, KindPlan, States,
};
use crate::columns::{
    column_bytes, column_of, field_types, followed, join_rows, joined_rows, lemma_fields_size,
    lemma_map_rows, lemma_sorted_size, lemma_wrote, map_values, mask_bytes, offset_bytes,
    pick_column, put_mask, put_offsets, rows_of, split_map_values, split_rows, type_size,
    types_of_fields, types_size, wrap_elements, wrapped, wrote, Written,
};
use crate::dynamic::{
    dynamic_bytes, dynamic_prefix, server_too_old, takes_complex_types, DynamicSerializer,
};
use crate::dynamic_read::{parsed_dynamic, parsed_dynamic_prefix, DynamicDeserializer};
use crate::error::{ComplexType, Error, ReadReason, Result, WriteReason};
use crate::json_columns::{JsonParts, JsonSerializer, JSON_OBJECT_VERSION_FLATTENED};
use crate::json_documents::parsed_json;
use crate::json_read::{parsed_json_prefix, Entries, JsonDeserializer, LayoutView};
use crate::json_write::{emptied, json_bytes, json_prefix, written_version};
use crate::prefixes::{parsed_prefix, prefix_bytes, VARIANT_VERSION};
use crate::sparse::SparseRuntime;
use crate::state::{SerializerState, TypeSpecificState};
use crate::types::{field_views, type_views, Type, TypeView};
use crate::values::{value_views, Value, ValueView};
use crate::type_order::sorted_types;
use crate::variant::{
    all_variants, column_views, discriminators_of, group_of, is_variant_ok, rank, row_value,
    variant_ok, DiscriminatorMap, VariantDeserializer, VariantSerializer, NULL_DISCRIMINATOR,
};
use crate::wire::{
    get_bytes, get_u64_le, le_bytes, parsed_bytes, parsed_uint, put_bytes, put_u64_le, Parsed,
};

verus! {

/// What is known of the columns that a type holds.
pub ghost enum Held {
    Nothing,
    Dynamic(Option<u64>, Entries),
    Json(JsonParts),
    Layout(LayoutView),
}

/// The model of what is known.
pub open spec fn held(st: TypeSpecificState) -> Held {
    match st {
        TypeSpecificState::Nothing => Held::Nothing,
        TypeSpecificState::Dynamic(d) => Held::Dynamic(d.version, d@),
        TypeSpecificState::Json(j) => Held::Json(j@),
        TypeSpecificState::JsonLayout(l) => Held::Layout(l@),
    }
}

/// Whether a type holds a column of any values, or of documents.
pub open spec fn holds(t: TypeView) -> bool
    decreases type_size(t), 0nat,
{
    match t {
        TypeView::Dynamic { .. } | TypeView::JSON { .. } => true,
        TypeView::Array(inner) => holds(*inner),
        TypeView::Nullable(inner) => holds(*inner),
        TypeView::MapOf(k, x) => holds(*k) || holds(*x),
        TypeView::Tuple(ts) => any_holds(ts),
        TypeView::TupleNamed(fs) => if types_size(field_types(fs)) >= type_size(t) {
            arbitrary()
        } else {
            any_holds(field_types(fs))
        },
        TypeView::Variant(ts) => any_holds(ts),
        _ => false,
    }
}

/// Whether one of several types does.
pub open spec fn any_holds(ts: Seq<TypeView>) -> bool
    decreases types_size(ts), 0nat,
{
    ts.len() > 0 && (holds(ts[0]) || any_holds(ts.subrange(1, ts.len() as int)))
}

// ---------------------------------------------------------------------------
// What stands before columns
// ---------------------------------------------------------------------------

/// What is written before a column, with what is known of the columns that it holds.
pub open spec fn held_prefix(t: TypeView, h: Held, server: Option<(u64, u64, u64)>) -> Written
    decreases type_size(t), 0nat,
{
    match t {
        TypeView::Dynamic { .. } => if !takes_complex_types(server) {
            Err(server_too_old(ComplexType::Dynamic, server))
        } else {
            match h {
                Held::Dynamic(_, entries) => dynamic_prefix(entries),
                _ => Err(Error::SerializeError(WriteReason::StateNotSet)),
            }
        },
        TypeView::JSON { .. } => match h {
            Held::Json(p) => if written_version(p.version) == JSON_OBJECT_VERSION_FLATTENED
                && !takes_complex_types(server) {
                Err(server_too_old(ComplexType::Json, server))
            } else {
                json_prefix(p)
            },
            _ => Err(
                if takes_complex_types(server) {
                    Error::SerializeError(WriteReason::StateNotSet)
                } else {
                    server_too_old(ComplexType::Json, server)
                },
            ),
        },
        TypeView::Array(inner) => held_prefix(*inner, h, server),
        TypeView::Nullable(inner) => held_prefix(*inner, h, server),
        TypeView::MapOf(k, x) => followed(
            held_prefix(*k, h, server),
            held_prefix(*x, h, server),
        ),
        TypeView::Tuple(ts) => held_prefixes(ts, h, server),
        TypeView::TupleNamed(fs) => if types_size(field_types(fs)) >= type_size(t) {
            arbitrary()
        } else {
            held_prefixes(field_types(fs), h, server)
        },
        TypeView::Variant(ts) => followed(
            Ok(le_bytes(VARIANT_VERSION as nat, 8)),
            held_prefixes(ts, h, server),
        ),
        _ => prefix_bytes(t),
    }
}

/// What is written before columns of several types.
pub open spec fn held_prefixes(
    ts: Seq<TypeView>,
    h: Held,
    server: Option<(u64, u64, u64)>,
) -> Written
    decreases types_size(ts), 0nat,
{
    if ts.len() == 0 {
        Ok(Seq::empty())
    } else {
        followed(
            held_prefix(ts[0], h, server),
            held_prefixes(ts.subrange(1, ts.len() as int), h, server),
        )
    }
}

/// Reads what stands before a column, and what it tells of the columns that it holds.
pub open spec fn parsed_held_prefix(s: Seq<u8>, t: TypeView, h: Held) -> Parsed<Held>
    decreases type_size(t), 0nat,
{
    match t {
        TypeView::Dynamic { .. } => match parsed_dynamic_prefix(s) {
            Err(e) => Err(e),
            Ok(((version, entries), rest)) => Ok((Held::Dynamic(Some(version), entries), rest)),
        },
        TypeView::JSON { .. } => match parsed_json_prefix(s, t) {
            Err(e) => Err(e),
            Ok((layout, rest)) => Ok((Held::Layout(layout), rest)),
        },
        TypeView::Array(inner) => parsed_held_prefix(s, *inner, h),
        TypeView::Nullable(inner) => parsed_held_prefix(s, *inner, h),
        TypeView::MapOf(k, x) => match parsed_held_prefix(s, *k, h) {
            Err(e) => Err(e),
            Ok((next, rest)) => parsed_held_prefix(rest, *x, next),
        },
        TypeView::Tuple(ts) => parsed_held_prefixes(s, ts, h),
        TypeView::TupleNamed(fs) => if types_size(field_types(fs)) >= type_size(t) {
            arbitrary()
        } else {
            parsed_held_prefixes(s, field_types(fs), h)
        },
        TypeView::Variant(ts) => match parsed_uint(s, 8) {
            Err(e) => Err(e),
            Ok((version, rest)) => if version == VARIANT_VERSION {
                parsed_held_prefixes(rest, ts, h)
            } else {
                Err(Error::DeserializeError(ReadReason::UnsupportedVersion))
            },
        },
        _ => match parsed_prefix(s, t) {
            Err(e) => Err(e),
            Ok((_, rest)) => Ok((h, rest)),
        },
    }
}

/// Reads what stands before columns of several types.
pub open spec fn parsed_held_prefixes(s: Seq<u8>, ts: Seq<TypeView>, h: Held) -> Parsed<Held>
    decreases types_size(ts), 0nat,
{
    if ts.len() == 0 {
        Ok((h, s))
    } else {
        match parsed_held_prefix(s, ts[0], h) {
            Err(e) => Err(e),
            Ok((next, rest)) => parsed_held_prefixes(rest, ts.subrange(1, ts.len() as int), next),
        }
    }
}

impl Type {
    /// Appends what stands before a column of this type, with what is known of the columns
    /// that it holds.
    pub fn serialize_prefix(&self, writer: &mut Vec<u8>, state: &SerializerState) -> (r: Result<()>)
        ensures
            wrote(
                old(writer)@,
                final(writer)@,
                r,
                held_prefix(self@, held(state.type_specific), state.server_version),
            ),
        decreases type_size(self@), 1nat,
    {
        proof {
            self.lemma_view();
        }
        let ghost start = writer@;
        let ghost h = held(state.type_specific);
        let ghost server = state.server_version;
        match self {
            Type::Dynamic { .. } => DynamicSerializer::write_prefix_sync(writer, state),
            Type::JSON { .. } => JsonSerializer::write_known_prefix(writer, state),
            Type::Array(inner) | Type::Nullable(inner) => inner.serialize_prefix(writer, state),
            Type::MapOf(k, x) => {
                match k.serialize_prefix(writer, state) {
                    Ok(()) => {},
                    Err(e) => return Err(e),
                }
                let ghost mid = writer@;
                let r = x.serialize_prefix(writer, state);
                proof {
                    lemma_wrote(
                        start,
                        mid,
                        writer@,
                        r,
                        held_prefix(k@, h, server),
                        held_prefix(x@, h, server),
                    );
                }
                r
            },
            Type::Tuple(ts) => write_held_prefixes(ts, writer, state),
            Type::TupleNamed(fs) => {
                proof {
                    lemma_fields_size(field_views(fs@));
                }
                let ts = types_of_fields(fs);
                write_held_prefixes(&ts, writer, state)
            },
            Type::Variant(ts) => {
                put_u64_le(writer, VARIANT_VERSION);
                let ghost mid = writer@;
                let r = write_held_prefixes(ts, writer, state);
                proof {
                    lemma_wrote(
                        start,
                        mid,
                        writer@,
                        r,
                        Ok(le_bytes(VARIANT_VERSION as nat, 8)),
                        held_prefixes(type_views(ts@), h, server),
                    );
                }
                r
            },
            _ => self.serialize_plain_prefix(writer),
        }
    }

    /// Reads what stands before a column of this type, and what it tells of the columns
    /// that it holds.
    pub fn deserialize_prefix(&self, reader: &mut &[u8], state: &mut DeserializerState)
        -> (r: Result<()>)
        ensures
            match r {
                Ok(()) => parsed_held_prefix(
                    old(reader)@,
                    self@,
                    held(old(state).type_specific),
                ) == Ok::<_, Error>((held(final(state).type_specific), final(reader)@)),
                Err(e) => parsed_held_prefix(
                    old(reader)@,
                    self@,
                    held(old(state).type_specific),
                ) == Err::<(Held, Seq<u8>), Error>(e),
            },
            final(state).kind_plan == old(state).kind_plan,
            final(state).sparse == old(state).sparse,
        decreases type_size(self@), 1nat,
    {
        proof {
            self.lemma_view();
        }
        match self {
            Type::Dynamic { .. } => DynamicDeserializer::read_prefix(reader, state),
            Type::JSON { .. } => JsonDeserializer::read_prefix(self, reader, state),
            Type::Array(inner) | Type::Nullable(inner) => inner.deserialize_prefix(reader, state),
            Type::MapOf(k, x) => {
                match k.deserialize_prefix(reader, state) {
                    Ok(()) => {},
                    Err(e) => return Err(e),
                }
                x.deserialize_prefix(reader, state)
            },
            Type::Tuple(ts) => read_held_prefixes(ts, reader, state),
            Type::TupleNamed(fs) => {
                proof {
                    lemma_fields_size(field_views(fs@));
                }
                let ts = types_of_fields(fs);
                read_held_prefixes(&ts, reader, state)
            },
            Type::Variant(ts) => match get_u64_le(reader) {
                Err(e) => Err(e),
                Ok(version) => if version == VARIANT_VERSION {
                    read_held_prefixes(ts, reader, state)
                } else {
                    Err(Error::DeserializeError(ReadReason::UnsupportedVersion))
                },
            },
            _ => self.deserialize_plain_prefix(reader),
        }
    }
}

fn write_held_prefixes(ts: &Vec<Type>, writer: &mut Vec<u8>, state: &SerializerState)
    -> (r: Result<()>)
    ensures
        wrote(
            old(writer)@,
            final(writer)@,
            r,
            held_prefixes(type_views(ts@), held(state.type_specific), state.server_version),
        ),
    decreases types_size(type_views(ts@)), 1nat,
{
    let ghost all = type_views(ts@);
    let ghost start = writer@;
    let ghost h = held(state.type_specific);
    let ghost server = state.server_version;
    let mut i: usize = 0;
    proof {
        assert(all.subrange(0, all.len() as int) =~= all);
    }
    while i < ts.len()
        invariant
            i <= ts.len(),
            all == type_views(ts@),
            h == held(state.type_specific),
            server == state.server_version,
            types_size(all.subrange(i as int, all.len() as int)) <= types_size(all),
            match held_prefixes(all.subrange(i as int, all.len() as int), h, server) {
                Err(e) => held_prefixes(all, h, server) == Err::<Seq<u8>, Error>(e),
                Ok(b) => held_prefixes(all, h, server) is Ok && start + held_prefixes(
                    all,
                    h,
                    server,
                )->Ok_0 == writer@ + b,
            },
        decreases ts.len() - i,
    {
        let ghost before = writer@;
        let ghost here = all.subrange(i as int, all.len() as int);
        proof {
            assert(here[0] == ts@[i as int]@);
            assert(here.subrange(1, here.len() as int) =~= all.subrange(i + 1, all.len() as int));
        }
        match ts[i].serialize_prefix(writer, state) {
            Ok(()) => {},
            Err(e) => return Err(e),
        }
        proof {
            let w = held_prefix(ts@[i as int]@, h, server);
            if let Ok(b) = held_prefixes(all.subrange(i + 1, all.len() as int), h, server) {
                assert(before + (w->Ok_0 + b) =~= writer@ + b);
            }
        }
        i += 1;
    }
    assert(writer@ + Seq::<u8>::empty() =~= writer@);
    Ok(())
}

pub(crate) fn read_held_prefixes(ts: &Vec<Type>, reader: &mut &[u8], state: &mut DeserializerState)
    -> (r: Result<()>)
    ensures
        match r {
            Ok(()) => parsed_held_prefixes(
                old(reader)@,
                type_views(ts@),
                held(old(state).type_specific),
            ) == Ok::<_, Error>((held(final(state).type_specific), final(reader)@)),
            Err(e) => parsed_held_prefixes(
                old(reader)@,
                type_views(ts@),
                held(old(state).type_specific),
            ) == Err::<(Held, Seq<u8>), Error>(e),
        },
        final(state).kind_plan == old(state).kind_plan,
        final(state).sparse == old(state).sparse,
    decreases types_size(type_views(ts@)), 1nat,
{
    let ghost all = type_views(ts@);
    let mut i: usize = 0;
    proof {
        assert(all.subrange(0, all.len() as int) =~= all);
    }
    while i < ts.len()
        invariant
            i <= ts.len(),
            all == type_views(ts@),
            types_size(all.subrange(i as int, all.len() as int)) <= types_size(all),
            state.kind_plan == old(state).kind_plan,
            state.sparse == old(state).sparse,
            parsed_held_prefixes(old(reader)@, all, held(old(state).type_specific))
                == parsed_held_prefixes(
                reader@,
                all.subrange(i as int, all.len() as int),
                held(state.type_specific),
            ),
        decreases ts.len() - i,
    {
        let ghost here = all.subrange(i as int, all.len() as int);
        proof {
            assert(here[0] == ts@[i as int]@);
            assert(here.subrange(1, here.len() as int) =~= all.subrange(i + 1, all.len() as int));
        }
        match ts[i].deserialize_prefix(reader, state) {
            Ok(()) => {},
            Err(e) => return Err(e),
        }
        i += 1;
    }
    Ok(())
}

// ---------------------------------------------------------------------------
// Writing
// ---------------------------------------------------------------------------

/// What is known once a column was written: the columns of documents are taken out.
#[verifier::opaque]
pub open spec fn left(t: TypeView, vs: Seq<ValueView>, h: Held) -> Held
    decreases type_size(t), 0nat,
{
    if !holds(t) {
        h
    } else {
        match t {
            TypeView::JSON { .. } => match h {
                Held::Json(p) => Held::Json(emptied(p)),
                _ => h,
            },
            TypeView::Array(inner) => match rows_of(t, vs) {
                Err(_) => h,
                Ok(rows) => match wrapped(*inner, joined_rows(rows)) {
                    Err(_) => h,
                    Ok(items) => left(*inner, items, h),
                },
            },
            TypeView::Nullable(inner) => left(*inner, vs, h),
            TypeView::MapOf(k, x) => match rows_of(t, vs) {
                Err(_) => h,
                Ok(rows) => left(
                    *x,
                    joined_rows(map_values(vs)),
                    left(*k, joined_rows(rows), h),
                ),
            },
            TypeView::Tuple(ts) => match rows_of(t, vs) {
                Err(_) => h,
                Ok(rows) => left_fields(ts, rows, 0, h),
            },
            TypeView::TupleNamed(fs) => if types_size(field_types(fs)) >= type_size(t) {
                arbitrary()
            } else {
                match rows_of(t, vs) {
                    Err(_) => h,
                    Ok(rows) => left_fields(field_types(fs), rows, 0, h),
                }
            },
            TypeView::Variant(ts) => if types_size(sorted_types(ts)) >= type_size(t) {
                arbitrary()
            } else {
                left_groups(sorted_types(ts), vs, 0, h)
            },
            _ => h,
        }
    }
}

/// What is known once the columns of the fields of tuples were written, from the field
/// `k` on.
pub open spec fn left_fields(
    ts: Seq<TypeView>,
    rows: Seq<Seq<ValueView>>,
    k: nat,
    h: Held,
) -> Held
    decreases types_size(ts), 0nat,
{
    if ts.len() == 0 {
        h
    } else {
        left_fields(
            ts.subrange(1, ts.len() as int),
            rows,
            k + 1,
            left(ts[0], column_of(rows, k), h),
        )
    }
}

/// What is known once the columns of the types of a variant were written, from the
/// discriminator `d` on.
pub open spec fn left_groups(ts: Seq<TypeView>, vs: Seq<ValueView>, d: nat, h: Held) -> Held
    decreases types_size(ts), 0nat,
{
    if ts.len() == 0 {
        h
    } else {
        left_groups(
            ts.subrange(1, ts.len() as int),
            vs,
            d + 1,
            left_group(ts[0], vs, d, h),
        )
    }
}

/// What is known once the column of one type of a variant was written, if it has rows.
pub open spec fn left_group(t: TypeView, vs: Seq<ValueView>, d: nat, h: Held) -> Held
    decreases type_size(t), 1nat,
{
    if d == NULL_DISCRIMINATOR || group_of(vs, d as u8).len() == 0 {
        h
    } else {
        left(t, group_of(vs, d as u8), h)
    }
}

/// The bytes of a column, with what is known of the columns that it holds.
#[verifier::opaque]
pub open spec fn held_bytes(t: TypeView, vs: Seq<ValueView>, h: Held) -> Written
    decreases type_size(t), 0nat,
{
    if !holds(t) {
        column_bytes(t, vs)
    } else {
        match t {
            TypeView::Dynamic { .. } => match h {
                Held::Dynamic(_, entries) => dynamic_bytes(vs, entries),
                _ => Err(Error::SerializeError(WriteReason::StateNotSet)),
            },
            TypeView::JSON { .. } => match h {
                Held::Json(p) => json_bytes(p),
                _ => Err(Error::SerializeError(WriteReason::StateNotSet)),
            },
            TypeView::Array(inner) => match rows_of(t, vs) {
                Err(e) => Err(e),
                Ok(rows) => if joined_rows(rows).len() > usize::MAX {
                    Err(Error::SerializeError(WriteReason::Overflow))
                } else {
                    match wrapped(*inner, joined_rows(rows)) {
                        Err(e) => Err(e),
                        Ok(items) => followed(
                            Ok(offset_bytes(rows)),
                            held_bytes(*inner, items, h),
                        ),
                    }
                },
            },
            TypeView::Nullable(inner) => followed(Ok(mask_bytes(vs)), held_bytes(*inner, vs, h)),
            TypeView::MapOf(k, x) => match rows_of(t, vs) {
                Err(e) => Err(e),
                Ok(rows) => if joined_rows(rows).len() > usize::MAX {
                    Err(Error::SerializeError(WriteReason::Overflow))
                } else {
                    followed(
                        Ok(offset_bytes(rows)),
                        followed(
                            held_bytes(*k, joined_rows(rows), h),
                            held_bytes(
                                *x,
                                joined_rows(map_values(vs)),
                                left(*k, joined_rows(rows), h),
                            ),
                        ),
                    )
                },
            },
            TypeView::Tuple(ts) => match rows_of(t, vs) {
                Err(e) => Err(e),
                Ok(rows) => held_fields(ts, rows, 0, h),
            },
            TypeView::TupleNamed(fs) => if types_size(field_types(fs)) >= type_size(t) {
                arbitrary()
            } else {
                match rows_of(t, vs) {
                    Err(e) => Err(e),
                    Ok(rows) => held_fields(field_types(fs), rows, 0, h),
                }
            },
            TypeView::Variant(ts) => if !variant_ok(ts) {
                Err(Error::SerializeError(WriteReason::UnsupportedValue))
            } else if !all_variants(vs) {
                Err(Error::SerializeError(WriteReason::ExpectedVariant))
            } else if types_size(sorted_types(ts)) >= type_size(t) {
                arbitrary()
            } else {
                followed(Ok(discriminators_of(vs)), held_groups(sorted_types(ts), vs, 0, h))
            },
            _ => arbitrary(),
        }
    }
}

/// The bytes of the columns of the fields of tuples, from the field `k` on.
pub open spec fn held_fields(
    ts: Seq<TypeView>,
    rows: Seq<Seq<ValueView>>,
    k: nat,
    h: Held,
) -> Written
    decreases types_size(ts), 0nat,
{
    if ts.len() == 0 {
        Ok(Seq::empty())
    } else {
        followed(
            held_bytes(ts[0], column_of(rows, k), h),
            held_fields(
                ts.subrange(1, ts.len() as int),
                rows,
                k + 1,
                left(ts[0], column_of(rows, k), h),
            ),
        )
    }
}

/// The bytes of the columns of the types of a variant, from the discriminator `d` on. A
/// type without a row has none.
pub open spec fn held_groups(ts: Seq<TypeView>, vs: Seq<ValueView>, d: nat, h: Held) -> Written
    decreases types_size(ts), 0nat,
{
    if ts.len() == 0 {
        Ok(Seq::empty())
    } else {
        followed(
            held_group(ts[0], vs, d, h),
            held_groups(
                ts.subrange(1, ts.len() as int),
                vs,
                d + 1,
                left_group(ts[0], vs, d, h),
            ),
        )
    }
}

/// The bytes of the column of one type of a variant, if it has rows.
pub open spec fn held_group(t: TypeView, vs: Seq<ValueView>, d: nat, h: Held) -> Written
    decreases type_size(t), 1nat,
{
    if d == NULL_DISCRIMINATOR || group_of(vs, d as u8).len() == 0 {
        Ok(Seq::empty())
    } else {
        held_bytes(t, group_of(vs, d as u8), h)
    }
}

fn type_holds(t: &Type) -> (r: bool)
    ensures
        r == holds(t@),
    decreases type_size(t@), 1nat,
{
    proof {
        t.lemma_view();
    }
    match t {
        Type::Dynamic { .. } | Type::JSON { .. } => true,
        Type::Array(inner) | Type::Nullable(inner) => type_holds(inner),
        Type::MapOf(k, x) => type_holds(k) || type_holds(x),
        Type::Tuple(ts) => types_hold(ts),
        Type::TupleNamed(fs) => {
            proof {
                lemma_fields_size(field_views(fs@));
            }
            let ts = types_of_fields(fs);
            types_hold(&ts)
        },
        Type::Variant(ts) => types_hold(ts),
        _ => false,
    }
}

fn types_hold(ts: &Vec<Type>) -> (r: bool)
    ensures
        r == any_holds(type_views(ts@)),
    decreases types_size(type_views(ts@)), 1nat,
{
    let ghost all = type_views(ts@);
    let mut i: usize = 0;
    proof {
        assert(all.subrange(0, all.len() as int) =~= all);
    }
    while i < ts.len()
        invariant
            i <= ts.len(),
            all == type_views(ts@),
            types_size(all.subrange(i as int, all.len() as int)) <= types_size(all),
            any_holds(all) == any_holds(all.subrange(i as int, all.len() as int)),
        decreases ts.len() - i,
    {
        let ghost here = all.subrange(i as int, all.len() as int);
        proof {
            assert(here[0] == ts@[i as int]@);
            assert(here.subrange(1, here.len() as int) =~= all.subrange(i + 1, all.len() as int));
        }
        if type_holds(&ts[i]) {
            return true;
        }
        i += 1;
    }
    false
}

impl Type {
    /// Appends the column of values of this type, with what is known of the columns that it
    /// holds. The columns of documents are taken out as they are written.
    pub fn serialize_column(
        &self,
        values: &Vec<Value>,
        writer: &mut Vec<u8>,
        state: &mut SerializerState,
    ) -> (r: Result<()>)
        ensures
            wrote(
                old(writer)@,
                final(writer)@,
                r,
                held_bytes(self@, value_views(values@), held(old(state).type_specific)),
            ),
            final(state).server_version == old(state).server_version,
            r is Ok ==> held(final(state).type_specific) == left(
                self@,
                value_views(values@),
                held(old(state).type_specific),
            ),
        decreases type_size(self@), 1nat,
    {
        proof {
            reveal(held_bytes);
            reveal(left);
        }
        proof {
            self.lemma_view();
        }
        if !type_holds(self) {
            return self.serialize_plain_column(values, writer);
        }
        let ghost h = held(state.type_specific);
        match self {
            Type::Dynamic { .. } => DynamicSerializer::write_sync(values, writer, state),
            Type::JSON { .. } => JsonSerializer::write(writer, state),
            Type::Array(inner) => write_held_array(self, inner, values, writer, state),
            Type::Nullable(inner) => {
                let ghost start = writer@;
                put_mask(writer, values);
                let ghost mid = writer@;
                let r = inner.serialize_column(values, writer, state);
                proof {
                    let all = value_views(values@);
                    lemma_wrote(
                        start,
                        mid,
                        writer@,
                        r,
                        Ok(mask_bytes(all)),
                        held_bytes(inner@, all, h),
                    );
                }
                r
            },
            Type::MapOf(k, x) => write_held_map(self, k, x, values, writer, state),
            Type::Tuple(ts) => {
                let rows = match split_rows(self, values) {
                    Ok(rows) => rows,
                    Err(e) => return Err(e),
                };
                write_held_fields(ts, &rows, writer, state)
            },
            Type::TupleNamed(fs) => {
                proof {
                    lemma_fields_size(field_views(fs@));
                }
                let rows = match split_rows(self, values) {
                    Ok(rows) => rows,
                    Err(e) => return Err(e),
                };
                let ts = types_of_fields(fs);
                write_held_fields(&ts, &rows, writer, state)
            },
            Type::Variant(ts) => write_held_variant(self, ts, values, writer, state),
            _ => {
                assert(false);
                Ok(())
            },
        }
    }
}

fn write_held_array(
    t: &Type,
    inner: &Type,
    values: &Vec<Value>,
    writer: &mut Vec<u8>,
    state: &mut SerializerState,
) -> (r: Result<()>)
    requires
        t@ == TypeView::Array(Box::new(inner@)),
        holds(t@),
    ensures
        wrote(
            old(writer)@,
            final(writer)@,
            r,
            held_bytes(t@, value_views(values@), held(old(state).type_specific)),
        ),
        final(state).server_version == old(state).server_version,
        r is Ok ==> held(final(state).type_specific) == left(
            t@,
            value_views(values@),
            held(old(state).type_specific),
        ),
    decreases type_size(t@), 0nat,
{
    proof {
        reveal(held_bytes);
        reveal(left);
    }
    let ghost h = held(state.type_specific);
    let rows = match split_rows(t, values) {
        Ok(rows) => rows,
        Err(e) => return Err(e),
    };
    let items = match join_rows(&rows) {
        Some(v) => v,
        None => return Err(Error::SerializeError(WriteReason::Overflow)),
    };
    let ghost start = writer@;
    put_offsets(writer, &rows);
    let ghost mid = writer@;
    let wrapped_items = match wrap_elements(inner, items) {
        Ok(v) => v,
        Err(e) => return Err(e),
    };
    let r = inner.serialize_column(&wrapped_items, writer, state);
    proof {
        lemma_wrote(
            start,
            mid,
            writer@,
            r,
            Ok(offset_bytes(column_views(rows@))),
            held_bytes(inner@, value_views(wrapped_items@), h),
        );
    }
    r
}

fn write_held_map(
    t: &Type,
    key: &Type,
    value: &Type,
    values: &Vec<Value>,
    writer: &mut Vec<u8>,
    state: &mut SerializerState,
) -> (r: Result<()>)
    requires
        t@ == TypeView::MapOf(Box::new(key@), Box::new(value@)),
        holds(t@),
    ensures
        wrote(
            old(writer)@,
            final(writer)@,
            r,
            held_bytes(t@, value_views(values@), held(old(state).type_specific)),
        ),
        final(state).server_version == old(state).server_version,
        r is Ok ==> held(final(state).type_specific) == left(
            t@,
            value_views(values@),
            held(old(state).type_specific),
        ),
    decreases type_size(t@), 0nat,
{
    proof {
        reveal(held_bytes);
        reveal(left);
    }
    let ghost h = held(state.type_specific);
    let ghost all = value_views(values@);
    let rows = match split_rows(t, values) {
        Ok(rows) => rows,
        Err(e) => return Err(e),
    };
    let keys = match join_rows(&rows) {
        Some(v) => v,
        None => return Err(Error::SerializeError(WriteReason::Overflow)),
    };
    proof {
        lemma_map_rows(t@, all);
        assert forall|i: int| 0 <= i < values@.len() implies (#[trigger] values@[i])@ is MapOf by {
            assert(all[i] is MapOf);
        }
    }
    let value_rows = split_map_values(values);
    let ghost start = writer@;
    put_offsets(writer, &rows);
    let ghost mid = writer@;
    match key.serialize_column(&keys, writer, state) {
        Ok(()) => {},
        Err(e) => return Err(e),
    }
    let ghost mid2 = writer@;
    let map_items = match join_rows(&value_rows) {
        Some(v) => v,
        None => {
            assert(false);
            return Err(Error::SerializeError(WriteReason::Overflow));
        },
    };
    let r = value.serialize_column(&map_items, writer, state);
    proof {
        let w1 = held_bytes(key@, joined_rows(column_views(rows@)), h);
        let w2 = held_bytes(
            value@,
            joined_rows(map_values(all)),
            left(key@, joined_rows(column_views(rows@)), h),
        );
        lemma_wrote(mid, mid2, writer@, r, w1, w2);
        lemma_wrote(
            start,
            mid,
            writer@,
            r,
            Ok(offset_bytes(column_views(rows@))),
            followed(w1, w2),
        );
    }
    r
}

/// What writing the columns of fields comes to, one column after the other.
pub(crate) proof fn lemma_held_fields_step(
    ts: Seq<TypeView>,
    rows: Seq<Seq<ValueView>>,
    k: nat,
    h: Held,
)
    requires
        ts.len() > 0,
    ensures
        held_fields(ts, rows, k, h) == followed(
            held_bytes(ts[0], column_of(rows, k), h),
            held_fields(
                ts.subrange(1, ts.len() as int),
                rows,
                k + 1,
                left(ts[0], column_of(rows, k), h),
            ),
        ),
        left_fields(ts, rows, k, h) == left_fields(
            ts.subrange(1, ts.len() as int),
            rows,
            k + 1,
            left(ts[0], column_of(rows, k), h),
        ),
        type_size(ts[0]) <= types_size(ts),
        types_size(ts.subrange(1, ts.len() as int)) <= types_size(ts),
{
    reveal(held_bytes);
    reveal(left);
}

#[verifier::spinoff_prover]
#[verifier::rlimit(80)]
fn write_held_fields(
    ts: &Vec<Type>,
    rows: &Vec<Vec<Value>>,
    writer: &mut Vec<u8>,
    state: &mut SerializerState,
) -> (r: Result<()>)
    ensures
        wrote(
            old(writer)@,
            final(writer)@,
            r,
            held_fields(type_views(ts@), column_views(rows@), 0, held(old(state).type_specific)),
        ),
        final(state).server_version == old(state).server_version,
        r is Ok ==> held(final(state).type_specific) == left_fields(
            type_views(ts@),
            column_views(rows@),
            0,
            held(old(state).type_specific),
        ),
    decreases types_size(type_views(ts@)), 1nat,
{
    let ghost all = type_views(ts@);
    let ghost rv = column_views(rows@);
    let ghost h = held(state.type_specific);
    let ghost server = state.server_version;
    let ghost start = writer@;
    let mut i: usize = 0;
    proof {
        assert(all.subrange(0, all.len() as int) =~= all);
    }
    while i < ts.len()
        invariant
            i <= ts.len(),
            all == type_views(ts@),
            rv == column_views(rows@),
            h == held(old(state).type_specific),
            server == old(state).server_version,
            server == state.server_version,
            left_fields(all, rv, 0, h) == left_fields(
                all.subrange(i as int, all.len() as int),
                rv,
                i as nat,
                held(state.type_specific),
            ),
            types_size(all.subrange(i as int, all.len() as int)) <= types_size(all),
            match held_fields(
                all.subrange(i as int, all.len() as int),
                rv,
                i as nat,
                held(state.type_specific),
            ) {
                Err(e) => held_fields(all, rv, 0, h) == Err::<Seq<u8>, Error>(e),
                Ok(b) => held_fields(all, rv, 0, h) is Ok && start + held_fields(
                    all,
                    rv,
                    0,
                    h,
                )->Ok_0 == writer@ + b,
            },
        decreases ts.len() - i,
    {
        let ghost before = writer@;
        let ghost now = held(state.type_specific);
        let ghost here = all.subrange(i as int, all.len() as int);
        proof {
            assert(here[0] == ts@[i as int]@);
            assert(here.subrange(1, here.len() as int) =~= all.subrange(i + 1, all.len() as int));
            lemma_held_fields_step(here, rv, i as nat, now);
        }
        let column = pick_column(rows, i);
        match ts[i].serialize_column(&column, writer, state) {
            Ok(()) => {},
            Err(e) => return Err(e),
        }
        proof {
            let w = held_bytes(ts@[i as int]@, column_of(rv, i as nat), now);
            if let Ok(b) = held_fields(
                all.subrange(i + 1, all.len() as int),
                rv,
                (i + 1) as nat,
                left(ts@[i as int]@, column_of(rv, i as nat), now),
            ) {
                assert(before + (w->Ok_0 + b) =~= writer@ + b);
            }
        }
        i += 1;
    }
    assert(writer@ + Seq::<u8>::empty() =~= writer@);
    Ok(())
}

fn write_held_variant(
    t: &Type,
    ts: &Vec<Type>,
    values: &Vec<Value>,
    writer: &mut Vec<u8>,
    state: &mut SerializerState,
) -> (r: Result<()>)
    requires
        t@ == TypeView::Variant(type_views(ts@)),
        holds(t@),
    ensures
        wrote(
            old(writer)@,
            final(writer)@,
            r,
            held_bytes(t@, value_views(values@), held(old(state).type_specific)),
        ),
        final(state).server_version == old(state).server_version,
        r is Ok ==> held(final(state).type_specific) == left(
            t@,
            value_views(values@),
            held(old(state).type_specific),
        ),
    decreases type_size(t@), 0nat,
{
    proof {
        reveal(held_bytes);
        reveal(left);
    }
    let ghost all = value_views(values@);
    let ghost h = held(state.type_specific);
    if !is_variant_ok(ts) {
        return Err(Error::SerializeError(WriteReason::UnsupportedValue));
    }
    let map = DiscriminatorMap::new(ts);
    let (discriminators, groups) = match VariantSerializer::extract_discriminators_and_values(
        values,
    ) {
        Ok(p) => p,
        Err(e) => return Err(e),
    };
    let ghost start = writer@;
    put_bytes(writer, discriminators.as_slice());
    let ghost mid = writer@;
    proof {
        lemma_sorted_size(type_views(ts@));
    }
    let r = write_held_groups(&map, &groups, writer, state, Ghost(all));
    proof {
        lemma_wrote(
            start,
            mid,
            writer@,
            r,
            Ok(discriminators_of(all)),
            held_groups(map@, all, 0, h),
        );
    }
    r
}

/// What writing the columns of the types of a variant comes to, one after the other.
pub(crate) proof fn lemma_held_groups_step(ts: Seq<TypeView>, vs: Seq<ValueView>, d: nat, h: Held)
    requires
        ts.len() > 0,
    ensures
        held_groups(ts, vs, d, h) == followed(
            held_group(ts[0], vs, d, h),
            held_groups(
                ts.subrange(1, ts.len() as int),
                vs,
                d + 1,
                left_group(ts[0], vs, d, h),
            ),
        ),
        left_groups(ts, vs, d, h) == left_groups(
            ts.subrange(1, ts.len() as int),
            vs,
            d + 1,
            left_group(ts[0], vs, d, h),
        ),
        type_size(ts[0]) <= types_size(ts),
        types_size(ts.subrange(1, ts.len() as int)) <= types_size(ts),
{
    reveal(held_bytes);
    reveal(left);
}

#[verifier::spinoff_prover]
#[verifier::rlimit(80)]
fn write_held_groups(
    map: &DiscriminatorMap,
    groups: &Vec<Vec<Value>>,
    writer: &mut Vec<u8>,
    state: &mut SerializerState,
    Ghost(vs): Ghost<Seq<ValueView>>,
) -> (r: Result<()>)
    requires
        map.wf(),
        groups@.len() == 256,
        forall|d: int|
            0 <= d < 256 ==> value_views((#[trigger] groups@[d])@) == group_of(vs, d as u8),
    ensures
        wrote(
            old(writer)@,
            final(writer)@,
            r,
            held_groups(map@, vs, 0, held(old(state).type_specific)),
        ),
        final(state).server_version == old(state).server_version,
        r is Ok ==> held(final(state).type_specific) == left_groups(
            map@,
            vs,
            0,
            held(old(state).type_specific),
        ),
    decreases types_size(map@), 1nat,
{
    let ghost all = map@;
    let ghost h = held(state.type_specific);
    let ghost server = state.server_version;
    let ghost start = writer@;
    let n: usize = map.len();
    let mut i: usize = 0;
    proof {
        assert(all.subrange(0, all.len() as int) =~= all);
    }
    while i < n
        invariant
            i <= n <= 256,
            n == all.len(),
            map.wf(),
            all == map@,
            h == held(old(state).type_specific),
            server == old(state).server_version,
            server == state.server_version,
            groups@.len() == 256,
            forall|d: int|
                0 <= d < 256 ==> value_views((#[trigger] groups@[d])@) == group_of(vs, d as u8),
            types_size(all.subrange(i as int, all.len() as int)) <= types_size(all),
            left_groups(all, vs, 0, h) == left_groups(
                all.subrange(i as int, all.len() as int),
                vs,
                i as nat,
                held(state.type_specific),
            ),
            match held_groups(
                all.subrange(i as int, all.len() as int),
                vs,
                i as nat,
                held(state.type_specific),
            ) {
                Err(e) => held_groups(all, vs, 0, h) == Err::<Seq<u8>, Error>(e),
                Ok(b) => held_groups(all, vs, 0, h) is Ok && start + held_groups(
                    all,
                    vs,
                    0,
                    h,
                )->Ok_0 == writer@ + b,
            },
        decreases n - i,
    {
        let ghost before = writer@;
        let ghost now = held(state.type_specific);
        let ghost here = all.subrange(i as int, all.len() as int);
        proof {
            assert(here[0] == all[i as int]);
            assert(here.subrange(1, here.len() as int) =~= all.subrange(i + 1, all.len() as int));
            assert(value_views(groups@[i as int]@).len() == groups@[i as int]@.len());
            lemma_held_groups_step(here, vs, i as nat, now);
        }
        let d: u8 = i as u8;
        if d != NULL_DISCRIMINATOR && groups[i].len() > 0 {
            if let Some(inner) = map.get_type(d) {
                match inner.serialize_column(&groups[i], writer, state) {
                    Ok(()) => {},
                    Err(e) => return Err(e),
                }
            }
        }
        proof {
            let w = held_group(here[0], vs, i as nat, now);
            assert(held(state.type_specific) == left_group(here[0], vs, i as nat, now));
            assert(w is Ok);
            assert(writer@ =~= before + w->Ok_0);
            if let Ok(b) = held_groups(
                all.subrange(i + 1, all.len() as int),
                vs,
                (i + 1) as nat,
                held(state.type_specific),
            ) {
                assert(before + (w->Ok_0 + b) =~= writer@ + b);
            }
        }
        i += 1;
    }
    assert(writer@ + Seq::<u8>::empty() =~= writer@);
    Ok(())
}

// ---------------------------------------------------------------------------
// Reading
// ---------------------------------------------------------------------------

/// Reads a column of `n` values of a type that stands at a path, with what is known of
/// the columns that it holds.
#[verifier::opaque]
pub open spec fn parsed_held(
    s: Seq<u8>,
    t: TypeView,
    n: nat,
    plan: Set<Seq<u16>>,
    path: Seq<u16>,
    states: States,
    h: Held,
) -> Parsed<(Seq<ValueView>, States)>
    decreases type_size(t), 0nat,
{
    if !holds(t) {
        parsed_column(s, t, n, plan, path, states)
    } else if plan.contains(path) {
        Err(Error::DeserializeError(ReadReason::UnsupportedType))
    } else {
        match t {
            TypeView::Dynamic { .. } => match h {
                Held::Dynamic(version, entries) => match parsed_dynamic(s, n, version, entries) {
                    Err(e) => Err(e),
                    Ok((vs, rest)) => Ok(((vs, states), rest)),
                },
                _ => Err(Error::DeserializeError(ReadReason::StateNotSet)),
            },
            TypeView::JSON { .. } => match h {
                Held::Layout(layout) => match parsed_json(s, n, layout) {
                    Err(e) => Err(e),
                    Ok((vs, rest)) => Ok(((vs, states), rest)),
                },
                _ => Err(Error::DeserializeError(ReadReason::StateNotSet)),
            },
            TypeView::Array(inner) => if n == 0 {
                Ok(((Seq::empty(), states), s))
            } else {
                match parsed_offsets(s, n) {
                    Err(e) => Err(e),
                    Ok((offsets, rest)) => match parsed_held(
                        rest,
                        *inner,
                        (offsets.last() as usize) as nat,
                        plan,
                        path.push(0),
                        states,
                        h,
                    ) {
                        Err(e) => Err(e),
                        Ok(((items, next), end)) => if ascending(offsets) && reach(
                            offsets,
                            n as int,
                        ) <= items.len() {
                            Ok(((array_rows(t, offsets, items), next), end))
                        } else {
                            Err(Error::DeserializeError(ReadReason::RowsOutOfRange))
                        },
                    },
                }
            },
            TypeView::Nullable(inner) => match parsed_bytes(s, n) {
                Err(e) => Err(e),
                Ok((mask, rest)) => match parsed_held(
                    rest,
                    *inner,
                    n,
                    plan,
                    path.push(0),
                    states,
                    h,
                ) {
                    Err(e) => Err(e),
                    Ok(((vs, next), end)) => Ok(((masked(vs, mask), next), end)),
                },
            },
            TypeView::MapOf(k, x) => if n == 0 {
                Ok(((Seq::empty(), states), s))
            } else {
                match parsed_offsets(s, n) {
                    Err(e) => Err(e),
                    Ok((offsets, rest)) => {
                        let total = (offsets.last() as usize) as nat;
                        match parsed_held(rest, *k, total, plan, path.push(0), states, h) {
                            Err(e) => Err(e),
                            Ok(((keys, st), rest2)) => match parsed_held(
                                rest2,
                                *x,
                                total,
                                plan,
                                path.push(1),
                                st,
                                h,
                            ) {
                                Err(e) => Err(e),
                                Ok(((values, next), end)) => if reach(offsets, n as int)
                                    <= keys.len() && reach(offsets, n as int) <= values.len() {
                                    Ok(((map_rows(offsets, keys, values), next), end))
                                } else {
                                    Err(Error::DeserializeError(ReadReason::RowsOutOfRange))
                                },
                            },
                        }
                    },
                }
            },
            TypeView::Tuple(ts) => match parsed_held_fields(s, ts, n, plan, path, 0, states, h) {
                Err(e) => Err(e),
                Ok(((columns, next), rest)) => Ok(((tuple_rows(columns, n), next), rest)),
            },
            TypeView::TupleNamed(fs) => if types_size(field_types(fs)) >= type_size(t) {
                arbitrary()
            } else {
                match parsed_held_fields(s, field_types(fs), n, plan, path, 0, states, h) {
                    Err(e) => Err(e),
                    Ok(((columns, next), rest)) => Ok(((tuple_rows(columns, n), next), rest)),
                }
            },
            TypeView::Variant(ts) => if !variant_ok(ts) {
                Err(Error::DeserializeError(ReadReason::UnsupportedType))
            } else if types_size(sorted_types(ts)) >= type_size(t) {
                arbitrary()
            } else {
                match parsed_bytes(s, n) {
                    Err(e) => Err(e),
                    Ok((ds, rest)) => match parsed_held_groups(rest, sorted_types(ts), ds, 0, h) {
                        Err(e) => Err(e),
                        Ok((columns, end)) => if all_found(ds, columns) {
                            Ok(((variant_rows(ds, columns), states), end))
                        } else {
                            Err(Error::DeserializeError(ReadReason::InvalidOffset))
                        },
                    },
                }
            },
            _ => arbitrary(),
        }
    }
}

/// Reads the columns of the fields of `n` tuples, from the field `k` on.
pub open spec fn parsed_held_fields(
    s: Seq<u8>,
    ts: Seq<TypeView>,
    n: nat,
    plan: Set<Seq<u16>>,
    path: Seq<u16>,
    k: nat,
    states: States,
    h: Held,
) -> Parsed<(Seq<Seq<ValueView>>, States)>
    decreases types_size(ts), 0nat,
{
    if ts.len() == 0 {
        Ok(((Seq::empty(), states), s))
    } else {
        match parsed_held(s, ts[0], n, plan, path.push(k as u16), states, h) {
            Err(e) => Err(e),
            Ok(((c, st), next)) => match parsed_held_fields(
                next,
                ts.subrange(1, ts.len() as int),
                n,
                plan,
                path,
                k + 1,
                st,
                h,
            ) {
                Err(e) => Err(e),
                Ok(((cs, last), end)) => Ok(((seq![c] + cs, last), end)),
            },
        }
    }
}

/// Reads the columns of the types of a variant, from the discriminator `d` on. A type
/// without a row has none.
pub open spec fn parsed_held_groups(
    s: Seq<u8>,
    ts: Seq<TypeView>,
    ds: Seq<u8>,
    d: nat,
    h: Held,
) -> Parsed<Seq<Seq<ValueView>>>
    decreases types_size(ts), 0nat,
{
    if ts.len() == 0 {
        Ok((Seq::empty(), s))
    } else {
        let count = if d == NULL_DISCRIMINATOR {
            0
        } else {
            rank(ds, d as u8, ds.len() as int)
        };
        let column = if count == 0 {
            Ok(((Seq::empty(), Map::empty()), s))
        } else {
            parsed_held(s, ts[0], count, Set::empty(), Seq::empty(), Map::empty(), h)
        };
        match column {
            Err(e) => Err(e),
            Ok(((c, _), next)) => match parsed_held_groups(
                next,
                ts.subrange(1, ts.len() as int),
                ds,
                d + 1,
                h,
            ) {
                Err(e) => Err(e),
                Ok((cs, end)) => Ok((seq![c] + cs, end)),
            },
        }
    }
}

fn read_held_dynamic(reader: &mut &[u8], rows: usize, known: &TypeSpecificState) -> (r: Result<
    Vec<Value>,
>)
    ensures
        match held(*known) {
            Held::Dynamic(version, entries) => match r {
                Ok(v) => parsed_dynamic(old(reader)@, rows as nat, version, entries) == Ok::<
                    _,
                    Error,
                >((value_views(v@), final(reader)@)),
                Err(e) => parsed_dynamic(old(reader)@, rows as nat, version, entries) == Err::<
                    (Seq<ValueView>, Seq<u8>),
                    Error,
                >(e),
            },
            _ => r is Err && r->Err_0 == Error::DeserializeError(ReadReason::StateNotSet),
        },
{
    match known {
        TypeSpecificState::Dynamic(d) => DynamicDeserializer::read_values(reader, rows, d),
        _ => Err(Error::DeserializeError(ReadReason::StateNotSet)),
    }
}

fn read_held_json(reader: &mut &[u8], rows: usize, known: &TypeSpecificState) -> (r: Result<
    Vec<Value>,
>)
    ensures
        match held(*known) {
            Held::Layout(layout) => match r {
                Ok(v) => parsed_json(old(reader)@, rows as nat, layout) == Ok::<_, Error>(
                    (value_views(v@), final(reader)@),
                ),
                Err(e) => parsed_json(old(reader)@, rows as nat, layout) == Err::<
                    (Seq<ValueView>, Seq<u8>),
                    Error,
                >(e),
            },
            _ => r is Err && r->Err_0 == Error::DeserializeError(ReadReason::StateNotSet),
        },
{
    match known {
        TypeSpecificState::JsonLayout(l) => JsonDeserializer::read_columns(reader, rows, l),
        _ => Err(Error::DeserializeError(ReadReason::StateNotSet)),
    }
}

#[verifier::spinoff_prover]
#[verifier::rlimit(100)]
fn read_held(
    t: &Type,
    reader: &mut &[u8],
    rows: usize,
    plan: &KindPlan,
    runtime: &mut SparseRuntime,
    path: &Vec<u16>,
    known: &TypeSpecificState,
) -> (r: Result<Vec<Value>>)
    ensures
        read_as(
            final(reader)@,
            final(runtime)@,
            r,
            parsed_held(
                old(reader)@,
                t@,
                rows as nat,
                plan.sparse(),
                path@,
                old(runtime)@,
                held(*known),
            ),
        ),
    decreases type_size(t@), 1nat,
{
    proof {
        reveal(parsed_held);
    }
    proof {
        t.lemma_view();
    }
    if !type_holds(t) {
        return t.deserialize_column_with_path(reader, rows, plan, runtime, path);
    }
    if plan.is_sparse(path) {
        return Err(Error::DeserializeError(ReadReason::UnsupportedType));
    }
    match t {
        Type::Dynamic { .. } => read_held_dynamic(reader, rows, known),
        Type::JSON { .. } => read_held_json(reader, rows, known),
        Type::Array(inner) => read_held_arrays(t, inner, reader, rows, plan, runtime, path, known),
        Type::Nullable(inner) => {
            read_held_nullable(t, inner, reader, rows, plan, runtime, path, known)
        },
        Type::MapOf(k, x) => read_held_maps(t, k, x, reader, rows, plan, runtime, path, known),
        Type::Tuple(ts) => read_held_tuples(t, ts, reader, rows, plan, runtime, path, known),
        Type::TupleNamed(fs) => {
            proof {
                lemma_fields_size(field_views(fs@));
            }
            let ts = types_of_fields(fs);
            read_held_tuples(t, &ts, reader, rows, plan, runtime, path, known)
        },
        Type::Variant(ts) => read_held_variants(t, ts, reader, rows, plan, runtime, path, known),
        _ => {
            assert(false);
            Err(Error::DeserializeError(ReadReason::UnsupportedType))
        },
    }
}

fn read_held_nullable(
    t: &Type,
    inner: &Type,
    reader: &mut &[u8],
    rows: usize,
    plan: &KindPlan,
    runtime: &mut SparseRuntime,
    path: &Vec<u16>,
    known: &TypeSpecificState,
) -> (r: Result<Vec<Value>>)
    requires
        t@ == TypeView::Nullable(Box::new(inner@)),
        holds(t@),
        !plan.sparse().contains(path@),
    ensures
        read_as(
            final(reader)@,
            final(runtime)@,
            r,
            parsed_held(
                old(reader)@,
                t@,
                rows as nat,
                plan.sparse(),
                path@,
                old(runtime)@,
                held(*known),
            ),
        ),
    decreases type_size(t@), 0nat,
{
    proof {
        reveal(parsed_held);
    }
    let mask = match get_bytes(reader, rows) {
        Ok(b) => b,
        Err(e) => return Err(e),
    };
    match read_held(inner, reader, rows, plan, runtime, &child(path, 0), known) {
        Ok(v) => Ok(apply_mask(&v, &mask)),
        Err(e) => Err(e),
    }
}

fn read_held_tuples(
    t: &Type,
    ts: &Vec<Type>,
    reader: &mut &[u8],
    rows: usize,
    plan: &KindPlan,
    runtime: &mut SparseRuntime,
    path: &Vec<u16>,
    known: &TypeSpecificState,
) -> (r: Result<Vec<Value>>)
    requires
        t@ == TypeView::Tuple(type_views(ts@)) || (t@ matches TypeView::TupleNamed(fs) && type_views(
            ts@,
        ) == field_types(fs)),
        types_size(type_views(ts@)) < type_size(t@),
        holds(t@),
        !plan.sparse().contains(path@),
    ensures
        read_as(
            final(reader)@,
            final(runtime)@,
            r,
            parsed_held(
                old(reader)@,
                t@,
                rows as nat,
                plan.sparse(),
                path@,
                old(runtime)@,
                held(*known),
            ),
        ),
    decreases type_size(t@), 0nat,
{
    proof {
        reveal(parsed_held);
    }
    match read_held_fields(ts, reader, rows, plan, runtime, path, known) {
        Ok(columns) => Ok(build_tuples(rows, &columns)),
        Err(e) => Err(e),
    }
}

fn read_held_arrays(
    t: &Type,
    inner: &Type,
    reader: &mut &[u8],
    rows: usize,
    plan: &KindPlan,
    runtime: &mut SparseRuntime,
    path: &Vec<u16>,
    known: &TypeSpecificState,
) -> (r: Result<Vec<Value>>)
    requires
        t@ == TypeView::Array(Box::new(inner@)),
        holds(t@),
        !plan.sparse().contains(path@),
    ensures
        read_as(
            final(reader)@,
            final(runtime)@,
            r,
            parsed_held(
                old(reader)@,
                t@,
                rows as nat,
                plan.sparse(),
                path@,
                old(runtime)@,
                held(*known),
            ),
        ),
    decreases type_size(t@), 0nat,
{
    proof {
        reveal(parsed_held);
    }
    if rows == 0 {
        let out: Vec<Value> = Vec::new();
        assert(value_views(out@) =~= Seq::<ValueView>::empty());
        return Ok(out);
    }
    let offsets = match read_offsets(reader, rows) {
        Ok(v) => v,
        Err(e) => return Err(e),
    };
    let last: u64 = offsets[offsets.len() - 1];
    let items = match read_held(
        inner,
        reader,
        last as usize,
        plan,
        runtime,
        &child(path, 0),
        known,
    ) {
        Ok(v) => v,
        Err(e) => return Err(e),
    };
    let (max, up) = reach_of(&offsets);
    assert(value_views(items@).len() == items@.len());
    if !up || max > items.len() as u64 {
        return Err(Error::DeserializeError(ReadReason::RowsOutOfRange));
    }
    Ok(build_arrays(t, &offsets, &items))
}

fn read_held_maps(
    t: &Type,
    key: &Type,
    value: &Type,
    reader: &mut &[u8],
    rows: usize,
    plan: &KindPlan,
    runtime: &mut SparseRuntime,
    path: &Vec<u16>,
    known: &TypeSpecificState,
) -> (r: Result<Vec<Value>>)
    requires
        t@ == TypeView::MapOf(Box::new(key@), Box::new(value@)),
        holds(t@),
        !plan.sparse().contains(path@),
    ensures
        read_as(
            final(reader)@,
            final(runtime)@,
            r,
            parsed_held(
                old(reader)@,
                t@,
                rows as nat,
                plan.sparse(),
                path@,
                old(runtime)@,
                held(*known),
            ),
        ),
    decreases type_size(t@), 0nat,
{
    proof {
        reveal(parsed_held);
    }
    if rows == 0 {
        let out: Vec<Value> = Vec::new();
        assert(value_views(out@) =~= Seq::<ValueView>::empty());
        return Ok(out);
    }
    let offsets = match read_offsets(reader, rows) {
        Ok(v) => v,
        Err(e) => return Err(e),
    };
    let last: u64 = offsets[offsets.len() - 1];
    let keys = match read_held(key, reader, last as usize, plan, runtime, &child(path, 0), known) {
        Ok(v) => v,
        Err(e) => return Err(e),
    };
    let values = match read_held(
        value,
        reader,
        last as usize,
        plan,
        runtime,
        &child(path, 1),
        known,
    ) {
        Ok(v) => v,
        Err(e) => return Err(e),
    };
    let (max, _) = reach_of(&offsets);
    assert(value_views(keys@).len() == keys@.len());
    assert(value_views(values@).len() == values@.len());
    if max > keys.len() as u64 || max > values.len() as u64 {
        return Err(Error::DeserializeError(ReadReason::RowsOutOfRange));
    }
    Ok(build_maps(&offsets, &keys, &values))
}

/// What reading the columns of fields comes to, one column after the other.
proof fn lemma_parsed_held_fields_step(
    s: Seq<u8>,
    ts: Seq<TypeView>,
    n: nat,
    plan: Set<Seq<u16>>,
    path: Seq<u16>,
    k: nat,
    states: States,
    h: Held,
)
    requires
        ts.len() > 0,
    ensures
        parsed_held_fields(s, ts, n, plan, path, k, states, h) == (match parsed_held(
            s,
            ts[0],
            n,
            plan,
            path.push(k as u16),
            states,
            h,
        ) {
            Err(e) => Err(e),
            Ok(((c, st), next)) => match parsed_held_fields(
                next,
                ts.subrange(1, ts.len() as int),
                n,
                plan,
                path,
                k + 1,
                st,
                h,
            ) {
                Err(e) => Err(e),
                Ok(((cs, last), end)) => Ok(((seq![c] + cs, last), end)),
            },
        }),
        type_size(ts[0]) <= types_size(ts),
        types_size(ts.subrange(1, ts.len() as int)) <= types_size(ts),
{
    reveal(parsed_held);
}

#[verifier::spinoff_prover]
#[verifier::rlimit(60)]
fn read_held_fields(
    ts: &Vec<Type>,
    reader: &mut &[u8],
    rows: usize,
    plan: &KindPlan,
    runtime: &mut SparseRuntime,
    path: &Vec<u16>,
    known: &TypeSpecificState,
) -> (r: Result<Vec<Vec<Value>>>)
    ensures
        match r {
            Ok(v) => parsed_held_fields(
                old(reader)@,
                type_views(ts@),
                rows as nat,
                plan.sparse(),
                path@,
                0,
                old(runtime)@,
                held(*known),
            ) == Ok::<_, Error>(((column_views(v@), final(runtime)@), final(reader)@)),
            Err(e) => parsed_held_fields(
                old(reader)@,
                type_views(ts@),
                rows as nat,
                plan.sparse(),
                path@,
                0,
                old(runtime)@,
                held(*known),
            ) == Err::<((Seq<Seq<ValueView>>, States), Seq<u8>), Error>(e),
        },
    decreases types_size(type_views(ts@)), 1nat,
{
    proof {
        reveal(parsed_held);
    }
    let ghost all = type_views(ts@);
    let ghost sparse = plan.sparse();
    let ghost h = held(*known);
    let ghost whole = parsed_held_fields(reader@, all, rows as nat, sparse, path@, 0, runtime@, h);
    let mut out: Vec<Vec<Value>> = Vec::new();
    let mut i: usize = 0;
    proof {
        assert(all.subrange(0, all.len() as int) =~= all);
        if let Ok(((cs, _), _)) = whole {
            assert(column_views(out@) + cs =~= cs);
        }
    }
    while i < ts.len()
        invariant
            i <= ts.len(),
            all == type_views(ts@),
            sparse == plan.sparse(),
            h == held(*known),
            whole == parsed_held_fields(
                old(reader)@,
                all,
                rows as nat,
                sparse,
                path@,
                0,
                old(runtime)@,
                h,
            ),
            types_size(all.subrange(i as int, all.len() as int)) <= types_size(all),
            whole == match parsed_held_fields(
                reader@,
                all.subrange(i as int, all.len() as int),
                rows as nat,
                sparse,
                path@,
                i as nat,
                runtime@,
                h,
            ) {
                Err(e) => Err(e),
                Ok(((cs, st), end)) => Ok(((column_views(out@) + cs, st), end)),
            },
        decreases ts.len() - i,
    {
        let ghost head = column_views(out@);
        let ghost here = all.subrange(i as int, all.len() as int);
        proof {
            assert(here[0] == ts@[i as int]@);
            assert(here.subrange(1, here.len() as int) =~= all.subrange(i + 1, all.len() as int));
            lemma_parsed_held_fields_step(
                reader@,
                here,
                rows as nat,
                sparse,
                path@,
                i as nat,
                runtime@,
                h,
            );
        }
        match read_held(&ts[i], reader, rows, plan, runtime, &child(path, i as u16), known) {
            Err(e) => return Err(e),
            Ok(v) => {
                let ghost vv = value_views(v@);
                out.push(v);
                proof {
                    assert(column_views(out@) =~= head.push(vv));
                    if let Ok(((cs, _), _)) = parsed_held_fields(
                        reader@,
                        all.subrange(i + 1, all.len() as int),
                        rows as nat,
                        sparse,
                        path@,
                        (i + 1) as nat,
                        runtime@,
                        h,
                    ) {
                        assert(head + (seq![vv] + cs) =~= column_views(out@) + cs);
                    }
                }
            },
        }
        i += 1;
    }
    assert(column_views(out@) + Seq::<Seq<ValueView>>::empty() =~= column_views(out@));
    Ok(out)
}

#[verifier::spinoff_prover]
#[verifier::rlimit(60)]
fn read_held_variants(
    t: &Type,
    ts: &Vec<Type>,
    reader: &mut &[u8],
    rows: usize,
    plan: &KindPlan,
    runtime: &mut SparseRuntime,
    path: &Vec<u16>,
    known: &TypeSpecificState,
) -> (r: Result<Vec<Value>>)
    requires
        t@ == TypeView::Variant(type_views(ts@)),
        holds(t@),
        !plan.sparse().contains(path@),
    ensures
        read_as(
            final(reader)@,
            final(runtime)@,
            r,
            parsed_held(
                old(reader)@,
                t@,
                rows as nat,
                plan.sparse(),
                path@,
                old(runtime)@,
                held(*known),
            ),
        ),
    decreases type_size(t@), 0nat,
{
    proof {
        reveal(parsed_held);
    }
    if !is_variant_ok(ts) {
        return Err(Error::DeserializeError(ReadReason::UnsupportedType));
    }
    proof {
        lemma_sorted_size(type_views(ts@));
    }
    let map = DiscriminatorMap::new(ts);
    let discriminators = match get_bytes(reader, rows) {
        Ok(b) => b,
        Err(e) => return Err(e),
    };
    let (offsets, counts) = VariantDeserializer::build_offsets_and_counts(&discriminators);
    let columns = match read_held_groups(
        map.types(),
        reader,
        &counts,
        known,
        Ghost(discriminators@),
    ) {
        Ok(c) => c,
        Err(e) => return Err(e),
    };
    let ghost cols = column_views(columns@);
    let ghost ds = discriminators@;
    proof {
        assert forall|i: int| 0 <= i < ds.len() implies row_value(
            #[trigger] ds[i],
            rank(ds, ds[i], i) as int,
            cols,
        ) == row_value(ds[i], offsets@[i] as int, cols) by {
            assert(offsets@[i] == (if ds[i] == NULL_DISCRIMINATOR {
                0
            } else {
                rank(ds, ds[i], i)
            }));
        }
    }
    match VariantDeserializer::reconstruct_values(&discriminators, &offsets, &columns) {
        Ok(v) => {
            proof {
                assert forall|i: int| 0 <= i < ds.len() implies row_value(
                    #[trigger] ds[i],
                    rank(ds, ds[i], i) as int,
                    cols,
                ) is Some by {
                    assert(row_value(ds[i], offsets@[i] as int, cols) == Some(v@[i]@));
                }
                assert(value_views(v@) =~= variant_rows(ds, cols));
            }
            Ok(v)
        },
        Err(e) => Err(e),
    }
}

#[verifier::spinoff_prover]
#[verifier::rlimit(60)]
fn read_held_groups(
    types: &Vec<Type>,
    reader: &mut &[u8],
    counts: &Vec<usize>,
    known: &TypeSpecificState,
    Ghost(ds): Ghost<Seq<u8>>,
) -> (r: Result<Vec<Vec<Value>>>)
    requires
        types@.len() <= 256,
        counts@.len() == 256,
        forall|d: int|
            0 <= d < 256 ==> (#[trigger] counts@[d]) == (if d == NULL_DISCRIMINATOR {
                0
            } else {
                rank(ds, d as u8, ds.len() as int)
            }),
    ensures
        match r {
            Ok(v) => parsed_held_groups(
                old(reader)@,
                type_views(types@),
                ds,
                0,
                held(*known),
            ) == Ok::<_, Error>((column_views(v@), final(reader)@)),
            Err(e) => parsed_held_groups(
                old(reader)@,
                type_views(types@),
                ds,
                0,
                held(*known),
            ) == Err::<(Seq<Seq<ValueView>>, Seq<u8>), Error>(e),
        },
    decreases types_size(type_views(types@)), 1nat,
{
    proof {
        reveal(parsed_held);
    }
    let ghost all = type_views(types@);
    let ghost h = held(*known);
    let ghost whole = parsed_held_groups(reader@, all, ds, 0, h);
    let mut out: Vec<Vec<Value>> = Vec::new();
    let n: usize = types.len();
    let mut i: usize = 0;
    let plan = no_plan();
    let root: Vec<u16> = Vec::new();
    proof {
        assert(plan.sparse() =~= Set::<Seq<u16>>::empty());
        assert(all.subrange(0, all.len() as int) =~= all);
        if let Ok((cs, _)) = whole {
            assert(column_views(out@) + cs =~= cs);
        }
    }
    while i < n
        invariant
            i <= n <= 256,
            n == all.len(),
            n == types.len(),
            all == type_views(types@),
            h == held(*known),
            root@ == Seq::<u16>::empty(),
            plan.sparse() == Set::<Seq<u16>>::empty(),
            counts@.len() == 256,
            forall|d: int|
                0 <= d < 256 ==> (#[trigger] counts@[d]) == (if d == NULL_DISCRIMINATOR {
                    0
                } else {
                    rank(ds, d as u8, ds.len() as int)
                }),
            whole == parsed_held_groups(old(reader)@, all, ds, 0, h),
            types_size(all.subrange(i as int, all.len() as int)) <= types_size(all),
            whole == match parsed_held_groups(
                reader@,
                all.subrange(i as int, all.len() as int),
                ds,
                i as nat,
                h,
            ) {
                Err(e) => Err(e),
                Ok((cs, end)) => Ok((column_views(out@) + cs, end)),
            },
        decreases n - i,
    {
        let ghost head = column_views(out@);
        let ghost here = all.subrange(i as int, all.len() as int);
        proof {
            assert(here[0] == all[i as int]);
            assert(here.subrange(1, here.len() as int) =~= all.subrange(i + 1, all.len() as int));
            reveal(parsed_held);
        }
        let count: usize = counts[i];
        let mut column: Vec<Value> = Vec::new();
        assert(value_views(column@) =~= Seq::<ValueView>::empty());
        if count > 0 {
            let mut runtime = SparseRuntime::new();
            column = match read_held(&types[i], reader, count, &plan, &mut runtime, &root, known) {
                Ok(v) => v,
                Err(e) => return Err(e),
            };
        }
        let ghost vv = value_views(column@);
        out.push(column);
        proof {
            assert(column_views(out@) =~= head.push(vv));
            if let Ok((cs, _)) = parsed_held_groups(
                reader@,
                all.subrange(i + 1, all.len() as int),
                ds,
                (i + 1) as nat,
                h,
            ) {
                assert(head + (seq![vv] + cs) =~= column_views(out@) + cs);
            }
        }
        i += 1;
    }
    assert(column_views(out@) + Seq::<Seq<ValueView>>::empty() =~= column_views(out@));
    Ok(out)
}

impl Type {
    /// Reads a column of values of this type, with what is known of the columns that it
    /// holds.
    pub fn deserialize_column(
        &self,
        reader: &mut &[u8],
        rows: usize,
        state: &mut DeserializerState,
    ) -> (r: Result<Vec<Value>>)
        ensures
            read_as(
                final(reader)@,
                final(state).sparse@,
                r,
                parsed_held(
                    old(reader)@,
                    self@,
                    rows as nat,
                    old(state).plan(),
                    Seq::empty(),
                    old(state).sparse@,
                    held(old(state).type_specific),
                ),
            ),
            final(state).kind_plan == old(state).kind_plan,
            final(state).type_specific == old(state).type_specific,
    {
        let path: Vec<u16> = Vec::new();
        assert(path@ =~= Seq::<u16>::empty());
        match &state.kind_plan {
            Some(plan) => read_held(
                self,
                reader,
                rows,
                plan,
                &mut state.sparse,
                &path,
                &state.type_specific,
            ),
            None => read_held(
                self,
                reader,
                rows,
                &no_plan(),
                &mut state.sparse,
                &path,
                &state.type_specific,
            ),
        }
    }
}

} // verus!
