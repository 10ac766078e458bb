//! What stands before a column: the versions of the formats within it.
use vstd::prelude::*;

use crate::columns::{
    field_types, followed, lemma_fields_size, lemma_wrote, type_size, types_of_fields, types_size,
    wrote, Written,
};
use crate::error::{Error, ReadReason, Result, WriteReason};
use crate::types::{field_views, type_views, Type, TypeView};
use crate::wire::{get_i8, get_u64_le, le_bytes, parsed_int, parsed_uint, put_u64_le, Parsed};

verus! {

/// The version of the format of variants.
pub const VARIANT_VERSION: u64 = 0;

/// The version of the format of dictionaries.
pub const LOW_CARDINALITY_VERSION: u64 = 1;

/// The version of the format in which objects are strings.
pub const JSON_OBJECT_VERSION_STRING: u64 = 1;

/// The most rows of a variant that a block can hold.
pub const MAX_VARIANT_ROWS: usize = 1_000_000;

/// What is written before a column.
pub open spec fn prefix_bytes(t: TypeView) -> Written
    decreases type_size(t), 0nat,
{
    match t {
        TypeView::Array(inner) => prefix_bytes(*inner),
        TypeView::Nullable(inner) => prefix_bytes(*inner),
        TypeView::MapOf(k, v) => followed(prefix_bytes(*k), prefix_bytes(*v)),
        TypeView::Tuple(ts) => prefixes_bytes(ts),
        TypeView::TupleNamed(fs) => if types_size(field_types(fs)) >= type_size(t) {
            arbitrary()
        } else {
            prefixes_bytes(field_types(fs))
        },
        TypeView::LowCardinality(_) => Ok(le_bytes(LOW_CARDINALITY_VERSION as nat, 8)),
        TypeView::Object => Ok(le_bytes(JSON_OBJECT_VERSION_STRING as nat, 8)),
        TypeView::Variant(ts) => followed(
            Ok(le_bytes(VARIANT_VERSION as nat, 8)),
            prefixes_bytes(ts),
        ),
        TypeView::Dynamic { .. } | TypeView::JSON { .. } => Err(
            Error::SerializeError(WriteReason::StateNotSet),
        ),
        _ => Ok(Seq::empty()),
    }
}

/// What is written before columns of several types.
pub open spec fn prefixes_bytes(ts: Seq<TypeView>) -> Written
    decreases types_size(ts), 0nat,
{
    if ts.len() == 0 {
        Ok(Seq::empty())
    } else {
        followed(prefix_bytes(ts[0]), prefixes_bytes(ts.subrange(1, ts.len() as int)))
    }
}

/// Reads what stands before a column.
pub open spec fn parsed_prefix(s: Seq<u8>, t: TypeView) -> Parsed<()>
    decreases type_size(t), 0nat,
{
    match t {
        TypeView::Array(inner) => parsed_prefix(s, *inner),
        TypeView::Nullable(inner) => parsed_prefix(s, *inner),
        TypeView::MapOf(k, v) => match parsed_prefix(s, *k) {
            Err(e) => Err(e),
            Ok((_, rest)) => parsed_prefix(rest, *v),
        },
        TypeView::Tuple(ts) => parsed_prefixes(s, ts),
        TypeView::TupleNamed(fs) => if types_size(field_types(fs)) >= type_size(t) {
            arbitrary()
        } else {
            parsed_prefixes(s, field_types(fs))
        },
        TypeView::LowCardinality(_) => match parsed_uint(s, 8) {
            Err(e) => Err(e),
            Ok((version, rest)) => if version == LOW_CARDINALITY_VERSION {
                Ok(((), rest))
            } else {
                Err(Error::DeserializeError(ReadReason::UnsupportedVersion))
            },
        },
        TypeView::Object => match parsed_int(s, 1) {
            Err(e) => Err(e),
            Ok((_, rest)) => Ok(((), rest)),
        },
        TypeView::Variant(ts) => match parsed_uint(s, 8) {
            Err(e) => Err(e),
            Ok((version, rest)) => if version == VARIANT_VERSION {
                parsed_prefixes(rest, ts)
            } else {
                Err(Error::DeserializeError(ReadReason::UnsupportedVersion))
            },
        },
        TypeView::Dynamic { .. } | TypeView::JSON { .. } => Err(
            Error::DeserializeError(ReadReason::StateNotSet),
        ),
        _ => Ok(((), s)),
    }
}

/// Reads what stands before columns of several types.
pub open spec fn parsed_prefixes(s: Seq<u8>, ts: Seq<TypeView>) -> Parsed<()>
    decreases types_size(ts), 0nat,
{
    if ts.len() == 0 {
        Ok(((), s))
    } else {
        match parsed_prefix(s, ts[0]) {
            Err(e) => Err(e),
            Ok((_, rest)) => parsed_prefixes(rest, ts.subrange(1, ts.len() as int)),
        }
    }
}

/// Whether a reader that stands before `after` has read what was to be read.
pub open spec fn passed(after: Seq<u8>, r: Result<()>, p: Parsed<()>) -> bool {
    match r {
        Ok(()) => p == Ok::<_, Error>(((), after)),
        Err(e) => p == Err::<((), Seq<u8>), Error>(e),
    }
}

impl Type {
    /// Appends what stands before a column of this type.
    pub fn serialize_plain_prefix(&self, writer: &mut Vec<u8>) -> (r: Result<()>)
        ensures
            wrote(old(writer)@, final(writer)@, r, prefix_bytes(self@)),
        decreases type_size(self@), 1nat,
    {
        proof {
            self.lemma_view();
        }
        let ghost start = writer@;
        match self {
            Type::Array(inner) | Type::Nullable(inner) => inner.serialize_plain_prefix(writer),
            Type::MapOf(k, v) => {
                match k.serialize_plain_prefix(writer) {
                    Ok(()) => {},
                    Err(e) => return Err(e),
                }
                let ghost mid = writer@;
                let r = v.serialize_plain_prefix(writer);
                proof {
                    lemma_wrote(start, mid, writer@, r, prefix_bytes(k@), prefix_bytes(v@));
                }
                r
            },
            Type::Tuple(ts) => serialize_prefixes(ts, writer),
            Type::TupleNamed(fs) => {
                proof {
                    lemma_fields_size(field_views(fs@));
                }
                let ts = types_of_fields(fs);
                serialize_prefixes(&ts, writer)
            },
            Type::LowCardinality(_) => {
                put_u64_le(writer, LOW_CARDINALITY_VERSION);
                Ok(())
            },
            Type::Object => {
                put_u64_le(writer, JSON_OBJECT_VERSION_STRING);
                Ok(())
            },
            Type::Variant(ts) => {
                put_u64_le(writer, VARIANT_VERSION);
                let ghost mid = writer@;
                let r = serialize_prefixes(ts, writer);
                proof {
                    lemma_wrote(
                        start,
                        mid,
                        writer@,
                        r,
                        Ok(le_bytes(VARIANT_VERSION as nat, 8)),
                        prefixes_bytes(type_views(ts@)),
                    );
                }
                r
            },
            Type::Dynamic { .. } | Type::JSON { .. } => Err(
                Error::SerializeError(WriteReason::StateNotSet),
            ),
            _ => {
                assert(writer@ =~= start + Seq::<u8>::empty());
                Ok(())
            },
        }
    }

    /// Reads what stands before a column of this type.
    pub fn deserialize_plain_prefix(&self, reader: &mut &[u8]) -> (r: Result<()>)
        ensures
            passed(final(reader)@, r, parsed_prefix(old(reader)@, self@)),
        decreases type_size(self@), 1nat,
    {
        proof {
            self.lemma_view();
        }
        match self {
            Type::Array(inner) | Type::Nullable(inner) => inner.deserialize_plain_prefix(reader),
            Type::MapOf(k, v) => {
                match k.deserialize_plain_prefix(reader) {
                    Ok(()) => {},
                    Err(e) => return Err(e),
                }
                v.deserialize_plain_prefix(reader)
            },
            Type::Tuple(ts) => deserialize_prefixes(ts, reader),
            Type::TupleNamed(fs) => {
                proof {
                    lemma_fields_size(field_views(fs@));
                }
                let ts = types_of_fields(fs);
                deserialize_prefixes(&ts, reader)
            },
            Type::LowCardinality(_) => match get_u64_le(reader) {
                Err(e) => Err(e),
                Ok(version) => if version == LOW_CARDINALITY_VERSION {
                    Ok(())
                } else {
                    Err(Error::DeserializeError(ReadReason::UnsupportedVersion))
                },
            },
            Type::Object => match get_i8(reader) {
                Err(e) => Err(e),
                Ok(_) => Ok(()),
            },
            Type::Variant(ts) => match get_u64_le(reader) {
                Err(e) => Err(e),
                Ok(version) => if version == VARIANT_VERSION {
                    deserialize_prefixes(ts, reader)
                } else {
                    Err(Error::DeserializeError(ReadReason::UnsupportedVersion))
                },
            },
            Type::Dynamic { .. } | Type::JSON { .. } => Err(
                Error::DeserializeError(ReadReason::StateNotSet),
            ),
            _ => Ok(()),
        }
    }
}

/// Appends what stands before columns of several types.
pub fn serialize_prefixes(ts: &Vec<Type>, writer: &mut Vec<u8>) -> (r: Result<()>)
    ensures
        wrote(old(writer)@, final(writer)@, r, prefixes_bytes(type_views(ts@))),
    decreases types_size(type_views(ts@)), 1nat,
{
    let ghost all = type_views(ts@);
    let ghost start = writer@;
    let mut i: usize = 0;
    proof {
        assert(all.subrange(0, all.len() as int) =~= all);
    }
    while i < ts.len()
        invariant
            i <= ts.len(),
            all == type_views(ts@),
            types_size(all.subrange(i as int, all.len() as int)) <= types_size(all),
            match prefixes_bytes(all.subrange(i as int, all.len() as int)) {
                Err(e) => prefixes_bytes(all) == Err::<Seq<u8>, Error>(e),
                Ok(b) => prefixes_bytes(all) is Ok && start + prefixes_bytes(all)->Ok_0 == writer@
                    + b,
            },
        decreases ts.len() - i,
    {
        let ghost before = writer@;
        let ghost here = all.subrange(i as int, all.len() as int);
        proof {
            assert(here[0] == ts@[i as int]@);
            assert(here.subrange(1, here.len() as int) =~= all.subrange(i + 1, all.len() as int));
        }
        match ts[i].serialize_plain_prefix(writer) {
            Ok(()) => {},
            Err(e) => return Err(e),
        }
        proof {
            let w = prefix_bytes(ts@[i as int]@);
            if let Ok(b) = prefixes_bytes(all.subrange(i + 1, all.len() as int)) {
                assert(before + (w->Ok_0 + b) =~= writer@ + b);
            }
        }
        i += 1;
    }
    assert(writer@ + Seq::<u8>::empty() =~= writer@);
    Ok(())
}

/// Reads what stands before columns of several types.
pub fn deserialize_prefixes(ts: &Vec<Type>, reader: &mut &[u8]) -> (r: Result<()>)
    ensures
        passed(final(reader)@, r, parsed_prefixes(old(reader)@, type_views(ts@))),
    decreases types_size(type_views(ts@)), 1nat,
{
    let ghost all = type_views(ts@);
    let mut i: usize = 0;
    proof {
        assert(all.subrange(0, all.len() as int) =~= all);
    }
    while i < ts.len()
        invariant
            i <= ts.len(),
            all == type_views(ts@),
            types_size(all.subrange(i as int, all.len() as int)) <= types_size(all),
            parsed_prefixes(old(reader)@, all) == parsed_prefixes(
                reader@,
                all.subrange(i as int, all.len() as int),
            ),
        decreases ts.len() - i,
    {
        let ghost here = all.subrange(i as int, all.len() as int);
        proof {
            assert(here[0] == ts@[i as int]@);
            assert(here.subrange(1, here.len() as int) =~= all.subrange(i + 1, all.len() as int));
        }
        match ts[i].deserialize_plain_prefix(reader) {
            Ok(()) => {},
            Err(e) => return Err(e),
        }
        i += 1;
    }
    Ok(())
}

} // verus!
