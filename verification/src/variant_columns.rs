//! Columns of variants, and what stands before them.
use vstd::prelude::*;

use crate::column_read::{read_as, DeserializerState};
use crate::columns::wrote;
use crate::error::{Error, Expected, ReadReason, Result};
use crate::held_columns::{
    held, held_bytes, held_prefix, left, parsed_held, parsed_held_prefixes, read_held_prefixes,
    Held,
};
use crate::prefixes::{MAX_VARIANT_ROWS, VARIANT_VERSION};
use crate::state::SerializerState;
use crate::types::{Type, TypeView};
use crate::values::{value_views, Value};
use crate::variant::{VariantDeserializer, VariantSerializer};
use crate::wire::{get_u64_le, parsed_uint};

verus! {

impl VariantSerializer {
    /// Appends what stands before a column of variants.
    pub fn write_prefix_sync(type_: &Type, writer: &mut Vec<u8>, state: &SerializerState)
        -> (r: Result<()>)
        ensures
            match type_@ {
                TypeView::Variant(_) => wrote(
                    old(writer)@,
                    final(writer)@,
                    r,
                    held_prefix(type_@, held(state.type_specific), state.server_version),
                ),
                _ => r == Err::<(), Error>(Error::Protocol(Expected::Variant)),
            },
    {
        match type_.unwrap_variant() {
            Err(e) => Err(e),
            Ok(_) => type_.serialize_prefix(writer, state),
        }
    }

    /// Appends a column of variants.
    pub fn write_sync(
        type_: &Type,
        values: &Vec<Value>,
        writer: &mut Vec<u8>,
        state: &mut SerializerState,
    ) -> (r: Result<()>)
        ensures
            match type_@ {
                TypeView::Variant(_) => {
                    &&& wrote(
                        old(writer)@,
                        final(writer)@,
                        r,
                        held_bytes(type_@, value_views(values@), held(old(state).type_specific)),
                    )
                    &&& r is Ok ==> held(final(state).type_specific) == left(
                        type_@,
                        value_views(values@),
                        held(old(state).type_specific),
                    )
                },
                _ => r == Err::<(), Error>(Error::Protocol(Expected::Variant)),
            },
            final(state).server_version == old(state).server_version,
    {
        match type_.unwrap_variant() {
            Err(e) => Err(e),
            Ok(_) => type_.serialize_column(values, writer, state),
        }
    }
}

impl VariantDeserializer {
    /// Reads what stands before a column of variants: a version of eight bytes, and what
    /// stands before the columns of its types.
    pub fn read_prefix_sync(type_: &Type, reader: &mut &[u8]) -> (r: Result<()>)
        ensures
            match parsed_uint(old(reader)@, 8) {
                Err(e) => r == Err::<(), Error>(e),
                Ok((version, rest)) => if version != VARIANT_VERSION {
                    &&& r == Err::<(), Error>(
                        Error::DeserializeError(ReadReason::UnsupportedVersion),
                    )
                    &&& final(reader)@ == rest
                } else {
                    match type_@ {
                        TypeView::Variant(ts) => match parsed_held_prefixes(
                            rest,
                            ts,
                            Held::Nothing,
                        ) {
                            Err(e) => r == Err::<(), Error>(e),
                            Ok((_, end)) => r is Ok && final(reader)@ == end,
                        },
                        _ => {
                            &&& r == Err::<(), Error>(Error::Protocol(Expected::Variant))
                            &&& final(reader)@ == rest
                        },
                    }
                },
            },
    {
        let version: u64 = match get_u64_le(reader) {
            Err(e) => return Err(e),
            Ok(version) => version,
        };
        if version != VARIANT_VERSION {
            return Err(Error::DeserializeError(ReadReason::UnsupportedVersion));
        }
        match type_.unwrap_variant() {
            Err(e) => Err(e),
            Ok(ts) => read_held_prefixes(ts, reader, &mut DeserializerState::new()),
        }
    }

    /// Reads a column of variants, of no more rows than a block can hold.
    pub fn read_sync(
        type_: &Type,
        reader: &mut &[u8],
        rows: usize,
        state: &mut DeserializerState,
    ) -> (r: Result<Vec<Value>>)
        ensures
            if rows > MAX_VARIANT_ROWS {
                &&& r is Err
                &&& r->Err_0 == Error::DeserializeError(ReadReason::TooManyRows)
                &&& final(reader)@ == old(reader)@
                &&& *final(state) == *old(state)
            } else {
                match type_@ {
                    TypeView::Variant(_) => read_as(
                        final(reader)@,
                        final(state).sparse@,
                        r,
                        parsed_held(
                            old(reader)@,
                            type_@,
                            rows as nat,
                            old(state).plan(),
                            Seq::empty(),
                            old(state).sparse@,
                            held(old(state).type_specific),
                        ),
                    ),
                    _ => {
                        &&& r is Err
                        &&& r->Err_0 == Error::Protocol(Expected::Variant)
                        &&& final(reader)@ == old(reader)@
                        &&& *final(state) == *old(state)
                    },
                }
            },
    {
        if rows > MAX_VARIANT_ROWS {
            return Err(Error::DeserializeError(ReadReason::TooManyRows));
        }
        match type_.unwrap_variant() {
            Err(e) => Err(e),
            Ok(_) => type_.deserialize_column(reader, rows, state),
        }
    }
}

} // verus!
