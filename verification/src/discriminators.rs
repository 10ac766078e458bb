//! Discriminators of as many bytes as the number of types calls for.
use std::collections::HashMap;

use vstd::prelude::*;

use crate::error::{Error, ReadReason, Result};
use crate::text::string_from_utf8;
use crate::type_parse::parsed_type;
use crate::types::{Type, TypeView};
use crate::variant::rank;
use crate::wire::{
    get_u16_le, get_u32_le, get_u64_le, get_u8, law_uint_reads_back, le_bytes, lemma_pow256,
    parsed_uint, pow256, put_u16_le, put_u32_le, put_u64_le, put_u8, Parsed,
};
use vstd::utf8::{decode_utf8, valid_utf8};

verus! {

/// How many bytes a discriminator takes among the given number of types.
pub open spec fn discriminator_size(total_types: nat) -> nat {
    if total_types <= 255 {
        1
    } else if total_types <= 65535 {
        2
    } else if total_types <= 4_294_967_295 {
        4
    } else {
        8
    }
}

/// Every discriminator, and the one of null, fits in its bytes.
pub proof fn law_discriminator_fits(d: nat, total_types: nat)
    requires
        d <= total_types <= u64::MAX,
    ensures
        d < pow256(discriminator_size(total_types)),
{
    lemma_pow256();
}

/// A discriminator that was written is read back.
pub proof fn law_discriminator_reads_back(d: nat, total_types: nat, rest: Seq<u8>)
    requires
        d <= total_types <= u64::MAX,
    ensures
        parsed_uint(
            le_bytes(d, discriminator_size(total_types)) + rest,
            discriminator_size(total_types),
        ) == Ok::<_, Error>((d, rest)),
{
    law_discriminator_fits(d, total_types);
    law_uint_reads_back(d, discriminator_size(total_types), rest);
}

/// Appends a discriminator that fits in its bytes.
pub fn write_discriminator_sync(writer: &mut Vec<u8>, discriminator: u64, total_types: usize)
    requires
        discriminator < pow256(discriminator_size(total_types as nat)),
    ensures
        final(writer)@ == old(writer)@ + le_bytes(
            discriminator as nat,
            discriminator_size(total_types as nat),
        ),
{
    proof {
        lemma_pow256();
    }
    let total: u64 = total_types as u64;
    if total <= 255 {
        put_u8(writer, discriminator as u8);
    } else if total <= 65535 {
        put_u16_le(writer, discriminator as u16);
    } else if total <= 4_294_967_295 {
        put_u32_le(writer, discriminator as u32);
    } else {
        put_u64_le(writer, discriminator);
    }
}

/// Reads a discriminator.
pub fn read_discriminator(reader: &mut &[u8], total_types: u64) -> (r: Result<u64>)
    ensures
        match r {
            Ok(d) => parsed_uint(old(reader)@, discriminator_size(total_types as nat)) == Ok::<
                _,
                Error,
            >((d as nat, final(reader)@)),
            Err(e) => parsed_uint(old(reader)@, discriminator_size(total_types as nat)) == Err::<
                (nat, Seq<u8>),
                Error,
            >(e),
        },
{
    if total_types <= 255 {
        match get_u8(reader) {
            Ok(x) => Ok(x as u64),
            Err(e) => Err(e),
        }
    } else if total_types <= 65535 {
        match get_u16_le(reader) {
            Ok(x) => Ok(x as u64),
            Err(e) => Err(e),
        }
    } else if total_types <= 4_294_967_295 {
        match get_u32_le(reader) {
            Ok(x) => Ok(x as u64),
            Err(e) => Err(e),
        }
    } else {
        get_u64_le(reader)
    }
}

/// Reads `n` discriminators.
pub open spec fn parsed_discriminators(s: Seq<u8>, n: nat, total_types: nat) -> Parsed<Seq<u64>>
    decreases n,
{
    if n == 0 {
        Ok((Seq::empty(), s))
    } else {
        match parsed_uint(s, discriminator_size(total_types)) {
            Err(e) => Err(e),
            Ok((d, next)) => match parsed_discriminators(next, (n - 1) as nat, total_types) {
                Err(e) => Err(e),
                Ok((ds, end)) => Ok((seq![d as u64] + ds, end)),
            },
        }
    }
}

/// Reads `n` discriminators.
pub fn read_discriminators(reader: &mut &[u8], n: usize, total_types: u64) -> (r: Result<Vec<u64>>)
    ensures
        match r {
            Ok(v) => {
                &&& parsed_discriminators(old(reader)@, n as nat, total_types as nat) == Ok::<
                    _,
                    Error,
                >((v@, final(reader)@))
                &&& v@.len() == n
            },
            Err(e) => parsed_discriminators(old(reader)@, n as nat, total_types as nat) == Err::<
                (Seq<u64>, Seq<u8>),
                Error,
            >(e),
        },
{
    let mut out: Vec<u64> = Vec::new();
    let mut i: usize = 0;
    proof {
        if let Ok((ds, _)) = parsed_discriminators(reader@, n as nat, total_types as nat) {
            assert(out@ + ds =~= ds);
        }
    }
    while i < n
        invariant
            i <= n,
            out@.len() == i,
            parsed_discriminators(old(reader)@, n as nat, total_types as nat)
                == match parsed_discriminators(reader@, (n - i) as nat, total_types as nat) {
                Err(e) => Err(e),
                Ok((ds, end)) => Ok((out@ + ds, end)),
            },
        decreases n - i,
    {
        let ghost head = out@;
        match read_discriminator(reader, total_types) {
            Err(e) => return Err(e),
            Ok(d) => {
                out.push(d);
                proof {
                    if let Ok((ds, _)) = parsed_discriminators(
                        reader@,
                        (n - i - 1) as nat,
                        total_types as nat,
                    ) {
                        assert(head + (seq![d] + ds) =~= out@ + ds);
                    }
                }
            },
        }
        i += 1;
    }
    assert(out@ + Seq::<u64>::empty() =~= out@);
    Ok(out)
}

/// For each row, how many rows with its discriminator stand before it, and for each
/// discriminator that occurs, how many rows have it. The discriminator of null is the
/// number of types; it counts for nothing.
pub fn build_offsets(discriminators: &Vec<u64>, total_types: u64) -> (r: (
    Vec<usize>,
    HashMap<u64, usize>,
))
    ensures
        r.0@.len() == discriminators@.len(),
        forall|i: int|
            0 <= i < discriminators@.len() ==> (#[trigger] r.0@[i]) == (if discriminators@[i]
                == total_types {
                0
            } else {
                rank(discriminators@, discriminators@[i], i)
            }),
        forall|d: u64|
            #![trigger r.1@.contains_key(d)]
            r.1@.contains_key(d) == (d != total_types && rank(
                discriminators@,
                d,
                discriminators@.len() as int,
            ) > 0),
        forall|d: u64|
            #![trigger r.1@[d]]
            r.1@.contains_key(d) ==> r.1@[d] == rank(
                discriminators@,
                d,
                discriminators@.len() as int,
            ),
{
    broadcast use vstd::std_specs::hash::group_hash_axioms;

    let mut counts: HashMap<u64, usize> = HashMap::new();
    let mut offsets: Vec<usize> = Vec::new();
    let mut i: usize = 0;
    while i < discriminators.len()
        invariant
            i <= discriminators.len(),
            offsets@.len() == i,
            forall|j: int|
                0 <= j < i ==> (#[trigger] offsets@[j]) == (if discriminators@[j] == total_types {
                    0
                } else {
                    rank(discriminators@, discriminators@[j], j)
                }),
            forall|d: u64|
                #![trigger counts@.contains_key(d)]
                counts@.contains_key(d) == (d != total_types && rank(
                    discriminators@,
                    d,
                    i as int,
                ) > 0),
            forall|d: u64|
                #![trigger counts@[d]]
                counts@.contains_key(d) ==> counts@[d] == rank(discriminators@, d, i as int),
            forall|d: u64| #[trigger] counts@.contains_key(d) ==> counts@[d] <= i,
        decreases discriminators.len() - i,
    {
        let disc: u64 = discriminators[i];
        if disc != total_types {
            let count: usize = match counts.get(&disc) {
                Some(c) => *c,
                None => 0,
            };
            offsets.push(count);
            assert(counts@.contains_key(disc) || count == 0);
            counts.insert(disc, count + 1);
        } else {
            offsets.push(0);
        }
        i += 1;
    }
    (offsets, counts)
}

/// The name and the type that the bytes of a name tell.
pub open spec fn type_entry(bytes: Seq<u8>) -> core::result::Result<
    (Seq<char>, TypeView),
    Error,
> {
    if !valid_utf8(bytes) {
        Err(Error::DeserializeError(ReadReason::InvalidUtf8))
    } else {
        match parsed_type(decode_utf8(bytes)) {
            Ok(t) => Ok((decode_utf8(bytes), t)),
            Err(_) => Err(Error::DeserializeError(ReadReason::UnknownTypeName)),
        }
    }
}

/// The name and the type that the bytes of a name tell.
pub fn parse_type_entry(type_name_bytes: Vec<u8>) -> (r: Result<(String, Type)>)
    ensures
        match r {
            Ok((name, t)) => type_entry(type_name_bytes@) == Ok::<_, Error>((name@, t@)),
            Err(e) => type_entry(type_name_bytes@) == Err::<(Seq<char>, TypeView), Error>(e),
        },
{
    match string_from_utf8(type_name_bytes) {
        None => Err(Error::DeserializeError(ReadReason::InvalidUtf8)),
        Some(name) => match Type::from_str(name.as_str()) {
            Ok(t) => Ok((name, t)),
            Err(_) => Err(Error::DeserializeError(ReadReason::UnknownTypeName)),
        },
    }
}

} // verus!
