//! Columns of any type with what stands before them.
use vstd::prelude::*;

use crate::column_laws::{column_fits, law_prefix_reads_back, plain_prefix, plain_prefixes};
use crate::column_read::{parsed_column, DeserializerState};
use crate::columns::{column_bytes, field_types, followed, lemma_wrote, wrote, Written};
use crate::dynamic::{
    dynamic_bytes, dynamic_prefix, entries_of, law_values_are_registered, names_of, registry,
    server_too_old, takes_complex_types, DynamicSerializer, DYNAMIC_VERSION_FLATTENED,
};
use crate::dynamic_laws::{
    dynamic_stored, law_dynamic_prefix_reads_back, law_dynamic_stored_same,
    law_mixed_dynamic_reads_back, names_tell, types_fit, types_stored,
};
use crate::dynamic_read::{parsed_dynamic, parsed_dynamic_prefix, DynamicDeserializer};
use crate::error::{ComplexType, Error, Result};
use crate::json_columns::{analyzed, JsonParts, JsonSerializer, JSON_OBJECT_VERSION_FLATTENED};
use crate::json_documents::{documents, parsed_json};
use crate::json_laws::{
    header_fits, law_json_columns_read_back, law_json_prefix_reads_back, layout_of, names_short,
    parts_fit, stored_block,
};
use crate::json_paths::typed_type;
use crate::json_read::{parsed_json_prefix, typed_paths_in, JsonDeserializer, LayoutView};
use crate::json_write::{column_names, json_bytes, json_prefix, same_prefixes, written_version};
use crate::mixed_laws::{
    is_stored, law_fitting_is_stored, law_mixed_column_reads_back, law_stored_len, stored,
};
use crate::prefixes::{parsed_prefix, prefix_bytes};
use crate::sparse::SparseState;
use crate::state::{SerializerState, TypeSpecificState};
use crate::types::{Type, TypeView};
use crate::values::{value_views, Value, ValueView};
use crate::wire::Parsed;

verus! {

/// The version of a server.
pub type ServerVersion = Option<(u64, u64, u64)>;

/// The bytes of a column of documents, behind what stands before it.
pub open spec fn whole_json(p: JsonParts, server: ServerVersion) -> Written {
    if written_version(p.version) == JSON_OBJECT_VERSION_FLATTENED && !takes_complex_types(server) {
        Err(server_too_old(ComplexType::Json, server))
    } else {
        followed(json_prefix(p), json_bytes(p))
    }
}

/// The bytes of a column, behind what stands before it. Documents are written in the
/// given version.
pub open spec fn whole_bytes(
    t: TypeView,
    vs: Seq<ValueView>,
    version: Option<u64>,
    server: ServerVersion,
) -> Written {
    match t {
        TypeView::Dynamic { .. } => if !takes_complex_types(server) {
            Err(server_too_old(ComplexType::Dynamic, server))
        } else {
            let entries = entries_of(registry(vs));
            followed(dynamic_prefix(entries), dynamic_bytes(vs, entries))
        },
        TypeView::JSON { .. } => match analyzed(vs, t, version) {
            Err(e) => Err(e),
            Ok(p) => whole_json(p, server),
        },
        _ => followed(prefix_bytes(t), column_bytes(t, vs)),
    }
}

/// Reads a column of `n` values, behind what stands before it.
pub open spec fn parsed_whole(s: Seq<u8>, t: TypeView, n: nat) -> Parsed<Seq<ValueView>> {
    match t {
        TypeView::Dynamic { .. } => match parsed_dynamic_prefix(s) {
            Err(e) => Err(e),
            Ok(((version, entries), next)) => parsed_dynamic(next, n, Some(version), entries),
        },
        TypeView::JSON { .. } => match parsed_json_prefix(s, t) {
            Err(e) => Err(e),
            Ok((layout, next)) => parsed_json(next, n, layout),
        },
        _ => match parsed_prefix(s, t) {
            Err(e) => Err(e),
            Ok((_, next)) => match parsed_column(
                next,
                t,
                n,
                Set::empty(),
                Seq::empty(),
                Map::empty(),
            ) {
                Err(e) => Err(e),
                Ok(((vs, _), end)) => Ok((vs, end)),
            },
        },
    }
}

fn write_dynamic(values: &Vec<Value>, server: ServerVersion, writer: &mut Vec<u8>) -> (r: Result<()>)
    ensures
        wrote(
            old(writer)@,
            final(writer)@,
            r,
            whole_bytes(
                (TypeView::Dynamic { max_types: None }),
                value_views(values@),
                None,
                server,
            ),
        ),
{
    let state = SerializerState {
        type_specific: DynamicSerializer::analyze_values(values),
        server_version: server,
    };
    let ghost entries = entries_of(registry(value_views(values@)));
    let ghost start = writer@;
    match DynamicSerializer::write_prefix_sync(writer, &state) {
        Err(e) => return Err(e),
        Ok(()) => {},
    }
    let ghost mid = writer@;
    let r = DynamicSerializer::write_sync(values, writer, &state);
    proof {
        lemma_wrote(
            start,
            mid,
            writer@,
            r,
            dynamic_prefix(entries),
            dynamic_bytes(value_views(values@), entries),
        );
    }
    r
}

fn write_json(
    type_: &Type,
    values: &Vec<Value>,
    version: Option<u64>,
    server: ServerVersion,
    writer: &mut Vec<u8>,
) -> (r: Result<()>)
    requires
        type_@ is JSON,
    ensures
        wrote(
            old(writer)@,
            final(writer)@,
            r,
            whole_bytes(type_@, value_views(values@), version, server),
        ),
{
    let st = match JsonSerializer::analyze_values_with_version(values, type_, version) {
        Err(e) => return Err(e),
        Ok(st) => st,
    };
    let ghost p = st@;
    let state = SerializerState {
        type_specific: TypeSpecificState::Json(st),
        server_version: server,
    };
    let ghost start = writer@;
    match JsonSerializer::write_known_prefix(writer, &state) {
        Err(e) => return Err(e),
        Ok(()) => {},
    }
    let ghost mid = writer@;
    let r = JsonSerializer::write_known(writer, &state);
    proof {
        lemma_wrote(start, mid, writer@, r, json_prefix(p), json_bytes(p));
    }
    r
}

fn read_dynamic(type_: &Type, reader: &mut &[u8], rows: usize) -> (r: Result<Vec<Value>>)
    requires
        type_@ is Dynamic,
    ensures
        match r {
            Ok(v) => parsed_whole(old(reader)@, type_@, rows as nat) == Ok::<_, Error>(
                (value_views(v@), final(reader)@),
            ),
            Err(e) => parsed_whole(old(reader)@, type_@, rows as nat) == Err::<
                (Seq<ValueView>, Seq<u8>),
                Error,
            >(e),
        },
{
    let mut state = DeserializerState::new();
    match DynamicDeserializer::read_prefix(reader, &mut state) {
        Err(e) => return Err(e),
        Ok(()) => {},
    }
    DynamicDeserializer::read(reader, rows, &state)
}

fn read_json(type_: &Type, reader: &mut &[u8], rows: usize) -> (r: Result<Vec<Value>>)
    requires
        type_@ is JSON,
    ensures
        match r {
            Ok(v) => parsed_whole(old(reader)@, type_@, rows as nat) == Ok::<_, Error>(
                (value_views(v@), final(reader)@),
            ),
            Err(e) => parsed_whole(old(reader)@, type_@, rows as nat) == Err::<
                (Seq<ValueView>, Seq<u8>),
                Error,
            >(e),
        },
{
    let mut state = DeserializerState::new();
    match JsonDeserializer::read_prefix(type_, reader, &mut state) {
        Err(e) => return Err(e),
        Ok(()) => {},
    }
    JsonDeserializer::read(reader, rows, &state)
}

fn read_plain(type_: &Type, reader: &mut &[u8], rows: usize) -> (r: Result<Vec<Value>>)
    requires
        !(type_@ is Dynamic),
        !(type_@ is JSON),
    ensures
        match r {
            Ok(v) => parsed_whole(old(reader)@, type_@, rows as nat) == Ok::<_, Error>(
                (value_views(v@), final(reader)@),
            ),
            Err(e) => parsed_whole(old(reader)@, type_@, rows as nat) == Err::<
                (Seq<ValueView>, Seq<u8>),
                Error,
            >(e),
        },
{
    let mut state = DeserializerState::new();
    match type_.deserialize_plain_prefix(reader) {
        Err(e) => return Err(e),
        Ok(()) => {},
    }
    type_.deserialize_plain_column(reader, rows, &mut state)
}

impl Type {
    /// Appends a column of values of this type, behind what stands before it. Documents
    /// are written in the given version; servers of some versions take none. Columns of any
    /// values, or of documents, below other types are written with what is known of them, by
    /// [`Type::serialize_prefix`] and [`Type::serialize_column`]; here they are refused.
    pub fn write_column(
        &self,
        values: &Vec<Value>,
        version: Option<u64>,
        server: ServerVersion,
        writer: &mut Vec<u8>,
    ) -> (r: Result<()>)
        ensures
            wrote(
                old(writer)@,
                final(writer)@,
                r,
                whole_bytes(self@, value_views(values@), version, server),
            ),
    {
        match self {
            Type::Dynamic { .. } => write_dynamic(values, server, writer),
            Type::JSON { .. } => write_json(self, values, version, server, writer),
            _ => {
                let ghost start = writer@;
                match self.serialize_plain_prefix(writer) {
                    Err(e) => return Err(e),
                    Ok(()) => {},
                }
                let ghost mid = writer@;
                let r = self.serialize_plain_column(values, writer);
                proof {
                    lemma_wrote(
                        start,
                        mid,
                        writer@,
                        r,
                        prefix_bytes(self@),
                        column_bytes(self@, value_views(values@)),
                    );
                }
                r
            },
        }
    }

    /// Reads a column of values of this type, behind what stands before it. Columns of any
    /// values, or of documents, below other types are read by [`Type::deserialize_prefix`]
    /// and [`Type::deserialize_column`]; here they are refused.
    pub fn read_column(&self, reader: &mut &[u8], rows: usize) -> (r: Result<Vec<Value>>)
        ensures
            match r {
                Ok(v) => parsed_whole(old(reader)@, self@, rows as nat) == Ok::<_, Error>(
                    (value_views(v@), final(reader)@),
                ),
                Err(e) => parsed_whole(old(reader)@, self@, rows as nat) == Err::<
                    (Seq<ValueView>, Seq<u8>),
                    Error,
                >(e),
            },
    {
        match self {
            Type::Dynamic { .. } => read_dynamic(self, reader, rows),
            Type::JSON { .. } => read_json(self, reader, rows),
            _ => read_plain(self, reader, rows),
        }
    }
}

// ---------------------------------------------------------------------------
// Reading back
// ---------------------------------------------------------------------------

proof fn lemma_assoc(a: Seq<u8>, b: Seq<u8>, rest: Seq<u8>)
    ensures
        a + b + rest == a + (b + rest),
{
    assert(a + b + rest =~= a + (b + rest));
}

proof fn lemma_column_back(t: TypeView, vs: Seq<ValueView>, rest: Seq<u8>) -> (b: Seq<u8>)
    requires
        is_stored(t, vs),
    ensures
        column_bytes(t, vs) == Ok::<_, Error>(b),
        parsed_column(b + rest, t, vs.len(), Set::empty(), Seq::empty(), Map::empty()) == Ok::<
            _,
            Error,
        >(((stored(t, vs), Map::<Seq<u16>, SparseState>::empty()), rest)),
{
    law_stored_len(t, vs);
    law_mixed_column_reads_back(t, vs, rest, Seq::empty(), Map::empty());
    column_bytes(t, vs)->Ok_0
}

proof fn lemma_prefix_back(t: TypeView, rest: Seq<u8>) -> (a: Seq<u8>)
    requires
        plain_prefix(t),
    ensures
        prefix_bytes(t) == Ok::<_, Error>(a),
        parsed_prefix(a + rest, t) == Ok::<_, Error>(((), rest)),
{
    law_prefix_reads_back(t, rest);
    prefix_bytes(t)->Ok_0
}

proof fn lemma_plain_bytes(
    t: TypeView,
    vs: Seq<ValueView>,
    version: Option<u64>,
    server: ServerVersion,
    a: Seq<u8>,
    b: Seq<u8>,
)
    requires
        !(t is Dynamic) && !(t is JSON),
        prefix_bytes(t) == Ok::<_, Error>(a),
        column_bytes(t, vs) == Ok::<_, Error>(b),
    ensures
        whole_bytes(t, vs, version, server) == Ok::<_, Error>(a + b),
{
}

proof fn lemma_plain_step(
    s: Seq<u8>,
    t: TypeView,
    next: Seq<u8>,
    vs: Seq<ValueView>,
    end: Seq<u8>,
)
    requires
        !(t is Dynamic) && !(t is JSON),
        parsed_prefix(s, t) == Ok::<_, Error>(((), next)),
        parsed_column(next, t, vs.len(), Set::empty(), Seq::empty(), Map::empty()) == Ok::<
            _,
            Error,
        >(((vs, Map::<Seq<u16>, SparseState>::empty()), end)),
    ensures
        parsed_whole(s, t, vs.len()) == Ok::<_, Error>((vs, end)),
{
}

/// What is read of a column is what its values are written as: arrays of bare values of
/// several types come back as arrays of the same values under the discriminators of their
/// types.
#[verifier::spinoff_prover]
#[verifier::rlimit(60)]
pub proof fn law_mixed_plain_column_reads_back(
    t: TypeView,
    vs: Seq<ValueView>,
    version: Option<u64>,
    server: ServerVersion,
    rest: Seq<u8>,
)
    requires
        !(t is Dynamic) && !(t is JSON),
        plain_prefix(t),
        is_stored(t, vs),
    ensures
        whole_bytes(t, vs, version, server) is Ok,
        parsed_whole(whole_bytes(t, vs, version, server)->Ok_0 + rest, t, vs.len()) == Ok::<
            _,
            Error,
        >((stored(t, vs), rest)),
{
    law_stored_len(t, vs);
    let b = lemma_column_back(t, vs, rest);
    let a = lemma_prefix_back(t, b + rest);
    lemma_plain_bytes(t, vs, version, server, a, b);
    lemma_assoc(a, b, rest);
    lemma_plain_step(a + (b + rest), t, b + rest, stored(t, vs), rest);
}

/// A column of a type whose values are all of that type is read back.
pub proof fn law_plain_column_reads_back(
    t: TypeView,
    vs: Seq<ValueView>,
    version: Option<u64>,
    server: ServerVersion,
    rest: Seq<u8>,
)
    requires
        !(t is Dynamic) && !(t is JSON),
        plain_prefix(t),
        column_fits(t, vs),
    ensures
        whole_bytes(t, vs, version, server) is Ok,
        parsed_whole(whole_bytes(t, vs, version, server)->Ok_0 + rest, t, vs.len()) == Ok::<
            _,
            Error,
        >((vs, rest)),
{
    law_fitting_is_stored(t, vs);
    law_mixed_plain_column_reads_back(t, vs, version, server, rest);
}

/// Whether a column of any values can be read back: the names of their types tell them,
/// and the values are of those types.
#[verifier::opaque]
pub open spec fn dynamic_reads(vs: Seq<ValueView>) -> bool {
    &&& registry(vs).len() <= u64::MAX
    &&& names_tell(entries_of(registry(vs)))
    &&& plain_prefixes(field_types(entries_of(registry(vs))))
    &&& types_fit(field_types(entries_of(registry(vs))), vs, registry(vs), 0)
}

/// Whether a column of any values can be read back as it is written: the names of their
/// types tell them, and the values are written as values of those types.
#[verifier::opaque]
pub open spec fn dynamic_stores(vs: Seq<ValueView>) -> bool {
    &&& registry(vs).len() <= u64::MAX
    &&& names_tell(entries_of(registry(vs)))
    &&& plain_prefixes(field_types(entries_of(registry(vs))))
    &&& types_stored(field_types(entries_of(registry(vs))), vs, registry(vs), 0)
}

pub(crate) proof fn lemma_dynamic_same(vs: Seq<ValueView>)
    requires
        dynamic_reads(vs),
    ensures
        dynamic_stores(vs),
        dynamic_stored(vs, entries_of(registry(vs))) == vs,
{
    reveal(dynamic_reads);
    reveal(dynamic_stores);
    assert(names_of(entries_of(registry(vs))) =~= registry(vs));
    law_values_are_registered(vs);
    law_dynamic_stored_same(vs, entries_of(registry(vs)));
}

proof fn lemma_dynamic_back(vs: Seq<ValueView>, rest: Seq<u8>) -> (b: Seq<u8>)
    requires
        dynamic_stores(vs),
    ensures
        dynamic_bytes(vs, entries_of(registry(vs))) == Ok::<_, Error>(b),
        parsed_dynamic(
            b + rest,
            vs.len(),
            Some(DYNAMIC_VERSION_FLATTENED),
            entries_of(registry(vs)),
        ) == Ok::<_, Error>((dynamic_stored(vs, entries_of(registry(vs))), rest)),
{
    reveal(dynamic_stores);
    assert(names_of(entries_of(registry(vs))) =~= registry(vs));
    law_values_are_registered(vs);
    law_mixed_dynamic_reads_back(vs, entries_of(registry(vs)), rest);
    dynamic_bytes(vs, entries_of(registry(vs)))->Ok_0
}

proof fn lemma_dynamic_prefix_back(vs: Seq<ValueView>, rest: Seq<u8>) -> (a: Seq<u8>)
    requires
        dynamic_stores(vs),
    ensures
        dynamic_prefix(entries_of(registry(vs))) == Ok::<_, Error>(a),
        parsed_dynamic_prefix(a + rest) == Ok::<_, Error>(
            ((DYNAMIC_VERSION_FLATTENED, entries_of(registry(vs))), rest),
        ),
{
    reveal(dynamic_stores);
    law_dynamic_prefix_reads_back(entries_of(registry(vs)), rest);
    dynamic_prefix(entries_of(registry(vs)))->Ok_0
}

/// What is read of a column of any values is what they are written as: arrays of bare
/// values of several types come back as arrays of the same values under the
/// discriminators of their types.
#[verifier::spinoff_prover]
#[verifier::rlimit(60)]
pub proof fn law_mixed_dynamic_column_reads_back(
    t: TypeView,
    vs: Seq<ValueView>,
    version: Option<u64>,
    server: ServerVersion,
    rest: Seq<u8>,
)
    requires
        t is Dynamic,
        takes_complex_types(server),
        dynamic_stores(vs),
    ensures
        whole_bytes(t, vs, version, server) is Ok,
        parsed_whole(whole_bytes(t, vs, version, server)->Ok_0 + rest, t, vs.len()) == Ok::<
            _,
            Error,
        >((dynamic_stored(vs, entries_of(registry(vs))), rest)),
{
    let b = lemma_dynamic_back(vs, rest);
    let a = lemma_dynamic_prefix_back(vs, b + rest);
    lemma_assoc(a, b, rest);
    assert(whole_bytes(t, vs, version, server) == Ok::<_, Error>(a + b));
}

/// A column of any values is read back, where the names of their types tell them.
pub proof fn law_dynamic_column_reads_back(
    t: TypeView,
    vs: Seq<ValueView>,
    version: Option<u64>,
    server: ServerVersion,
    rest: Seq<u8>,
)
    requires
        t is Dynamic,
        takes_complex_types(server),
        dynamic_reads(vs),
    ensures
        whole_bytes(t, vs, version, server) is Ok,
        parsed_whole(whole_bytes(t, vs, version, server)->Ok_0 + rest, t, vs.len()) == Ok::<
            _,
            Error,
        >((vs, rest)),
{
    lemma_dynamic_same(vs);
    law_mixed_dynamic_column_reads_back(t, vs, version, server, rest);
}

/// Whether a column of documents can be read back: its columns fit, its types are told
/// by their names, and what stands before the columns of the paths with types of their own
/// is the same in the order of the paths and in that of the type.
#[verifier::opaque]
pub open spec fn json_reads(p: JsonParts) -> bool {
    &&& !p.taken
    &&& parts_fit(p)
    &&& same_prefixes(p.typed)
    &&& plain_prefixes(field_types(p.typed))
    &&& names_short(column_names(p.dynamic))
    &&& p.dynamic.len() <= u64::MAX
    &&& forall|i: int| 0 <= i < p.dynamic.len() ==> header_fits((#[trigger] p.dynamic[i]).1)
    &&& forall|i: int|
        0 <= i < p.dynamic.len() ==> typed_type(p.typed, (#[trigger] p.dynamic[i]).0) is None
}

pub(crate) proof fn lemma_json_back(p: JsonParts, rest: Seq<u8>) -> (b: Seq<u8>)
    requires
        json_reads(p),
    ensures
        json_bytes(p) == Ok::<_, Error>(b),
        parsed_json(b + rest, p.rows, layout_of(p)) == (match documents(stored_block(p), p.rows) {
            Err(e) => Err(e),
            Ok(v) => Ok((v, rest)),
        }),
{
    reveal(json_reads);
    law_json_columns_read_back(p, rest);
    json_bytes(p)->Ok_0
}

pub(crate) proof fn lemma_json_prefix_back(p: JsonParts, t: TypeView, rest: Seq<u8>) -> (a: Seq<u8>)
    requires
        json_reads(p),
        t is JSON,
        typed_paths_in(t) == p.typed,
    ensures
        json_prefix(p) == Ok::<_, Error>(a),
        parsed_json_prefix(a + rest, t) == Ok::<_, Error>((layout_of(p), rest)),
{
    reveal(json_reads);
    law_json_prefix_reads_back(p, t, rest);
    json_prefix(p)->Ok_0
}

proof fn lemma_json_step(
    s: Seq<u8>,
    t: TypeView,
    n: nat,
    layout: LayoutView,
    next: Seq<u8>,
)
    requires
        t is JSON,
        parsed_json_prefix(s, t) == Ok::<_, Error>((layout, next)),
    ensures
        parsed_whole(s, t, n) == parsed_json(next, n, layout),
{
}

proof fn lemma_whole_json(p: JsonParts, server: ServerVersion, a: Seq<u8>, b: Seq<u8>)
    requires
        written_version(p.version) == JSON_OBJECT_VERSION_FLATTENED ==> takes_complex_types(server),
        json_prefix(p) == Ok::<_, Error>(a),
        json_bytes(p) == Ok::<_, Error>(b),
    ensures
        whole_json(p, server) == Ok::<_, Error>(a + b),
{
}

/// What is read of a column of documents that was written is the documents of its own
/// paths and values as they are written.
#[verifier::spinoff_prover]
#[verifier::rlimit(60)]
pub proof fn law_json_column_reads_back(
    t: TypeView,
    p: JsonParts,
    server: ServerVersion,
    rest: Seq<u8>,
)
    requires
        t is JSON,
        typed_paths_in(t) == p.typed,
        json_reads(p),
        written_version(p.version) == JSON_OBJECT_VERSION_FLATTENED ==> takes_complex_types(server),
    ensures
        whole_json(p, server) is Ok,
        parsed_whole(whole_json(p, server)->Ok_0 + rest, t, p.rows) == (match documents(
            stored_block(p),
            p.rows,
        ) {
            Err(e) => Err(e),
            Ok(v) => Ok((v, rest)),
        }),
{
    let b = lemma_json_back(p, rest);
    let a = lemma_json_prefix_back(p, t, b + rest);
    lemma_whole_json(p, server, a, b);
    lemma_assoc(a, b, rest);
    lemma_json_step(a + (b + rest), t, p.rows, layout_of(p), b + rest);
}

} // verus!
