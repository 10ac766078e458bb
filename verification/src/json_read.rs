//! Reading columns of JSON documents.
use vstd::prelude::*;
use vstd::utf8::{decode_utf8, valid_utf8};

use crate::column_read::{parsed_column, KindPlan};
use crate::columns::{field_types, types_of_fields};
use crate::discriminators::{build_offsets, parsed_discriminators, read_discriminators};
use crate::dynamic_read::{
    dynamic_row, parsed_type_columns, parsed_types_flattened, read_type_columns,
    read_types_flattened,
};
use crate::error::{Error, ReadReason, Result};
use crate::json_columns::{
    JSON_OBJECT_VERSION_FLATTENED, JSON_OBJECT_VERSION_V1, JSON_OBJECT_VERSION_V2,
};
use crate::json_paths::{find_typed, typed_type};
use crate::prefixes::{deserialize_prefixes, parsed_prefixes};
use crate::sparse::SparseRuntime;
use crate::text::{string_from_utf8, texts};
use crate::types::{field_views, type_views, Type, TypeView};
use crate::values::{value_views, Value, ValueView};
use crate::variant::{column_views, rank};
use crate::wire::{
    get_u64_le, parsed_string, parsed_uint, parsed_varuint, read_string, read_varuint, Parsed,
};

verus! {

/// The version of the format in which documents are strings.
pub const JSON_OBJECT_VERSION_STRING: u64 = 1;

// ---------------------------------------------------------------------------
// What stands before a column
// ---------------------------------------------------------------------------

/// Reads `n` names.
pub open spec fn parsed_names(s: Seq<u8>, n: nat) -> Parsed<Seq<Seq<char>>>
    decreases n,
{
    if n == 0 {
        Ok((Seq::empty(), s))
    } else {
        match parsed_string(s) {
            Err(e) => Err(e),
            Ok((b, next)) => if !valid_utf8(b) {
                Err(Error::DeserializeError(ReadReason::InvalidUtf8))
            } else {
                match parsed_names(next, (n - 1) as nat) {
                    Err(e) => Err(e),
                    Ok((rest, end)) => Ok((seq![decode_utf8(b)] + rest, end)),
                }
            },
        }
    }
}

/// The types at a path, with their names.
pub type Entries = Seq<(Seq<char>, TypeView)>;

/// Reads what stands before the columns of `n` paths: their types, each in the given
/// version.
pub open spec fn parsed_headers(s: Seq<u8>, n: nat, version: u64) -> Parsed<Seq<Entries>>
    decreases n,
{
    if n == 0 {
        Ok((Seq::empty(), s))
    } else {
        match parsed_uint(s, 8) {
            Err(e) => Err(e),
            Ok((v, next)) => if v != version {
                Err(Error::DeserializeError(ReadReason::UnsupportedVersion))
            } else {
                match parsed_types_flattened(next) {
                    Err(e) => Err(e),
                    Ok((entries, mid)) => match parsed_headers(mid, (n - 1) as nat, version) {
                        Err(e) => Err(e),
                        Ok((rest, end)) => Ok((seq![entries] + rest, end)),
                    },
                }
            },
        }
    }
}

/// The names that have no type of their own.
pub open spec fn untyped_names(names: Seq<Seq<char>>, typed: Seq<(Seq<char>, TypeView)>) -> Seq<
    Seq<char>,
>
    decreases names.len(),
{
    if names.len() == 0 {
        Seq::empty()
    } else {
        let head = untyped_names(names.drop_last(), typed);
        if typed_type(typed, names.last()) is Some {
            head
        } else {
            head.push(names.last())
        }
    }
}

/// The model of a [`JsonLayout`].
pub ghost struct LayoutView {
    pub version: u64,
    pub typed: Seq<(Seq<char>, TypeView)>,
    pub names: Seq<Seq<char>>,
    pub types: Seq<Entries>,
}

/// The paths of a column of documents.
#[derive(Debug)]
pub struct JsonLayout {
    /// The version of the format.
    pub version: u64,
    /// The paths with types of their own.
    pub typed_paths: Vec<(String, Type)>,
    /// The other paths.
    pub dynamic_paths: Vec<String>,
    /// The types at each of the other paths.
    pub dynamic_types: Vec<Vec<(String, Type)>>,
}

/// The views of the types at paths.
pub open spec fn entries_views(v: Seq<Vec<(String, Type)>>) -> Seq<Entries> {
    Seq::new(v.len(), |i: int| field_views(v[i]@))
}

impl JsonLayout {
    /// The model of the paths.
    pub open spec fn view(&self) -> LayoutView {
        LayoutView {
            version: self.version,
            typed: field_views(self.typed_paths@),
            names: texts(self.dynamic_paths@),
            types: entries_views(self.dynamic_types@),
        }
    }
}

/// The paths with types of their own that a type tells.
pub open spec fn typed_paths_in(t: TypeView) -> Seq<(Seq<char>, TypeView)> {
    match t {
        TypeView::JSON {
            max_dynamic_paths: _,
            max_dynamic_types: _,
            typed_paths,
            skip_exact: _,
            skip_regex: _,
        } => typed_paths,
        _ => Seq::empty(),
    }
}

/// Reads the paths behind the version.
pub open spec fn parsed_layout(s: Seq<u8>, typed: Seq<(Seq<char>, TypeView)>, version: u64) -> Parsed<
    LayoutView,
> {
    let start = if version == JSON_OBJECT_VERSION_V1 {
        match parsed_varuint(s) {
            Err(e) => Err(e),
            Ok((_, next)) => Ok(next),
        }
    } else {
        Ok(s)
    };
    match start {
        Err(e) => Err(e),
        Ok(s1) => match parsed_varuint(s1) {
            Err(e) => Err(e),
            Ok((n, s2)) => match parsed_names(s2, n) {
                Err(e) => Err(e),
                Ok((all, s3)) => {
                    let names = if version == JSON_OBJECT_VERSION_FLATTENED {
                        untyped_names(all, typed)
                    } else {
                        all
                    };
                    match parsed_prefixes(s3, field_types(typed)) {
                        Err(e) => Err(e),
                        Ok((_, s4)) => match parsed_headers(s4, names.len(), version) {
                            Err(e) => Err(e),
                            Ok((types, end)) => Ok(
                                (LayoutView { version, typed, names, types }, end),
                            ),
                        },
                    }
                },
            },
        },
    }
}

/// Reads what stands before a column of documents of a type.
pub open spec fn parsed_json_prefix(s: Seq<u8>, t: TypeView) -> Parsed<LayoutView> {
    let typed = typed_paths_in(t);
    match parsed_uint(s, 8) {
        Err(e) => Err(e),
        Ok((v, next)) => {
            let version = v as u64;
            if version == JSON_OBJECT_VERSION_STRING {
                Ok(
                    (
                        LayoutView { version, typed, names: Seq::empty(), types: Seq::empty() },
                        next,
                    ),
                )
            } else if version == JSON_OBJECT_VERSION_V1 || version == JSON_OBJECT_VERSION_V2
                || version == JSON_OBJECT_VERSION_FLATTENED {
                parsed_layout(next, typed, version)
            } else {
                Err(Error::DeserializeError(ReadReason::UnsupportedVersion))
            }
        },
    }
}

pub(crate) fn read_names(reader: &mut &[u8], n: u64) -> (r: Result<Vec<String>>)
    ensures
        match r {
            Ok(v) => parsed_names(old(reader)@, n as nat) == Ok::<_, Error>(
                (texts(v@), final(reader)@),
            ),
            Err(e) => parsed_names(old(reader)@, n as nat) == Err::<
                (Seq<Seq<char>>, Seq<u8>),
                Error,
            >(e),
        },
{
    let mut out: Vec<String> = Vec::new();
    let mut i: u64 = 0;
    proof {
        if let Ok((rest, _)) = parsed_names(reader@, n as nat) {
            assert(texts(out@) + rest =~= rest);
        }
    }
    while i < n
        invariant
            i <= n,
            parsed_names(old(reader)@, n as nat) == match parsed_names(reader@, (n - i) as nat) {
                Err(e) => Err(e),
                Ok((rest, end)) => Ok((texts(out@) + rest, end)),
            },
        decreases n - i,
    {
        let ghost head = texts(out@);
        let bytes = match read_string(reader) {
            Ok(b) => b,
            Err(e) => return Err(e),
        };
        match string_from_utf8(bytes) {
            None => return Err(Error::DeserializeError(ReadReason::InvalidUtf8)),
            Some(name) => {
                let ghost nv = name@;
                out.push(name);
                proof {
                    assert(texts(out@) =~= head.push(nv));
                    if let Ok((rest, _)) = parsed_names(reader@, (n - i - 1) as nat) {
                        assert(head + (seq![nv] + rest) =~= texts(out@) + rest);
                    }
                }
            },
        }
        i += 1;
    }
    assert(texts(out@) + Seq::<Seq<char>>::empty() =~= texts(out@));
    Ok(out)
}

fn read_headers(reader: &mut &[u8], n: usize, version: u64) -> (r: Result<Vec<Vec<(String, Type)>>>)
    ensures
        match r {
            Ok(v) => parsed_headers(old(reader)@, n as nat, version) == Ok::<_, Error>(
                (entries_views(v@), final(reader)@),
            ),
            Err(e) => parsed_headers(old(reader)@, n as nat, version) == Err::<
                (Seq<Entries>, Seq<u8>),
                Error,
            >(e),
        },
{
    let mut out: Vec<Vec<(String, Type)>> = Vec::new();
    let mut i: usize = 0;
    proof {
        if let Ok((rest, _)) = parsed_headers(reader@, n as nat, version) {
            assert(entries_views(out@) + rest =~= rest);
        }
    }
    while i < n
        invariant
            i <= n,
            parsed_headers(old(reader)@, n as nat, version) == match parsed_headers(
                reader@,
                (n - i) as nat,
                version,
            ) {
                Err(e) => Err(e),
                Ok((rest, end)) => Ok((entries_views(out@) + rest, end)),
            },
        decreases n - i,
    {
        let ghost head = entries_views(out@);
        let v: u64 = match get_u64_le(reader) {
            Ok(v) => v,
            Err(e) => return Err(e),
        };
        if v != version {
            return Err(Error::DeserializeError(ReadReason::UnsupportedVersion));
        }
        match read_types_flattened(reader) {
            Err(e) => return Err(e),
            Ok(types) => {
                let ghost tv = field_views(types@);
                out.push(types);
                proof {
                    assert(entries_views(out@) =~= head.push(tv));
                    if let Ok((rest, _)) = parsed_headers(reader@, (n - i - 1) as nat, version) {
                        assert(head + (seq![tv] + rest) =~= entries_views(out@) + rest);
                    }
                }
            },
        }
        i += 1;
    }
    assert(entries_views(out@) + Seq::<Entries>::empty() =~= entries_views(out@));
    Ok(out)
}

fn drop_typed(names: Vec<String>, typed: &Vec<(String, Type)>) -> (r: Vec<String>)
    ensures
        texts(r@) == untyped_names(texts(names@), field_views(typed@)),
{
    let ghost all = texts(names@);
    let ghost tv = field_views(typed@);
    let mut out: Vec<String> = Vec::new();
    let mut i: usize = 0;
    assert(texts(out@) =~= Seq::<Seq<char>>::empty());
    while i < names.len()
        invariant
            i <= names.len(),
            all == texts(names@),
            tv == field_views(typed@),
            texts(out@) == untyped_names(all.take(i as int), tv),
        decreases names.len() - i,
    {
        let ghost head = texts(out@);
        proof {
            assert(all.take(i + 1).drop_last() =~= all.take(i as int));
            assert(all.take(i + 1).last() == names@[i as int]@);
        }
        match find_typed(typed, &names[i]) {
            Some(_) => {},
            None => {
                let ghost nv = names@[i as int]@;
                out.push(names[i].clone());
                assert(texts(out@) =~= head.push(nv));
            },
        }
        i += 1;
    }
    assert(all.take(all.len() as int) =~= all);
    out
}

pub(crate) fn read_layout(reader: &mut &[u8], typed: Vec<(String, Type)>, version: u64) -> (r: Result<
    JsonLayout,
>)
    ensures
        match r {
            Ok(l) => parsed_layout(old(reader)@, field_views(typed@), version) == Ok::<_, Error>(
                (l@, final(reader)@),
            ),
            Err(e) => parsed_layout(old(reader)@, field_views(typed@), version) == Err::<
                (LayoutView, Seq<u8>),
                Error,
            >(e),
        },
{
    if version == JSON_OBJECT_VERSION_V1 {
        match read_varuint(reader) {
            Ok(_) => {},
            Err(e) => return Err(e),
        }
    }
    let n: u64 = match read_varuint(reader) {
        Ok(n) => n,
        Err(e) => return Err(e),
    };
    let all = match read_names(reader, n) {
        Ok(v) => v,
        Err(e) => return Err(e),
    };
    let names = if version == JSON_OBJECT_VERSION_FLATTENED {
        drop_typed(all, &typed)
    } else {
        all
    };
    let ts = types_of_fields(&typed);
    match deserialize_prefixes(&ts, reader) {
        Ok(()) => {},
        Err(e) => return Err(e),
    }
    assert(texts(names@).len() == names@.len());
    match read_headers(reader, names.len(), version) {
        Ok(types) => Ok(
            JsonLayout { version, typed_paths: typed, dynamic_paths: names, dynamic_types: types },
        ),
        Err(e) => Err(e),
    }
}

// ---------------------------------------------------------------------------
// Columns of paths
// ---------------------------------------------------------------------------

/// Reads the columns of the paths with types of their own.
pub open spec fn parsed_typed(s: Seq<u8>, typed: Seq<(Seq<char>, TypeView)>, n: nat) -> Parsed<
    Seq<Seq<ValueView>>,
>
    decreases typed.len(),
{
    if typed.len() == 0 {
        Ok((Seq::empty(), s))
    } else {
        match parsed_column(s, typed[0].1, n, Set::empty(), Seq::empty(), Map::empty()) {
            Err(e) => Err(e),
            Ok(((c, _), next)) => match parsed_typed(
                next,
                typed.subrange(1, typed.len() as int),
                n,
            ) {
                Err(e) => Err(e),
                Ok((cs, end)) => Ok((seq![c] + cs, end)),
            },
        }
    }
}

/// The rows that discriminators make of columns; where there is no value, null.
pub open spec fn path_rows(ds: Seq<u64>, total: nat, columns: Seq<Seq<ValueView>>) -> Seq<
    ValueView,
> {
    Seq::new(
        ds.len(),
        |i: int|
            match dynamic_row(ds[i], rank(ds, ds[i], i) as int, total, columns) {
                Some(v) => v,
                None => ValueView::Null,
            },
    )
}

/// Reads the column of a path at which there are values of the given types.
pub open spec fn parsed_path_values(s: Seq<u8>, n: nat, ts: Seq<TypeView>) -> Parsed<
    Seq<ValueView>,
> {
    match parsed_discriminators(s, n, ts.len()) {
        Err(e) => Err(e),
        Ok((ds, rest)) => match parsed_type_columns(rest, ts, ds, 0) {
            Err(e) => Err(e),
            Ok((columns, end)) => Ok((path_rows(ds, ts.len(), columns), end)),
        },
    }
}

/// Reads the columns of paths.
pub open spec fn parsed_dynamic_columns(s: Seq<u8>, n: nat, types: Seq<Entries>) -> Parsed<
    Seq<Seq<ValueView>>,
>
    decreases types.len(),
{
    if types.len() == 0 {
        Ok((Seq::empty(), s))
    } else {
        match parsed_path_values(s, n, field_types(types[0])) {
            Err(e) => Err(e),
            Ok((c, next)) => match parsed_dynamic_columns(
                next,
                n,
                types.subrange(1, types.len() as int),
            ) {
                Err(e) => Err(e),
                Ok((cs, end)) => Ok((seq![c] + cs, end)),
            },
        }
    }
}

pub(crate) fn read_typed(reader: &mut &[u8], typed: &Vec<(String, Type)>, rows: usize) -> (r: Result<
    Vec<Vec<Value>>,
>)
    ensures
        match r {
            Ok(v) => parsed_typed(old(reader)@, field_views(typed@), rows as nat) == Ok::<
                _,
                Error,
            >((column_views(v@), final(reader)@)),
            Err(e) => parsed_typed(old(reader)@, field_views(typed@), rows as nat) == Err::<
                (Seq<Seq<ValueView>>, Seq<u8>),
                Error,
            >(e),
        },
{
    let ghost all = field_views(typed@);
    let ghost whole = parsed_typed(reader@, all, rows as nat);
    let mut out: Vec<Vec<Value>> = Vec::new();
    let mut i: usize = 0;
    let plan = KindPlan::new(Vec::new());
    let root: Vec<u16> = Vec::new();
    proof {
        crate::column_read::lemma_kinds_of(Seq::empty());
        assert(plan.sparse() =~= Set::<Seq<u16>>::empty());
        assert(root@ =~= Seq::<u16>::empty());
        assert(all.subrange(0, all.len() as int) =~= all);
        if let Ok((cs, _)) = whole {
            assert(column_views(out@) + cs =~= cs);
        }
    }
    while i < typed.len()
        invariant
            i <= typed.len(),
            all == field_views(typed@),
            root@ == Seq::<u16>::empty(),
            plan.sparse() == Set::<Seq<u16>>::empty(),
            whole == parsed_typed(old(reader)@, all, rows as nat),
            whole == match parsed_typed(
                reader@,
                all.subrange(i as int, all.len() as int),
                rows as nat,
            ) {
                Err(e) => Err(e),
                Ok((cs, end)) => Ok((column_views(out@) + cs, end)),
            },
        decreases typed.len() - i,
    {
        let ghost head = column_views(out@);
        let ghost here = all.subrange(i as int, all.len() as int);
        proof {
            assert(here[0].1 == typed@[i as int].1@);
            assert(here.subrange(1, here.len() as int) =~= all.subrange(i + 1, all.len() as int));
        }
        let mut runtime = SparseRuntime::new();
        match typed[i].1.deserialize_column_with_path(reader, rows, &plan, &mut runtime, &root) {
            Err(e) => return Err(e),
            Ok(v) => {
                let ghost vv = value_views(v@);
                out.push(v);
                proof {
                    assert(column_views(out@) =~= head.push(vv));
                    if let Ok((cs, _)) = parsed_typed(
                        reader@,
                        all.subrange(i + 1, all.len() as int),
                        rows as nat,
                    ) {
                        assert(head + (seq![vv] + cs) =~= column_views(out@) + cs);
                    }
                }
            },
        }
        i += 1;
    }
    assert(column_views(out@) + Seq::<Seq<ValueView>>::empty() =~= column_views(out@));
    Ok(out)
}

/// Reads JSON documents.
pub struct JsonDeserializer;

impl JsonDeserializer {
    /// The rows that discriminators make of the columns of types; where there is no
    /// value, null.
    pub fn reconstruct_path_values(
        discriminators: &Vec<u64>,
        offsets: &Vec<usize>,
        columns: &Vec<Vec<Value>>,
        total_types: u64,
    ) -> (r: Vec<Value>)
        requires
            offsets@.len() == discriminators@.len(),
        ensures
            r@.len() == discriminators@.len(),
            forall|i: int|
                0 <= i < r@.len() ==> (#[trigger] r@[i])@ == (match dynamic_row(
                    discriminators@[i],
                    offsets@[i] as int,
                    total_types as nat,
                    column_views(columns@),
                ) {
                    Some(v) => v,
                    None => ValueView::Null,
                }),
    {
        let mut out: Vec<Value> = Vec::new();
        let mut i: usize = 0;
        while i < discriminators.len()
            invariant
                i <= discriminators.len(),
                offsets@.len() == discriminators@.len(),
                out@.len() == i,
                forall|j: int|
                    0 <= j < i ==> (#[trigger] out@[j])@ == (match dynamic_row(
                        discriminators@[j],
                        offsets@[j] as int,
                        total_types as nat,
                        column_views(columns@),
                    ) {
                        Some(v) => v,
                        None => ValueView::Null,
                    }),
            decreases discriminators.len() - i,
        {
            let disc: u64 = discriminators[i];
            let offset: usize = offsets[i];
            if disc != total_types && disc < columns.len() as u64 && offset < columns[disc as usize].len() {
                let x = columns[disc as usize][offset].clone();
                assert(column_views(columns@)[disc as int][offset as int] == x@);
                out.push(x);
            } else {
                proof {
                    if disc < columns@.len() {
                        assert(column_views(columns@)[disc as int].len()
                            == columns@[disc as int]@.len());
                    }
                }
                out.push(Value::Null);
            }
            i += 1;
        }
        out
    }
}

fn read_path_values(reader: &mut &[u8], rows: usize, types: &Vec<(String, Type)>) -> (r: Result<
    Vec<Value>,
>)
    ensures
        match r {
            Ok(v) => parsed_path_values(
                old(reader)@,
                rows as nat,
                field_types(field_views(types@)),
            ) == Ok::<_, Error>((value_views(v@), final(reader)@)),
            Err(e) => parsed_path_values(
                old(reader)@,
                rows as nat,
                field_types(field_views(types@)),
            ) == Err::<(Seq<ValueView>, Seq<u8>), Error>(e),
        },
{
    let ts = types_of_fields(types);
    let total: u64 = ts.len() as u64;
    assert(type_views(ts@).len() == total);
    let ds = match read_discriminators(reader, rows, total) {
        Ok(v) => v,
        Err(e) => return Err(e),
    };
    let (offsets, counts) = build_offsets(&ds, total);
    let columns = match read_type_columns(&ts, reader, &counts, Ghost(ds@)) {
        Ok(v) => v,
        Err(e) => return Err(e),
    };
    let ghost cols = column_views(columns@);
    let values = JsonDeserializer::reconstruct_path_values(&ds, &offsets, &columns, total);
    proof {
        assert forall|i: int| 0 <= i < ds@.len() implies (#[trigger] value_views(values@)[i])
            == path_rows(ds@, total as nat, cols)[i] by {
            assert(offsets@[i] == (if ds@[i] == total {
                0
            } else {
                rank(ds@, ds@[i], i)
            }));
            assert(values@[i]@ == value_views(values@)[i]);
        }
        assert(value_views(values@) =~= path_rows(ds@, total as nat, cols));
    }
    Ok(values)
}

pub(crate) fn read_dynamic_columns(reader: &mut &[u8], rows: usize, types: &Vec<Vec<(String, Type)>>)
    -> (r: Result<Vec<Vec<Value>>>)
    ensures
        match r {
            Ok(v) => parsed_dynamic_columns(
                old(reader)@,
                rows as nat,
                entries_views(types@),
            ) == Ok::<_, Error>((column_views(v@), final(reader)@)),
            Err(e) => parsed_dynamic_columns(
                old(reader)@,
                rows as nat,
                entries_views(types@),
            ) == Err::<(Seq<Seq<ValueView>>, Seq<u8>), Error>(e),
        },
{
    let ghost all = entries_views(types@);
    let ghost whole = parsed_dynamic_columns(reader@, rows as nat, all);
    let mut out: Vec<Vec<Value>> = Vec::new();
    let mut i: usize = 0;
    proof {
        assert(all.subrange(0, all.len() as int) =~= all);
        if let Ok((cs, _)) = whole {
            assert(column_views(out@) + cs =~= cs);
        }
    }
    while i < types.len()
        invariant
            i <= types.len(),
            all == entries_views(types@),
            whole == parsed_dynamic_columns(old(reader)@, rows as nat, all),
            whole == match parsed_dynamic_columns(
                reader@,
                rows as nat,
                all.subrange(i as int, all.len() as int),
            ) {
                Err(e) => Err(e),
                Ok((cs, end)) => Ok((column_views(out@) + cs, end)),
            },
        decreases types.len() - i,
    {
        let ghost head = column_views(out@);
        let ghost here = all.subrange(i as int, all.len() as int);
        proof {
            assert(here[0] == field_views(types@[i as int]@));
            assert(here.subrange(1, here.len() as int) =~= all.subrange(i + 1, all.len() as int));
        }
        match read_path_values(reader, rows, &types[i]) {
            Err(e) => return Err(e),
            Ok(v) => {
                let ghost vv = value_views(v@);
                out.push(v);
                proof {
                    assert(column_views(out@) =~= head.push(vv));
                    if let Ok((cs, _)) = parsed_dynamic_columns(
                        reader@,
                        rows as nat,
                        all.subrange(i + 1, all.len() as int),
                    ) {
                        assert(head + (seq![vv] + cs) =~= column_views(out@) + cs);
                    }
                }
            },
        }
        i += 1;
    }
    assert(column_views(out@) + Seq::<Seq<ValueView>>::empty() =~= column_views(out@));
    Ok(out)
}

} // verus!
