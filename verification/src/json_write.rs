//! Writing columns of JSON documents.
use vstd::prelude::*;
use vstd::utf8::encode_utf8;

use crate::binary_value::{binary_value, serialize_binary_value};
use crate::columns::{
    column_bytes, field_types, followed, lemma_wrote, types_of_fields, wrote, Written,
};
use crate::dynamic::{
    check_complex_type_server_version, dynamic_bytes, dynamic_header, entries_of, name_bytes,
    registry, server_too_old, takes_complex_types, DynamicSerializer, DynamicState,
};
use crate::error::{ComplexType, Error, Result, WriteReason};
use crate::json_columns::{
    named_columns, JsonParts, JsonSerializer, JsonState, JSON_OBJECT_VERSION_FLATTENED,
    JSON_OBJECT_VERSION_V1, JSON_OBJECT_VERSION_V2,
};
use crate::prefixes::{prefixes_bytes, serialize_prefixes};
use crate::state::{SerializerState, TypeSpecificState};
use crate::text::{chars_le, text_le, texts, to_chars};
use crate::types::{field_views, Type, TypeView};
use crate::values::{value_views, Value, ValueView};
use crate::variant::column_views;
use crate::wire::{le_bytes, put_string, put_u64_le, put_var_uint, string_bytes, varuint_bytes};

verus! {

/// The limit of paths that the oldest version tells.
pub const WRITTEN_MAX_DYNAMIC_PATHS: u64 = 1024;

/// The version of the format of any values that goes with a version of the format of
/// documents: the same.
pub fn json_version_to_dynamic_version(json_version: Option<u64>) -> (r: Option<u64>)
    ensures
        r == json_version,
{
    json_version
}

// ---------------------------------------------------------------------------
// What stands before a column
// ---------------------------------------------------------------------------

/// Where a field goes among others: behind those whose names do not stand behind its own.
pub open spec fn field_pos(fs: Seq<(Seq<char>, TypeView)>, name: Seq<char>, i: int) -> int
    decreases fs.len() - i,
{
    if 0 <= i < fs.len() && text_le(fs[i].0, name) {
        field_pos(fs, name, i + 1)
    } else {
        i
    }
}

/// Fields in the order of their names.
pub open spec fn sorted_fields(fs: Seq<(Seq<char>, TypeView)>) -> Seq<(Seq<char>, TypeView)>
    decreases fs.len(),
{
    if fs.len() == 0 {
        fs
    } else {
        let head = sorted_fields(fs.drop_last());
        head.insert(field_pos(head, fs.last().0, 0), fs.last())
    }
}

/// The version that a column is written in.
pub open spec fn written_version(version: Option<u64>) -> u64 {
    match version {
        Some(v) => v,
        None => JSON_OBJECT_VERSION_FLATTENED,
    }
}

/// The names of columns.
pub open spec fn column_names(v: Seq<(Seq<char>, Seq<ValueView>)>) -> Seq<Seq<char>> {
    Seq::new(v.len(), |i: int| v[i].0)
}

/// What stands before the columns of paths.
pub open spec fn path_headers(version: u64, columns: Seq<(Seq<char>, Seq<ValueView>)>) -> Written
    decreases columns.len(),
{
    if columns.len() == 0 {
        Ok(Seq::empty())
    } else {
        followed(
            dynamic_header(version, entries_of(registry(columns[0].1))),
            path_headers(version, columns.subrange(1, columns.len() as int)),
        )
    }
}

/// The start of what stands before a column: the version, in the oldest one a limit, and
/// the names of the paths.
pub open spec fn paths_bytes(version: u64, names: Seq<Seq<char>>) -> Seq<u8> {
    le_bytes(version as nat, 8) + ((if version == JSON_OBJECT_VERSION_V1 {
        varuint_bytes(WRITTEN_MAX_DYNAMIC_PATHS as nat)
    } else {
        Seq::empty()
    }) + (varuint_bytes(names.len()) + name_bytes(names)))
}

/// Whether a version can be written.
pub open spec fn is_written_version(version: u64) -> bool {
    version == JSON_OBJECT_VERSION_V1 || version == JSON_OBJECT_VERSION_V2 || version
        == JSON_OBJECT_VERSION_FLATTENED
}

/// Whether what stands before the columns of paths with types of their own is the same in
/// the order of the paths, in which it is written, and in that of the type, in which it is
/// read.
pub open spec fn same_prefixes(typed: Seq<(Seq<char>, TypeView)>) -> bool {
    prefixes_bytes(field_types(sorted_fields(typed))) == prefixes_bytes(field_types(typed))
}

/// What stands before a column: the paths, what stands before the columns of those with
/// types of their own, and before those of the others, as long as they were not taken out.
pub open spec fn json_prefix(p: JsonParts) -> Written {
    let version = written_version(p.version);
    if !is_written_version(version) {
        Err(Error::SerializeError(WriteReason::UnsupportedVersion))
    } else {
        followed(
            Ok(paths_bytes(version, column_names(p.dynamic))),
            followed(
                prefixes_bytes(field_types(sorted_fields(p.typed))),
                if p.taken {
                    Ok(Seq::empty())
                } else {
                    path_headers(version, p.dynamic)
                },
            ),
        )
    }
}

fn find_field(fs: &Vec<(String, Type)>, name: &String) -> (r: usize)
    ensures
        r == field_pos(field_views(fs@), name@, 0),
        r <= fs@.len(),
{
    let ghost all = field_views(fs@);
    let chars = to_chars(name.as_str());
    let mut i: usize = 0;
    while i < fs.len()
        invariant
            i <= fs.len(),
            all == field_views(fs@),
            chars@ == name@,
            field_pos(all, name@, 0) == field_pos(all, name@, i as int),
        decreases fs.len() - i,
    {
        let other = to_chars(fs[i].0.as_str());
        assert(all[i as int].0 == other@);
        if !chars_le(&other, &chars) {
            return i;
        }
        i += 1;
    }
    i
}

fn sort_fields(fs: &Vec<(String, Type)>) -> (r: Vec<(String, Type)>)
    ensures
        field_views(r@) == sorted_fields(field_views(fs@)),
{
    let ghost all = field_views(fs@);
    let mut out: Vec<(String, Type)> = Vec::new();
    let mut i: usize = 0;
    assert(field_views(out@) =~= sorted_fields(all.take(0)));
    while i < fs.len()
        invariant
            i <= fs.len(),
            all == field_views(fs@),
            field_views(out@) == sorted_fields(all.take(i as int)),
        decreases fs.len() - i,
    {
        let ghost head = field_views(out@);
        let ghost entry = (fs@[i as int].0@, fs@[i as int].1@);
        proof {
            assert(all.take(i + 1).drop_last() =~= all.take(i as int));
            assert(all.take(i + 1).last() == entry);
        }
        let p: usize = find_field(&out, &fs[i].0);
        out.insert(p, (fs[i].0.clone(), fs[i].1.clone()));
        assert(field_views(out@) =~= head.insert(p as int, entry));
        i += 1;
    }
    assert(all.take(all.len() as int) =~= all);
    out
}

fn put_path_names(writer: &mut Vec<u8>, columns: &Vec<(String, Vec<Value>)>)
    ensures
        final(writer)@ == old(writer)@ + name_bytes(column_names(named_columns(columns@))),
{
    let ghost names = column_names(named_columns(columns@));
    let mut i: usize = 0;
    assert(writer@ + Seq::<u8>::empty() =~= writer@);
    while i < columns.len()
        invariant
            i <= columns.len(),
            names == column_names(named_columns(columns@)),
            writer@ == old(writer)@ + name_bytes(names.take(i as int)),
        decreases columns.len() - i,
    {
        let ghost head = name_bytes(names.take(i as int));
        proof {
            assert(names.take(i + 1).drop_last() =~= names.take(i as int));
            assert(names.take(i + 1).last() == columns@[i as int].0@);
        }
        put_string(writer, columns[i].0.as_str().as_bytes());
        proof {
            let b = string_bytes(encode_utf8(columns@[i as int].0@));
            assert(old(writer)@ + head + b =~= old(writer)@ + (head + b));
        }
        i += 1;
    }
    assert(names.take(names.len() as int) =~= names);
}

fn put_path_headers(writer: &mut Vec<u8>, version: u64, columns: &Vec<(String, Vec<Value>)>)
    -> (r: Result<()>)
    ensures
        wrote(
            old(writer)@,
            final(writer)@,
            r,
            path_headers(version, named_columns(columns@)),
        ),
{
    let ghost all = named_columns(columns@);
    let ghost start = writer@;
    let mut i: usize = 0;
    assert(all.subrange(0, all.len() as int) =~= all);
    while i < columns.len()
        invariant
            i <= columns.len(),
            all == named_columns(columns@),
            start == old(writer)@,
            match path_headers(version, all.subrange(i as int, all.len() as int)) {
                Err(e) => path_headers(version, all) == Err::<Seq<u8>, Error>(e),
                Ok(b) => path_headers(version, all) is Ok && start + path_headers(
                    version,
                    all,
                )->Ok_0 == writer@ + b,
            },
        decreases columns.len() - i,
    {
        let ghost before = writer@;
        let ghost here = all.subrange(i as int, all.len() as int);
        let ghost column = value_views(columns@[i as int].1@);
        proof {
            assert(here[0] == (columns@[i as int].0@, column));
            assert(here.subrange(1, here.len() as int) =~= all.subrange(i + 1, all.len() as int));
        }
        let (_, types, _) = DynamicSerializer::build_type_registry(&columns[i].1);
        let state = DynamicState {
            version: json_version_to_dynamic_version(Some(version)),
            types,
        };
        match DynamicSerializer::write_prefix_with_state(&state, writer) {
            Ok(()) => {},
            Err(e) => return Err(e),
        }
        proof {
            let w = dynamic_header(version, entries_of(registry(column)));
            if let Ok(b) = path_headers(version, all.subrange(i + 1, all.len() as int)) {
                assert(before + (w->Ok_0 + b) =~= writer@ + b);
            }
        }
        i += 1;
    }
    assert(writer@ + Seq::<u8>::empty() =~= writer@);
    Ok(())
}

// ---------------------------------------------------------------------------
// Paths that share a column
// ---------------------------------------------------------------------------

/// A path and the bytes of a value.
pub type SharedEntry = (Seq<char>, Seq<u8>);

/// The values of one row at the paths that share a column.
pub open spec fn shared_row(columns: Seq<(Seq<char>, Seq<ValueView>)>, r: int)
    -> core::result::Result<Seq<SharedEntry>, Error>
    decreases columns.len(),
{
    if columns.len() == 0 {
        Ok(Seq::empty())
    } else {
        match shared_row(columns.drop_last(), r) {
            Err(e) => Err(e),
            Ok(head) => {
                let (name, column) = columns.last();
                if 0 <= r < column.len() && !(column[r] is Null) {
                    match binary_value(column[r]) {
                        None => Err(Error::Encode),
                        Some(b) => Ok(head.push((name, b))),
                    }
                } else {
                    Ok(head)
                }
            },
        }
    }
}

/// The values of the first `n` rows.
pub open spec fn shared_rows(columns: Seq<(Seq<char>, Seq<ValueView>)>, n: nat)
    -> core::result::Result<Seq<Seq<SharedEntry>>, Error>
    decreases n,
{
    if n == 0 {
        Ok(Seq::empty())
    } else {
        match shared_rows(columns, (n - 1) as nat) {
            Err(e) => Err(e),
            Ok(head) => match shared_row(columns, n - 1) {
                Err(e) => Err(e),
                Ok(x) => Ok(head.push(x)),
            },
        }
    }
}

/// The values of all rows, one behind the other.
pub open spec fn all_entries(rows: Seq<Seq<SharedEntry>>) -> Seq<SharedEntry>
    decreases rows.len(),
{
    if rows.len() == 0 {
        Seq::empty()
    } else {
        all_entries(rows.drop_last()) + rows.last()
    }
}

/// Behind how many values each row ends.
pub open spec fn entry_offsets(rows: Seq<Seq<SharedEntry>>) -> Seq<u8>
    decreases rows.len(),
{
    if rows.len() == 0 {
        Seq::empty()
    } else {
        entry_offsets(rows.drop_last()) + le_bytes(all_entries(rows).len(), 8)
    }
}

/// The paths of values.
pub open spec fn entry_names(entries: Seq<SharedEntry>) -> Seq<Seq<char>> {
    Seq::new(entries.len(), |i: int| entries[i].0)
}

/// The bytes of values, each behind their length.
pub open spec fn entry_values(entries: Seq<SharedEntry>) -> Seq<u8>
    decreases entries.len(),
{
    if entries.len() == 0 {
        Seq::empty()
    } else {
        entry_values(entries.drop_last()) + string_bytes(entries.last().1)
    }
}

/// The shared column: where each row ends, then the paths, then the values.
pub open spec fn shared_bytes(shared: Option<Seq<(Seq<char>, Seq<ValueView>)>>, n: nat) -> Written {
    let columns = match shared {
        Some(c) => c,
        None => Seq::empty(),
    };
    match shared_rows(columns, n) {
        Err(e) => Err(e),
        Ok(rows) => Ok(
            entry_offsets(rows) + (name_bytes(entry_names(all_entries(rows))) + entry_values(
                all_entries(rows),
            )),
        ),
    }
}

/// The views of values with their paths.
pub open spec fn entry_views(v: Seq<(String, Vec<u8>)>) -> Seq<SharedEntry> {
    Seq::new(v.len(), |i: int| (v[i].0@, v[i].1@))
}

proof fn lemma_shared_row_err(
    columns: Seq<(Seq<char>, Seq<ValueView>)>,
    r: int,
    n: int,
    e: Error,
)
    requires
        0 <= n <= columns.len(),
        shared_row(columns.take(n), r) == Err::<Seq<SharedEntry>, Error>(e),
    ensures
        shared_row(columns, r) == Err::<Seq<SharedEntry>, Error>(e),
    decreases columns.len() - n,
{
    if n == columns.len() {
        assert(columns.take(n) =~= columns);
    } else {
        assert(columns.take(n + 1).drop_last() =~= columns.take(n));
        lemma_shared_row_err(columns, r, n + 1, e);
    }
}

proof fn lemma_shared_rows_err(
    columns: Seq<(Seq<char>, Seq<ValueView>)>,
    n: nat,
    total: nat,
    e: Error,
)
    requires
        n <= total,
        shared_rows(columns, n) == Err::<Seq<Seq<SharedEntry>>, Error>(e),
    ensures
        shared_rows(columns, total) == Err::<Seq<Seq<SharedEntry>>, Error>(e),
    decreases total - n,
{
    if n < total {
        lemma_shared_rows_err(columns, n + 1, total, e);
    }
}

/// Appends the values of one row.
fn collect_shared_row(
    columns: &Vec<(String, Vec<Value>)>,
    r: usize,
    out: &mut Vec<(String, Vec<u8>)>,
) -> (res: Result<()>)
    ensures
        match res {
            Ok(()) => shared_row(named_columns(columns@), r as int) is Ok && entry_views(
                final(out)@,
            ) == entry_views(old(out)@) + shared_row(named_columns(columns@), r as int)->Ok_0,
            Err(e) => shared_row(named_columns(columns@), r as int) == Err::<
                Seq<SharedEntry>,
                Error,
            >(e),
        },
{
    let ghost all = named_columns(columns@);
    let ghost start = entry_views(out@);
    let mut i: usize = 0;
    assert(start + Seq::<SharedEntry>::empty() =~= start);
    while i < columns.len()
        invariant
            i <= columns.len(),
            all == named_columns(columns@),
            shared_row(all.take(i as int), r as int) is Ok,
            entry_views(out@) == start + shared_row(all.take(i as int), r as int)->Ok_0,
        decreases columns.len() - i,
    {
        let ghost head = shared_row(all.take(i as int), r as int)->Ok_0;
        let ghost before = entry_views(out@);
        proof {
            assert(all.take(i + 1).drop_last() =~= all.take(i as int));
            assert(all.take(i + 1).last() == (
                columns@[i as int].0@,
                value_views(columns@[i as int].1@),
            ));
        }
        if r < columns[i].1.len() {
            assert(value_views(columns@[i as int].1@)[r as int]
                == columns@[i as int].1@[r as int]@);
            match &columns[i].1[r] {
                Value::Null => {},
                value => {
                    let mut bytes: Vec<u8> = Vec::new();
                    match serialize_binary_value(&mut bytes, value) {
                        Ok(()) => {},
                        Err(e) => {
                            proof {
                                lemma_shared_row_err(all, r as int, i + 1, e);
                            }
                            return Err(e);
                        },
                    }
                    let ghost entry = (columns@[i as int].0@, bytes@);
                    assert(bytes@ =~= binary_value(value@)->0);
                    out.push((columns[i].0.clone(), bytes));
                    proof {
                        assert(entry_views(out@) =~= before.push(entry));
                        assert(start + head.push(entry) =~= before.push(entry));
                    }
                },
            }
        }
        i += 1;
    }
    assert(all.take(all.len() as int) =~= all);
    Ok(())
}

impl JsonSerializer {
    /// Appends the shared column.
    pub fn write_shared_data_map(
        writer: &mut Vec<u8>,
        shared_columns: &Option<Vec<(String, Vec<Value>)>>,
        rows: usize,
    ) -> (r: Result<()>)
        ensures
            wrote(
                old(writer)@,
                final(writer)@,
                r,
                shared_bytes(
                    match *shared_columns {
                        Some(v) => Some(named_columns(v@)),
                        None => None,
                    },
                    rows as nat,
                ),
            ),
    {
        match shared_columns {
            Some(columns) => put_shared(writer, columns, rows),
            None => {
                let none: Vec<(String, Vec<Value>)> = Vec::new();
                assert(named_columns(none@) =~= Seq::<(Seq<char>, Seq<ValueView>)>::empty());
                put_shared(writer, &none, rows)
            },
        }
    }
}

fn put_shared(writer: &mut Vec<u8>, columns: &Vec<(String, Vec<Value>)>, rows: usize)
    -> (r: Result<()>)
    ensures
        wrote(
            old(writer)@,
            final(writer)@,
            r,
            shared_bytes(Some(named_columns(columns@)), rows as nat),
        ),
{
    let ghost all = named_columns(columns@);
    let ghost start = writer@;
    let mut entries: Vec<(String, Vec<u8>)> = Vec::new();
    let mut i: usize = 0;
    proof {
        assert(entry_views(entries@) =~= Seq::<SharedEntry>::empty());
        assert(start + Seq::<u8>::empty() =~= start);
    }
    while i < rows
        invariant
            i <= rows,
            all == named_columns(columns@),
            start == old(writer)@,
            shared_rows(all, i as nat) is Ok,
            entry_views(entries@) == all_entries(shared_rows(all, i as nat)->Ok_0),
            writer@ == start + entry_offsets(shared_rows(all, i as nat)->Ok_0),
        decreases rows - i,
    {
        let ghost head = shared_rows(all, i as nat)->Ok_0;
        match collect_shared_row(columns, i, &mut entries) {
            Ok(()) => {},
            Err(e) => {
                proof {
                    lemma_shared_rows_err(all, (i + 1) as nat, rows as nat, e);
                }
                return Err(e);
            },
        }
        proof {
            let row = shared_row(all, i as int)->Ok_0;
            assert(head.push(row).drop_last() =~= head);
            assert(entry_views(entries@).len() == entries@.len());
        }
        put_u64_le(writer, entries.len() as u64);
        proof {
            let row = shared_row(all, i as int)->Ok_0;
            let b = le_bytes(entries@.len(), 8);
            assert(start + entry_offsets(head) + b =~= start + (entry_offsets(head) + b));
        }
        i += 1;
    }
    let ghost done = shared_rows(all, rows as nat)->Ok_0;
    let ghost offsets = entry_offsets(done);
    let ghost ev = all_entries(done);
    put_entry_names(writer, &entries);
    put_entry_values(writer, &entries);
    proof {
        let a = name_bytes(entry_names(ev));
        let b = entry_values(ev);
        assert(start + offsets + a + b =~= start + (offsets + (a + b)));
    }
    Ok(())
}

fn put_entry_names(writer: &mut Vec<u8>, entries: &Vec<(String, Vec<u8>)>)
    ensures
        final(writer)@ == old(writer)@ + name_bytes(entry_names(entry_views(entries@))),
{
    let ghost names = entry_names(entry_views(entries@));
    let mut i: usize = 0;
    assert(writer@ + Seq::<u8>::empty() =~= writer@);
    while i < entries.len()
        invariant
            i <= entries.len(),
            names == entry_names(entry_views(entries@)),
            writer@ == old(writer)@ + name_bytes(names.take(i as int)),
        decreases entries.len() - i,
    {
        let ghost head = name_bytes(names.take(i as int));
        proof {
            assert(names.take(i + 1).drop_last() =~= names.take(i as int));
            assert(names.take(i + 1).last() == entries@[i as int].0@);
        }
        put_string(writer, entries[i].0.as_str().as_bytes());
        proof {
            let b = string_bytes(encode_utf8(entries@[i as int].0@));
            assert(old(writer)@ + head + b =~= old(writer)@ + (head + b));
        }
        i += 1;
    }
    assert(names.take(names.len() as int) =~= names);
}

fn put_entry_values(writer: &mut Vec<u8>, entries: &Vec<(String, Vec<u8>)>)
    ensures
        final(writer)@ == old(writer)@ + entry_values(entry_views(entries@)),
{
    let ghost all = entry_views(entries@);
    let mut i: usize = 0;
    assert(writer@ + Seq::<u8>::empty() =~= writer@);
    while i < entries.len()
        invariant
            i <= entries.len(),
            all == entry_views(entries@),
            writer@ == old(writer)@ + entry_values(all.take(i as int)),
        decreases entries.len() - i,
    {
        let ghost head = entry_values(all.take(i as int));
        proof {
            assert(all.take(i + 1).drop_last() =~= all.take(i as int));
            assert(all.take(i + 1).last() == (entries@[i as int].0@, entries@[i as int].1@));
        }
        put_string(writer, &entries[i].1);
        proof {
            let b = string_bytes(entries@[i as int].1@);
            assert(old(writer)@ + head + b =~= old(writer)@ + (head + b));
        }
        i += 1;
    }
    assert(all.take(all.len() as int) =~= all);
}

// ---------------------------------------------------------------------------
// Columns
// ---------------------------------------------------------------------------

/// The columns of the paths with types of their own.
pub open spec fn typed_data(typed: Seq<(Seq<char>, TypeView)>, columns: Seq<Seq<ValueView>>) -> Written
    decreases typed.len(),
{
    if typed.len() == 0 || columns.len() == 0 {
        Ok(Seq::empty())
    } else {
        followed(
            column_bytes(typed[0].1, columns[0]),
            typed_data(
                typed.subrange(1, typed.len() as int),
                columns.subrange(1, columns.len() as int),
            ),
        )
    }
}

/// A column of nulls.
pub open spec fn nulls(rows: nat) -> Seq<ValueView> {
    Seq::new(rows, |i: int| ValueView::Null)
}

/// The columns of `n` paths: one that is not known holds nothing but nulls.
pub open spec fn filled_columns(columns: Seq<Seq<ValueView>>, n: nat, rows: nat) -> Seq<
    Seq<ValueView>,
> {
    Seq::new(
        n,
        |i: int|
            if i < columns.len() {
                columns[i]
            } else {
                nulls(rows)
            },
    )
}

/// The columns of the other paths.
pub open spec fn dynamic_data(columns: Seq<(Seq<char>, Seq<ValueView>)>) -> Written
    decreases columns.len(),
{
    if columns.len() == 0 {
        Ok(Seq::empty())
    } else {
        followed(
            dynamic_bytes(columns[0].1, entries_of(registry(columns[0].1))),
            dynamic_data(columns.subrange(1, columns.len() as int)),
        )
    }
}

/// Whether a version has a shared column.
pub open spec fn has_shared(version: u64) -> bool {
    version == JSON_OBJECT_VERSION_V1 || version == JSON_OBJECT_VERSION_V2
}

/// The bytes of a column of documents.
pub open spec fn json_bytes(p: JsonParts) -> Written {
    followed(
        typed_data(p.typed, filled_columns(p.typed_columns, p.typed.len(), p.rows)),
        followed(
            dynamic_data(p.dynamic),
            if has_shared(written_version(p.version)) {
                shared_bytes(p.shared, p.rows)
            } else {
                Ok(Seq::empty())
            },
        ),
    )
}

fn null_column(rows: usize) -> (r: Vec<Value>)
    ensures
        value_views(r@) == nulls(rows as nat),
{
    let mut out: Vec<Value> = Vec::new();
    let mut i: usize = 0;
    assert(value_views(out@) =~= nulls(0));
    while i < rows
        invariant
            i <= rows,
            value_views(out@) == nulls(i as nat),
        decreases rows - i,
    {
        let ghost before = out@;
        out.push(Value::Null);
        assert(value_views(out@) =~= value_views(before).push(ValueView::Null));
        assert(nulls((i + 1) as nat) =~= nulls(i as nat).push(ValueView::Null));
        i += 1;
    }
    out
}

fn put_typed(
    writer: &mut Vec<u8>,
    typed: &Vec<(String, Type)>,
    columns: &Vec<Vec<Value>>,
    rows: usize,
) -> (r: Result<()>)
    ensures
        wrote(
            old(writer)@,
            final(writer)@,
            r,
            typed_data(
                field_views(typed@),
                filled_columns(column_views(columns@), typed@.len(), rows as nat),
            ),
        ),
{
    let ghost tv = field_views(typed@);
    let ghost cv = filled_columns(column_views(columns@), typed@.len(), rows as nat);
    let ghost start = writer@;
    let mut i: usize = 0;
    proof {
        assert(tv.subrange(0, tv.len() as int) =~= tv);
        assert(cv.subrange(0, cv.len() as int) =~= cv);
    }
    while i < typed.len()
        invariant
            i <= typed.len(),
            tv == field_views(typed@),
            cv == filled_columns(column_views(columns@), typed@.len(), rows as nat),
            start == old(writer)@,
            match typed_data(
                tv.subrange(i as int, tv.len() as int),
                cv.subrange(i as int, cv.len() as int),
            ) {
                Err(e) => typed_data(tv, cv) == Err::<Seq<u8>, Error>(e),
                Ok(b) => typed_data(tv, cv) is Ok && start + typed_data(tv, cv)->Ok_0 == writer@
                    + b,
            },
        decreases typed.len() - i,
    {
        let ghost before = writer@;
        let ghost here = tv.subrange(i as int, tv.len() as int);
        let ghost there = cv.subrange(i as int, cv.len() as int);
        proof {
            assert(here[0].1 == typed@[i as int].1@);
            assert(there[0] == cv[i as int]);
            assert(here.subrange(1, here.len() as int) =~= tv.subrange(i + 1, tv.len() as int));
            assert(there.subrange(1, there.len() as int) =~= cv.subrange(i + 1, cv.len() as int));
        }
        let written = if i < columns.len() {
            assert(cv[i as int] == value_views(columns@[i as int]@));
            typed[i].1.serialize_plain_column(&columns[i], writer)
        } else {
            let column = null_column(rows);
            typed[i].1.serialize_plain_column(&column, writer)
        };
        match written {
            Ok(()) => {},
            Err(e) => return Err(e),
        }
        proof {
            let w = column_bytes(typed@[i as int].1@, cv[i as int]);
            if let Ok(b) = typed_data(
                tv.subrange(i + 1, tv.len() as int),
                cv.subrange(i + 1, cv.len() as int),
            ) {
                assert(before + (w->Ok_0 + b) =~= writer@ + b);
            }
        }
        i += 1;
    }
    assert(writer@ + Seq::<u8>::empty() =~= writer@);
    Ok(())
}

fn put_dynamic(writer: &mut Vec<u8>, columns: &Vec<(String, Vec<Value>)>) -> (r: Result<()>)
    ensures
        wrote(old(writer)@, final(writer)@, r, dynamic_data(named_columns(columns@))),
{
    let ghost all = named_columns(columns@);
    let ghost start = writer@;
    let mut i: usize = 0;
    assert(all.subrange(0, all.len() as int) =~= all);
    while i < columns.len()
        invariant
            i <= columns.len(),
            all == named_columns(columns@),
            start == old(writer)@,
            match dynamic_data(all.subrange(i as int, all.len() as int)) {
                Err(e) => dynamic_data(all) == Err::<Seq<u8>, Error>(e),
                Ok(b) => dynamic_data(all) is Ok && start + dynamic_data(all)->Ok_0 == writer@ + b,
            },
        decreases columns.len() - i,
    {
        let ghost before = writer@;
        let ghost here = all.subrange(i as int, all.len() as int);
        let ghost column = value_views(columns@[i as int].1@);
        proof {
            assert(here[0] == (columns@[i as int].0@, column));
            assert(here.subrange(1, here.len() as int) =~= all.subrange(i + 1, all.len() as int));
        }
        let (_, types, _) = DynamicSerializer::build_type_registry(&columns[i].1);
        let state = DynamicState { version: None, types };
        match DynamicSerializer::write_dynamic_data_sync(&columns[i].1, writer, &state) {
            Ok(()) => {},
            Err(e) => return Err(e),
        }
        proof {
            let w = dynamic_bytes(column, entries_of(registry(column)));
            if let Ok(b) = dynamic_data(all.subrange(i + 1, all.len() as int)) {
                assert(before + (w->Ok_0 + b) =~= writer@ + b);
            }
        }
        i += 1;
    }
    assert(writer@ + Seq::<u8>::empty() =~= writer@);
    Ok(())
}

impl JsonSerializer {
    /// Fails where the server is too old for a version.
    pub fn check_server_version(server_version: Option<(u64, u64, u64)>, version: u64)
        -> (r: Result<()>)
        ensures
            r == (if version == JSON_OBJECT_VERSION_FLATTENED && !takes_complex_types(
                server_version,
            ) {
                Err(server_too_old(ComplexType::Json, server_version))
            } else {
                Ok(())
            }),
    {
        if version == JSON_OBJECT_VERSION_FLATTENED {
            return check_complex_type_server_version(server_version, ComplexType::Json);
        }
        Ok(())
    }

    /// The version that a column is written in.
    pub fn get_serialization_version(state: &SerializerState) -> (r: u64)
        ensures
            r == (match state.type_specific {
                TypeSpecificState::Json(st) => written_version(st.version),
                _ => JSON_OBJECT_VERSION_FLATTENED,
            }),
    {
        match &state.type_specific {
            TypeSpecificState::Json(st) => match st.version {
                Some(v) => v,
                None => JSON_OBJECT_VERSION_FLATTENED,
            },
            _ => JSON_OBJECT_VERSION_FLATTENED,
        }
    }

    /// Appends what stands before a column of documents, of which all is known.
    pub fn write_paths(st: &JsonState, writer: &mut Vec<u8>) -> (r: Result<()>)
        ensures
            wrote(old(writer)@, final(writer)@, r, json_prefix(st@)),
    {
        let version: u64 = match st.version {
            Some(v) => v,
            None => JSON_OBJECT_VERSION_FLATTENED,
        };
        if version != JSON_OBJECT_VERSION_V1 && version != JSON_OBJECT_VERSION_V2 && version
            != JSON_OBJECT_VERSION_FLATTENED {
            return Err(Error::SerializeError(WriteReason::UnsupportedVersion));
        }
        let ghost start = writer@;
        let ghost names = column_names(st@.dynamic);
        put_u64_le(writer, version);
        if version == JSON_OBJECT_VERSION_V1 {
            put_var_uint(writer, WRITTEN_MAX_DYNAMIC_PATHS);
        }
        put_var_uint(writer, st.dynamic_path_columns.len() as u64);
        put_path_names(writer, &st.dynamic_path_columns);
        let ghost mid = writer@;
        assert(mid =~= start + paths_bytes(version, names));
        let sorted = sort_fields(&st.typed_paths);
        let types = types_of_fields(&sorted);
        let ghost w1 = prefixes_bytes(field_types(sorted_fields(st@.typed)));
        let ghost w2: Written = if st.taken {
            Ok(Seq::empty())
        } else {
            path_headers(version, st@.dynamic)
        };
        match serialize_prefixes(&types, writer) {
            Ok(()) => {},
            Err(e) => return Err(e),
        }
        let ghost mid2 = writer@;
        let r = if st.taken {
            assert(writer@ =~= mid2 + Seq::<u8>::empty());
            Ok(())
        } else {
            put_path_headers(writer, version, &st.dynamic_path_columns)
        };
        proof {
            lemma_wrote(mid, mid2, writer@, r, w1, w2);
            lemma_wrote(
                start,
                mid,
                writer@,
                r,
                Ok(paths_bytes(version, names)),
                followed(w1, w2),
            );
        }
        r
    }

    /// Appends what stands before a column, if the server takes the version and what the
    /// column holds is known.
    pub fn write_known_prefix(writer: &mut Vec<u8>, state: &SerializerState) -> (r: Result<()>)
        ensures
            match state.type_specific {
                TypeSpecificState::Json(st) => if written_version(st.version)
                    == JSON_OBJECT_VERSION_FLATTENED && !takes_complex_types(
                    state.server_version,
                ) {
                    r == Err::<(), Error>(server_too_old(ComplexType::Json, state.server_version))
                } else {
                    wrote(old(writer)@, final(writer)@, r, json_prefix(st@))
                },
                _ => r == Err::<(), Error>(
                    if takes_complex_types(state.server_version) {
                        Error::SerializeError(WriteReason::StateNotSet)
                    } else {
                        server_too_old(ComplexType::Json, state.server_version)
                    },
                ),
            },
    {
        let version: u64 = JsonSerializer::get_serialization_version(state);
        match JsonSerializer::check_server_version(state.server_version, version) {
            Ok(()) => {},
            Err(e) => return Err(e),
        }
        match &state.type_specific {
            TypeSpecificState::Json(st) => JsonSerializer::write_paths(st, writer),
            _ => Err(Error::SerializeError(WriteReason::StateNotSet)),
        }
    }

    /// Appends a column of documents, of which all is known.
    pub fn write_columns(st: &JsonState, writer: &mut Vec<u8>) -> (r: Result<()>)
        ensures
            wrote(old(writer)@, final(writer)@, r, json_bytes(st@)),
    {
        let ghost start = writer@;
        let version: u64 = match st.version {
            Some(v) => v,
            None => JSON_OBJECT_VERSION_FLATTENED,
        };
        match put_typed(writer, &st.typed_paths, &st.typed_path_columns, st.rows) {
            Ok(()) => {},
            Err(e) => return Err(e),
        }
        let ghost mid = writer@;
        match put_dynamic(writer, &st.dynamic_path_columns) {
            Ok(()) => {},
            Err(e) => return Err(e),
        }
        let ghost mid2 = writer@;
        let ghost w1 = typed_data(
            st@.typed,
            filled_columns(st@.typed_columns, st@.typed.len(), st@.rows),
        );
        let ghost w2 = dynamic_data(st@.dynamic);
        if version == JSON_OBJECT_VERSION_V1 || version == JSON_OBJECT_VERSION_V2 {
            let r = JsonSerializer::write_shared_data_map(
                writer,
                &st.shared_path_columns,
                st.rows,
            );
            proof {
                let w3 = shared_bytes(st@.shared, st@.rows);
                lemma_wrote(mid, mid2, writer@, r, w2, w3);
                lemma_wrote(start, mid, writer@, r, w1, followed(w2, w3));
            }
            r
        } else {
            proof {
                let w3: Written = Ok(Seq::empty());
                assert(mid2 + Seq::<u8>::empty() =~= mid2);
                lemma_wrote(mid, mid2, writer@, Ok(()), w2, w3);
                lemma_wrote(start, mid, writer@, Ok(()), w1, followed(w2, w3));
            }
            Ok(())
        }
    }

    /// Appends a column of documents, if what it holds is known.
    pub fn write_known(writer: &mut Vec<u8>, state: &SerializerState) -> (r: Result<()>)
        ensures
            match state.type_specific {
                TypeSpecificState::Json(st) => wrote(
                    old(writer)@,
                    final(writer)@,
                    r,
                    json_bytes(st@),
                ),
                _ => r == Err::<(), Error>(Error::SerializeError(WriteReason::StateNotSet)),
            },
    {
        match &state.type_specific {
            TypeSpecificState::Json(st) => JsonSerializer::write_columns(st, writer),
            _ => Err(Error::SerializeError(WriteReason::StateNotSet)),
        }
    }

    /// The same as [`JsonSerializer::write_known_prefix`]; the version that is written is
    /// kept.
    pub fn write_prefix(writer: &mut Vec<u8>, state: &mut SerializerState) -> (r: Result<()>)
        ensures
            wrote(
                old(writer)@,
                final(writer)@,
                r,
                known_prefix(old(state).type_specific, old(state).server_version),
            ),
            final(state).server_version == old(state).server_version,
            match old(state).type_specific {
                TypeSpecificState::Json(st) => final(state).type_specific matches TypeSpecificState::Json(
                    now,
                ) && now@ == (JsonParts {
                    version: if refused_version(st.version, old(state).server_version) {
                        st.version
                    } else {
                        Some(written_version(st.version))
                    },
                    ..st@
                }),
                _ => final(state).type_specific == old(state).type_specific,
            },
    {
        let version: u64 = JsonSerializer::get_serialization_version(state);
        let r = JsonSerializer::write_known_prefix(writer, state);
        match JsonSerializer::check_server_version(state.server_version, version) {
            Ok(()) => {
                if let TypeSpecificState::Json(st) = &mut state.type_specific {
                    st.version = Some(version);
                }
            },
            Err(_) => {},
        }
        r
    }

    /// The same as [`JsonSerializer::write_known`]; the columns that are written are taken
    /// out.
    pub fn write(writer: &mut Vec<u8>, state: &mut SerializerState) -> (r: Result<()>)
        ensures
            wrote(old(writer)@, final(writer)@, r, known_bytes(old(state).type_specific)),
            final(state).server_version == old(state).server_version,
            match old(state).type_specific {
                TypeSpecificState::Json(st) => final(state).type_specific matches TypeSpecificState::Json(
                    now,
                ) && now@ == emptied(st@),
                _ => final(state).type_specific == old(state).type_specific,
            },
    {
        let r = JsonSerializer::write_known(writer, state);
        if let TypeSpecificState::Json(st) = &mut state.type_specific {
            take_columns(st);
        }
        r
    }
}

/// Whether a server takes no documents in a version.
pub open spec fn refused_version(version: Option<u64>, server: Option<(u64, u64, u64)>) -> bool {
    written_version(version) == JSON_OBJECT_VERSION_FLATTENED && !takes_complex_types(server)
}

/// What is written before a column of documents of which something is known.
pub open spec fn known_prefix(st: TypeSpecificState, server: Option<(u64, u64, u64)>) -> Written {
    match st {
        TypeSpecificState::Json(j) => if refused_version(j.version, server) {
            Err(server_too_old(ComplexType::Json, server))
        } else {
            json_prefix(j@)
        },
        _ => Err(
            if takes_complex_types(server) {
                Error::SerializeError(WriteReason::StateNotSet)
            } else {
                server_too_old(ComplexType::Json, server)
            },
        ),
    }
}

/// The bytes of a column of documents of which something is known.
pub open spec fn known_bytes(st: TypeSpecificState) -> Written {
    match st {
        TypeSpecificState::Json(j) => json_bytes(j@),
        _ => Err(Error::SerializeError(WriteReason::StateNotSet)),
    }
}

/// What is known of a column whose values were taken out: its paths.
pub open spec fn emptied(p: JsonParts) -> JsonParts {
    JsonParts {
        typed_columns: Seq::empty(),
        dynamic: Seq::new(p.dynamic.len(), |i: int| (p.dynamic[i].0, Seq::empty())),
        shared: None,
        taken: true,
        ..p
    }
}

fn take_columns(st: &mut JsonState)
    ensures
        final(st)@ == emptied(old(st)@),
{
    let ghost p = st@;
    let names = st.dynamic_paths();
    let ghost known = texts(names@);
    let ghost listed = names@;
    let columns = without_values(names);
    st.typed_path_columns = Vec::new();
    st.dynamic_path_columns = columns;
    st.shared_path_columns = None;
    st.taken = true;
    proof {
        assert(crate::variant::column_views(st.typed_path_columns@) =~= Seq::empty());
        assert(known.len() == p.dynamic.len());
        assert forall|i: int| 0 <= i < listed.len() implies (#[trigger] listed[i])@
            == p.dynamic[i].0 by {
            assert(known[i] == listed[i]@);
        }
        assert(named_columns(st.dynamic_path_columns@) =~= emptied(p).dynamic);
    }
}

fn without_values(names: Vec<String>) -> (r: Vec<(String, Vec<Value>)>)
    ensures
        named_columns(r@) == Seq::new(
            names@.len(),
            |i: int| (names@[i]@, Seq::<ValueView>::empty()),
        ),
{
    let mut out: Vec<(String, Vec<Value>)> = Vec::new();
    let mut i: usize = 0;
    while i < names.len()
        invariant
            i <= names.len(),
            out@.len() == i,
            forall|j: int|
                0 <= j < i ==> (#[trigger] out@[j]).0@ == names@[j]@ && out@[j].1@.len() == 0,
        decreases names.len() - i,
    {
        out.push((names[i].clone(), Vec::new()));
        i += 1;
    }
    assert(named_columns(out@) =~= Seq::new(
        names@.len(),
        |i: int| (names@[i]@, Seq::<ValueView>::empty()),
    )) by {
        assert forall|i: int| 0 <= i < out@.len() implies value_views(
            (#[trigger] out@[i]).1@,
        ) == Seq::<ValueView>::empty() by {
            assert(value_views(out@[i].1@) =~= Seq::<ValueView>::empty());
        }
    }
    out
}

} // verus!
