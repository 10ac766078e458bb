//! JSON documents put together from the columns of their paths.
use vstd::prelude::*;

use crate::binary_value::{deserialize_binary_value, parsed_binary_value};
use crate::column_read::{parsed_offsets, read_offsets, DeserializerState};
use crate::error::{Error, ReadReason, Result};
use crate::json_columns::{
    typed_paths_of, JSON_OBJECT_VERSION_FLATTENED, JSON_OBJECT_VERSION_V1, JSON_OBJECT_VERSION_V2,
};
use crate::json_object::{member_value, set_nested_value_segments, with_nested};
use crate::json_read::{
    parsed_dynamic_columns, parsed_json_prefix, parsed_names, parsed_typed, read_dynamic_columns,
    read_layout, read_names, read_typed, JsonDeserializer, JsonLayout, LayoutView,
    JSON_OBJECT_VERSION_STRING,
};
use crate::json_text::{json_of_text, parse_json};
use crate::json_value::{member_views, JsonValue, JsonView};
use crate::json_write::{entry_views, SharedEntry};
use crate::state::TypeSpecificState;
use crate::text::{eq_chars, split, split_text, texts, to_chars};
use crate::typed_node::json_of;
use crate::types::{field_views, Type, TypeView};
use crate::values::{clone_bytes, value_views, Value, ValueView};
use crate::variant::column_views;
use crate::wire::{get_u64_le, parsed_string, read_string, Parsed};

verus! {

// ---------------------------------------------------------------------------
// The shared column
// ---------------------------------------------------------------------------

/// Reads `n` strings.
pub open spec fn parsed_strings(s: Seq<u8>, n: nat) -> Parsed<Seq<Seq<u8>>>
    decreases n,
{
    if n == 0 {
        Ok((Seq::empty(), s))
    } else {
        match parsed_string(s) {
            Err(e) => Err(e),
            Ok((b, next)) => match parsed_strings(next, (n - 1) as nat) {
                Err(e) => Err(e),
                Ok((rest, end)) => Ok((seq![b] + rest, end)),
            },
        }
    }
}

/// The place of a path among values, from `i` on.
pub open spec fn entry_place(entries: Seq<SharedEntry>, path: Seq<char>, i: int) -> Option<int>
    decreases entries.len() - i,
{
    if i < 0 || i >= entries.len() {
        None
    } else if entries[i].0 == path {
        Some(i)
    } else {
        entry_place(entries, path, i + 1)
    }
}

/// Values with one more; it takes the place of one with its path.
pub open spec fn with_entry(entries: Seq<SharedEntry>, path: Seq<char>, value: Seq<u8>) -> Seq<
    SharedEntry,
> {
    match entry_place(entries, path, 0) {
        Some(i) => entries.update(i, (path, value)),
        None => entries.push((path, value)),
    }
}

/// The values of a row that holds those from one place up to another.
pub open spec fn entries_between(
    keys: Seq<Seq<char>>,
    values: Seq<Seq<u8>>,
    from: nat,
    to: nat,
) -> Seq<SharedEntry>
    decreases to,
{
    if to <= from {
        Seq::empty()
    } else {
        with_entry(
            entries_between(keys, values, from, (to - 1) as nat),
            keys[to - 1],
            values[to - 1],
        )
    }
}

/// Where a row of the shared column starts: where the row before it ends.
pub open spec fn row_start(offsets: Seq<u64>, i: int) -> nat {
    if i <= 0 {
        0
    } else {
        (offsets[i - 1] as usize) as nat
    }
}

/// Whether all rows end within `total` values.
pub open spec fn all_within(offsets: Seq<u64>, total: nat) -> bool {
    forall|i: int| 0 <= i < offsets.len() ==> (#[trigger] offsets[i]) as usize <= total
}

/// The rows of the shared column.
pub open spec fn shared_map(offsets: Seq<u64>, keys: Seq<Seq<char>>, values: Seq<Seq<u8>>) -> Seq<
    Seq<SharedEntry>,
> {
    Seq::new(
        offsets.len(),
        |i: int|
            entries_between(
                keys,
                values,
                row_start(offsets, i),
                (offsets[i] as usize) as nat,
            ),
    )
}

/// Reads the shared column of `n` rows.
pub open spec fn parsed_shared(s: Seq<u8>, n: nat) -> Parsed<Seq<Seq<SharedEntry>>> {
    match parsed_offsets(s, n) {
        Err(e) => Err(e),
        Ok((offsets, s1)) => {
            let total = row_start(offsets, n as int);
            match parsed_names(s1, total) {
                Err(e) => Err(e),
                Ok((keys, s2)) => match parsed_strings(s2, total) {
                    Err(e) => Err(e),
                    Ok((values, end)) => if all_within(offsets, total) {
                        Ok((shared_map(offsets, keys, values), end))
                    } else {
                        Err(Error::DeserializeError(ReadReason::RowsOutOfRange))
                    },
                },
            }
        },
    }
}

/// The views of strings of bytes.
pub open spec fn byte_views(v: Seq<Vec<u8>>) -> Seq<Seq<u8>> {
    Seq::new(v.len(), |i: int| v[i]@)
}

/// The views of the rows of the shared column.
pub open spec fn shared_views(v: Seq<Vec<(String, Vec<u8>)>>) -> Seq<Seq<SharedEntry>> {
    Seq::new(v.len(), |i: int| entry_views(v[i]@))
}

fn read_strings(reader: &mut &[u8], n: usize) -> (r: Result<Vec<Vec<u8>>>)
    ensures
        match r {
            Ok(v) => {
                &&& parsed_strings(old(reader)@, n as nat) == Ok::<_, Error>(
                    (byte_views(v@), final(reader)@),
                )
                &&& v@.len() == n
            },
            Err(e) => parsed_strings(old(reader)@, n as nat) == Err::<
                (Seq<Seq<u8>>, Seq<u8>),
                Error,
            >(e),
        },
{
    let mut out: Vec<Vec<u8>> = Vec::new();
    let mut i: usize = 0;
    proof {
        if let Ok((rest, _)) = parsed_strings(reader@, n as nat) {
            assert(byte_views(out@) + rest =~= rest);
        }
    }
    while i < n
        invariant
            i <= n,
            out@.len() == i,
            parsed_strings(old(reader)@, n as nat) == match parsed_strings(
                reader@,
                (n - i) as nat,
            ) {
                Err(e) => Err(e),
                Ok((rest, end)) => Ok((byte_views(out@) + rest, end)),
            },
        decreases n - i,
    {
        let ghost head = byte_views(out@);
        match read_string(reader) {
            Err(e) => return Err(e),
            Ok(b) => {
                let ghost bv = b@;
                out.push(b);
                proof {
                    assert(byte_views(out@) =~= head.push(bv));
                    if let Ok((rest, _)) = parsed_strings(reader@, (n - i - 1) as nat) {
                        assert(head + (seq![bv] + rest) =~= byte_views(out@) + rest);
                    }
                }
            },
        }
        i += 1;
    }
    assert(byte_views(out@) + Seq::<Seq<u8>>::empty() =~= byte_views(out@));
    Ok(out)
}

fn put_entry(entries: &mut Vec<(String, Vec<u8>)>, path: &String, value: &Vec<u8>)
    ensures
        entry_views(final(entries)@) == with_entry(entry_views(old(entries)@), path@, value@),
{
    let ghost all = entry_views(entries@);
    let chars = to_chars(path.as_str());
    let mut i: usize = 0;
    while i < entries.len()
        invariant
            i <= entries.len(),
            entries@ == old(entries)@,
            all == entry_views(entries@),
            chars@ == path@,
            entry_place(all, path@, 0) == entry_place(all, path@, i as int),
        decreases entries.len() - i,
    {
        let other = to_chars(entries[i].0.as_str());
        assert(all[i as int].0 == other@);
        if eq_chars(&other, &chars) {
            entries.set(i, (path.clone(), clone_bytes(value)));
            assert(entry_views(entries@) =~= all.update(i as int, (path@, value@)));
            return;
        }
        i += 1;
    }
    entries.push((path.clone(), clone_bytes(value)));
    assert(entry_views(entries@) =~= all.push((path@, value@)));
}

fn take_entries(keys: &Vec<String>, values: &Vec<Vec<u8>>, from: usize, to: usize) -> (r: Vec<
    (String, Vec<u8>),
>)
    requires
        to <= keys@.len(),
        to <= values@.len(),
    ensures
        entry_views(r@) == entries_between(
            texts(keys@),
            byte_views(values@),
            from as nat,
            to as nat,
        ),
{
    let mut out: Vec<(String, Vec<u8>)> = Vec::new();
    let mut i: usize = from;
    assert(entry_views(out@) =~= Seq::<SharedEntry>::empty());
    while i < to
        invariant
            from <= i,
            i <= to || i == from,
            to <= keys@.len(),
            to <= values@.len(),
            entry_views(out@) == entries_between(
                texts(keys@),
                byte_views(values@),
                from as nat,
                i as nat,
            ),
        decreases to - i,
    {
        assert(texts(keys@)[i as int] == keys@[i as int]@);
        assert(byte_views(values@)[i as int] == values@[i as int]@);
        put_entry(&mut out, &keys[i], &values[i]);
        i += 1;
    }
    out
}

impl JsonDeserializer {
    /// Reads the shared column: for each row, paths and the bytes of their values.
    pub fn read_shared_data_map(reader: &mut &[u8], rows: usize) -> (r: Result<
        Vec<Vec<(String, Vec<u8>)>>,
    >)
        ensures
            match r {
                Ok(v) => parsed_shared(old(reader)@, rows as nat) == Ok::<_, Error>(
                    (shared_views(v@), final(reader)@),
                ),
                Err(e) => parsed_shared(old(reader)@, rows as nat) == Err::<
                    (Seq<Seq<SharedEntry>>, Seq<u8>),
                    Error,
                >(e),
            },
    {
        let offsets = match read_offsets(reader, rows) {
            Ok(v) => v,
            Err(e) => return Err(e),
        };
        let total: usize = if offsets.len() == 0 {
            0
        } else {
            offsets[offsets.len() - 1] as usize
        };
        assert(total == row_start(offsets@, rows as int));
        proof {
            lemma_names_len(reader@, total as nat);
        }
        let keys = match read_names(reader, total as u64) {
            Ok(v) => v,
            Err(e) => return Err(e),
        };
        assert(texts(keys@).len() == keys@.len());
        let values = match read_strings(reader, total) {
            Ok(v) => v,
            Err(e) => return Err(e),
        };
        let mut out: Vec<Vec<(String, Vec<u8>)>> = Vec::new();
        let mut i: usize = 0;
        while i < offsets.len()
            invariant
                i <= offsets.len(),
                rows == offsets@.len(),
                keys@.len() == total,
                values@.len() == total,
                total == row_start(offsets@, rows as int),
                out@.len() == i,
                forall|j: int| 0 <= j < i ==> (#[trigger] offsets@[j]) as usize <= total,
                forall|j: int|
                    0 <= j < i ==> entry_views((#[trigger] out@[j])@) == shared_map(
                        offsets@,
                        texts(keys@),
                        byte_views(values@),
                    )[j],
                parsed_shared(old(reader)@, rows as nat) == (if all_within(
                    offsets@,
                    total as nat,
                ) {
                    Ok::<_, Error>(
                        (shared_map(offsets@, texts(keys@), byte_views(values@)), reader@),
                    )
                } else {
                    Err(Error::DeserializeError(ReadReason::RowsOutOfRange))
                }),
            decreases offsets.len() - i,
        {
            let to: usize = offsets[i] as usize;
            if to > total {
                assert(!all_within(offsets@, total as nat));
                return Err(Error::DeserializeError(ReadReason::RowsOutOfRange));
            }
            let from: usize = if i == 0 {
                0
            } else {
                offsets[i - 1] as usize
            };
            out.push(take_entries(&keys, &values, from, to));
            i += 1;
        }
        assert(shared_views(out@) =~= shared_map(offsets@, texts(keys@), byte_views(values@)));
        Ok(out)
    }
}

/// As many names are read as were asked for.
pub proof fn lemma_names_len(s: Seq<u8>, n: nat)
    ensures
        match parsed_names(s, n) {
            Ok((v, _)) => v.len() == n,
            Err(_) => true,
        },
    decreases n,
{
    if n > 0 {
        if let Ok((_, next)) = parsed_string(s) {
            lemma_names_len(next, (n - 1) as nat);
        }
    }
}

// ---------------------------------------------------------------------------
// Documents
// ---------------------------------------------------------------------------

/// The members of an object.
pub type Members = Seq<(Seq<char>, JsonView)>;

/// Members with a value set at a path, whose parts stand between dots.
pub open spec fn with_value(m: Members, path: Seq<char>, v: ValueView) -> core::result::Result<
    Members,
    Error,
> {
    match with_nested(m, split_text(path, '.'), JsonView::Null) {
        Err(e) => Err(e),
        Ok(_) => match json_of(v) {
            Err(e) => Err(e),
            Ok(j) => with_nested(m, split_text(path, '.'), j),
        },
    }
}

/// The members that values at paths make.
pub open spec fn with_values(m: Members, settings: Seq<(Seq<char>, ValueView)>)
    -> core::result::Result<Members, Error>
    decreases settings.len(),
{
    if settings.len() == 0 {
        Ok(m)
    } else {
        match with_values(m, settings.drop_last()) {
            Err(e) => Err(e),
            Ok(x) => with_value(x, settings.last().0, settings.last().1),
        }
    }
}

/// The values of one row at paths; nulls are kept or left out.
pub open spec fn row_settings(
    names: Seq<Seq<char>>,
    columns: Seq<Seq<ValueView>>,
    r: int,
    n: int,
    nulls: bool,
) -> Seq<(Seq<char>, ValueView)>
    decreases n,
{
    if n <= 0 {
        Seq::empty()
    } else {
        let head = row_settings(names, columns, r, n - 1, nulls);
        let column = columns[n - 1];
        if 0 <= r < column.len() && (nulls || !(column[r] is Null)) {
            head.push((names[n - 1], column[r]))
        } else {
            head
        }
    }
}

/// Members with the values of a row of the shared column.
pub open spec fn with_shared(m: Members, entries: Seq<SharedEntry>) -> core::result::Result<
    Members,
    Error,
>
    decreases entries.len(),
{
    if entries.len() == 0 {
        Ok(m)
    } else {
        match with_shared(m, entries.drop_last()) {
            Err(e) => Err(e),
            Ok(x) => match parsed_binary_value(entries.last().1) {
                Err(_) => Err(Error::DeserializeError(ReadReason::InvalidSharedValue)),
                Ok((v, _)) => with_value(x, entries.last().0, v),
            },
        }
    }
}

/// The columns of a block of documents: those with types of their own, the others, and
/// the shared one.
pub ghost struct Block {
    pub typed_names: Seq<Seq<char>>,
    pub typed_columns: Seq<Seq<ValueView>>,
    pub names: Seq<Seq<char>>,
    pub columns: Seq<Seq<ValueView>>,
    pub shared: Seq<Seq<SharedEntry>>,
    /// Whether null is shown at the paths with types of their own.
    pub nulls: bool,
}

/// The members of the document of one row.
pub open spec fn row_members(b: Block, r: int) -> core::result::Result<Members, Error> {
    match with_values(
        Seq::empty(),
        row_settings(b.typed_names, b.typed_columns, r, b.typed_columns.len() as int, b.nulls),
    ) {
        Err(e) => Err(e),
        Ok(m) => match with_values(
            m,
            row_settings(b.names, b.columns, r, b.columns.len() as int, false),
        ) {
            Err(e) => Err(e),
            Ok(m2) => with_shared(
                m2,
                if 0 <= r < b.shared.len() {
                    b.shared[r]
                } else {
                    Seq::empty()
                },
            ),
        },
    }
}

/// The documents of the first `n` rows.
pub open spec fn documents(b: Block, n: nat) -> core::result::Result<Seq<ValueView>, Error>
    decreases n,
{
    if n == 0 {
        Ok(Seq::empty())
    } else {
        match documents(b, (n - 1) as nat) {
            Err(e) => Err(e),
            Ok(head) => match row_members(b, n - 1) {
                Err(e) => Err(e),
                Ok(m) => Ok(head.push(ValueView::Json(JsonView::Object(m)))),
            },
        }
    }
}

/// Whether members can be set at a path does not depend on the value.
pub proof fn lemma_nested_error(m: Members, segments: Seq<Seq<char>>, a: JsonView, b: JsonView)
    ensures
        with_nested(m, segments, a) is Ok == with_nested(m, segments, b) is Ok,
        with_nested(m, segments, a) is Err ==> with_nested(m, segments, a)->Err_0 == with_nested(
            m,
            segments,
            b,
        )->Err_0,
    decreases segments.len(),
{
    if segments.len() > 1 {
        match member_value(m, segments[0]) {
            None => lemma_nested_error(Seq::empty(), segments.skip(1), a, b),
            Some(JsonView::Object(x)) => lemma_nested_error(x, segments.skip(1), a, b),
            _ => {},
        }
    }
}

fn set_value(m: &mut Vec<(String, JsonValue)>, path: &String, v: &Value) -> (r: Result<()>)
    ensures
        match r {
            Ok(()) => with_value(member_views(old(m)@), path@, v@) == Ok::<_, Error>(
                member_views(final(m)@),
            ),
            Err(e) => with_value(member_views(old(m)@), path@, v@) == Err::<Members, Error>(e),
        },
{
    let ghost before = member_views(m@);
    let chars = to_chars(path.as_str());
    let segments = split(&chars, '.');
    let ghost parts = split_text(path@, '.');
    match v.to_json() {
        Ok(j) => {
            proof {
                lemma_nested_error(before, parts, JsonView::Null, j@);
            }
            set_nested_value_segments(m, &segments, j)
        },
        Err(e) => {
            let null = JsonValue::Null;
            assert(null@ == JsonView::Null);
            match set_nested_value_segments(m, &segments, null) {
                Ok(()) => Err(e),
                Err(e2) => Err(e2),
            }
        },
    }
}

proof fn lemma_values_err(m: Members, settings: Seq<(Seq<char>, ValueView)>, n: int, e: Error)
    requires
        0 <= n <= settings.len(),
        with_values(m, settings.take(n)) == Err::<Members, Error>(e),
    ensures
        with_values(m, settings) == Err::<Members, Error>(e),
    decreases settings.len() - n,
{
    if n == settings.len() {
        assert(settings.take(n) =~= settings);
    } else {
        assert(settings.take(n + 1).drop_last() =~= settings.take(n));
        lemma_values_err(m, settings, n + 1, e);
    }
}

proof fn lemma_settings_prefix(
    names: Seq<Seq<char>>,
    columns: Seq<Seq<ValueView>>,
    r: int,
    k: int,
    n: int,
    nulls: bool,
)
    requires
        0 <= k <= n,
    ensures
        row_settings(names, columns, r, k, nulls).len() <= row_settings(
            names,
            columns,
            r,
            n,
            nulls,
        ).len(),
        row_settings(names, columns, r, n, nulls).take(
            row_settings(names, columns, r, k, nulls).len() as int,
        ) == row_settings(names, columns, r, k, nulls),
    decreases n - k,
{
    let a = row_settings(names, columns, r, k, nulls);
    if k == n {
        assert(a.take(a.len() as int) =~= a);
    } else {
        lemma_settings_prefix(names, columns, r, k + 1, n, nulls);
        let b = row_settings(names, columns, r, k + 1, nulls);
        let c = row_settings(names, columns, r, n, nulls);
        assert(b.take(a.len() as int) =~= a);
        assert(c.take(a.len() as int) =~= c.take(b.len() as int).take(a.len() as int));
    }
}

/// Sets the values of one row at paths.
fn set_row(
    m: &mut Vec<(String, JsonValue)>,
    names: &Vec<String>,
    columns: &Vec<Vec<Value>>,
    r: usize,
    nulls: bool,
) -> (res: Result<()>)
    requires
        names@.len() >= columns@.len(),
    ensures
        ({
            let settings = row_settings(
                texts(names@),
                column_views(columns@),
                r as int,
                columns@.len() as int,
                nulls,
            );
            match res {
                Ok(()) => with_values(member_views(old(m)@), settings) == Ok::<_, Error>(
                    member_views(final(m)@),
                ),
                Err(e) => with_values(member_views(old(m)@), settings) == Err::<Members, Error>(e),
            }
        }),
{
    let ghost start = member_views(m@);
    let ghost nv = texts(names@);
    let ghost cv = column_views(columns@);
    let ghost all = row_settings(nv, cv, r as int, cv.len() as int, nulls);
    let mut i: usize = 0;
    while i < columns.len()
        invariant
            i <= columns.len(),
            names@.len() >= columns@.len(),
            nv == texts(names@),
            cv == column_views(columns@),
            all == row_settings(nv, cv, r as int, cv.len() as int, nulls),
            start == member_views(old(m)@),
            with_values(start, row_settings(nv, cv, r as int, i as int, nulls)) == Ok::<_, Error>(
                member_views(m@),
            ),
        decreases columns.len() - i,
    {
        let ghost head = row_settings(nv, cv, r as int, i as int, nulls);
        let ghost next = row_settings(nv, cv, r as int, i + 1, nulls);
        assert(cv[i as int] == value_views(columns@[i as int]@));
        if r < columns[i].len() {
            assert(cv[i as int][r as int] == columns@[i as int]@[r as int]@);
            let is_null: bool = match &columns[i][r] {
                Value::Null => true,
                _ => false,
            };
            if nulls || !is_null {
                proof {
                    assert(nv[i as int] == names@[i as int]@);
                    assert(next.drop_last() =~= head);
                }
                match set_value(m, &names[i], &columns[i][r]) {
                    Ok(()) => {},
                    Err(e) => {
                        proof {
                            lemma_settings_prefix(
                                nv,
                                cv,
                                r as int,
                                i + 1,
                                cv.len() as int,
                                nulls,
                            );
                            lemma_values_err(start, all, next.len() as int, e);
                        }
                        return Err(e);
                    },
                }
            }
        }
        i += 1;
    }
    Ok(())
}

proof fn lemma_shared_err(m: Members, entries: Seq<SharedEntry>, n: int, e: Error)
    requires
        0 <= n <= entries.len(),
        with_shared(m, entries.take(n)) == Err::<Members, Error>(e),
    ensures
        with_shared(m, entries) == Err::<Members, Error>(e),
    decreases entries.len() - n,
{
    if n == entries.len() {
        assert(entries.take(n) =~= entries);
    } else {
        assert(entries.take(n + 1).drop_last() =~= entries.take(n));
        lemma_shared_err(m, entries, n + 1, e);
    }
}

/// Sets the values of a row of the shared column.
fn set_shared(m: &mut Vec<(String, JsonValue)>, entries: &Vec<(String, Vec<u8>)>) -> (r: Result<()>)
    ensures
        match r {
            Ok(()) => with_shared(member_views(old(m)@), entry_views(entries@)) == Ok::<_, Error>(
                member_views(final(m)@),
            ),
            Err(e) => with_shared(member_views(old(m)@), entry_views(entries@)) == Err::<
                Members,
                Error,
            >(e),
        },
{
    let ghost start = member_views(m@);
    let ghost all = entry_views(entries@);
    let mut i: usize = 0;
    while i < entries.len()
        invariant
            i <= entries.len(),
            all == entry_views(entries@),
            start == member_views(old(m)@),
            with_shared(start, all.take(i as int)) == Ok::<_, Error>(member_views(m@)),
        decreases entries.len() - i,
    {
        proof {
            assert(all.take(i + 1).drop_last() =~= all.take(i as int));
            assert(all.take(i + 1).last() == (entries@[i as int].0@, entries@[i as int].1@));
        }
        let v = match deserialize_binary_value(&entries[i].1) {
            Ok(v) => v,
            Err(_) => {
                let e = Error::DeserializeError(ReadReason::InvalidSharedValue);
                proof {
                    lemma_shared_err(start, all, i + 1, e);
                }
                return Err(e);
            },
        };
        match set_value(m, &entries[i].0, &v) {
            Ok(()) => {},
            Err(e) => {
                proof {
                    lemma_shared_err(start, all, i + 1, e);
                }
                return Err(e);
            },
        }
        i += 1;
    }
    assert(all.take(all.len() as int) =~= all);
    Ok(())
}

proof fn lemma_documents_err(b: Block, n: nat, total: nat, e: Error)
    requires
        n <= total,
        documents(b, n) == Err::<Seq<ValueView>, Error>(e),
    ensures
        documents(b, total) == Err::<Seq<ValueView>, Error>(e),
    decreases total - n,
{
    if n < total {
        lemma_documents_err(b, n + 1, total, e);
    }
}

impl JsonDeserializer {
    /// The documents that the columns of paths make.
    pub fn build_json_objects(
        typed_names: &Vec<String>,
        typed_columns: &Vec<Vec<Value>>,
        names: &Vec<String>,
        columns: &Vec<Vec<Value>>,
        shared: &Vec<Vec<(String, Vec<u8>)>>,
        rows: usize,
        nulls: bool,
    ) -> (r: Result<Vec<Value>>)
        ensures
            ({
                let b = Block {
                    typed_names: texts(typed_names@),
                    typed_columns: column_views(typed_columns@),
                    names: texts(names@),
                    columns: column_views(columns@),
                    shared: shared_views(shared@),
                    nulls,
                };
                if typed_names@.len() != typed_columns@.len() || names@.len() != columns@.len() {
                    r is Err && r->Err_0 == Error::DeserializeError(ReadReason::MissingPathValues)
                } else {
                    match r {
                        Ok(v) => documents(b, rows as nat) == Ok::<_, Error>(value_views(v@)),
                        Err(e) => documents(b, rows as nat) == Err::<Seq<ValueView>, Error>(e),
                    }
                }
            }),
    {
        if typed_names.len() != typed_columns.len() || names.len() != columns.len() {
            return Err(Error::DeserializeError(ReadReason::MissingPathValues));
        }
        let ghost b = Block {
            typed_names: texts(typed_names@),
            typed_columns: column_views(typed_columns@),
            names: texts(names@),
            columns: column_views(columns@),
            shared: shared_views(shared@),
            nulls,
        };
        let mut out: Vec<Value> = Vec::new();
        let mut i: usize = 0;
        assert(value_views(out@) =~= Seq::<ValueView>::empty());
        while i < rows
            invariant
                i <= rows,
                typed_names@.len() == typed_columns@.len(),
                names@.len() == columns@.len(),
                b == (Block {
                    typed_names: texts(typed_names@),
                    typed_columns: column_views(typed_columns@),
                    names: texts(names@),
                    columns: column_views(columns@),
                    shared: shared_views(shared@),
                    nulls,
                }),
                documents(b, i as nat) == Ok::<_, Error>(value_views(out@)),
            decreases rows - i,
        {
            let ghost head = value_views(out@);
            let mut m: Vec<(String, JsonValue)> = Vec::new();
            assert(member_views(m@) =~= Seq::<(Seq<char>, JsonView)>::empty());
            match set_row(&mut m, typed_names, typed_columns, i, nulls) {
                Ok(()) => {},
                Err(e) => {
                    proof {
                        lemma_documents_err(b, (i + 1) as nat, rows as nat, e);
                    }
                    return Err(e);
                },
            }
            match set_row(&mut m, names, columns, i, false) {
                Ok(()) => {},
                Err(e) => {
                    proof {
                        lemma_documents_err(b, (i + 1) as nat, rows as nat, e);
                    }
                    return Err(e);
                },
            }
            if i < shared.len() {
                assert(b.shared[i as int] == entry_views(shared@[i as int]@));
                match set_shared(&mut m, &shared[i]) {
                    Ok(()) => {},
                    Err(e) => {
                        proof {
                            lemma_documents_err(b, (i + 1) as nat, rows as nat, e);
                        }
                        return Err(e);
                    },
                }
            }
            let j = JsonValue::Object(m);
            proof {
                j.lemma_view();
            }
            let ghost jv = j@;
            out.push(Value::Json(j));
            assert(value_views(out@) =~= head.push(ValueView::Json(jv)));
            i += 1;
        }
        Ok(out)
    }
}

// ---------------------------------------------------------------------------
// Columns
// ---------------------------------------------------------------------------

/// The names of paths with types of their own.
pub open spec fn typed_names(typed: Seq<(Seq<char>, TypeView)>) -> Seq<Seq<char>> {
    Seq::new(typed.len(), |i: int| typed[i].0)
}

/// Reads `n` documents that are strings.
pub open spec fn parsed_documents(s: Seq<u8>, n: nat) -> Parsed<Seq<ValueView>>
    decreases n,
{
    if n == 0 {
        Ok((Seq::empty(), s))
    } else {
        match parsed_string(s) {
            Err(e) => Err(e),
            Ok((b, next)) => match json_of_text(b) {
                None => Err(Error::DeserializeError(ReadReason::InvalidJson)),
                Some(j) => match parsed_documents(next, (n - 1) as nat) {
                    Err(e) => Err(e),
                    Ok((rest, end)) => Ok((seq![ValueView::Json(j)] + rest, end)),
                },
            },
        }
    }
}

/// The documents of a block, and what stands behind it.
pub open spec fn parsed_block(l: LayoutView, b: Block, n: nat, end: Seq<u8>) -> Parsed<
    Seq<ValueView>,
> {
    if b.typed_names.len() != b.typed_columns.len() || b.names.len() != b.columns.len() {
        Err(Error::DeserializeError(ReadReason::MissingPathValues))
    } else {
        match documents(b, n) {
            Err(e) => Err(e),
            Ok(v) => Ok((v, end)),
        }
    }
}

/// Reads a column of `n` documents with the given paths.
pub open spec fn parsed_json(s: Seq<u8>, n: nat, l: LayoutView) -> Parsed<Seq<ValueView>> {
    let has_shared = l.version == JSON_OBJECT_VERSION_V1 || l.version == JSON_OBJECT_VERSION_V2;
    if l.version == JSON_OBJECT_VERSION_STRING {
        parsed_documents(s, n)
    } else if has_shared || l.version == JSON_OBJECT_VERSION_FLATTENED {
        match parsed_typed(s, l.typed, n) {
            Err(e) => Err(e),
            Ok((typed_columns, s1)) => match parsed_dynamic_columns(s1, n, l.types) {
                Err(e) => Err(e),
                Ok((columns, s2)) => {
                    let shared = if has_shared {
                        parsed_shared(s2, n)
                    } else {
                        Ok((Seq::empty(), s2))
                    };
                    match shared {
                        Err(e) => Err(e),
                        Ok((rows, end)) => parsed_block(
                            l,
                            Block {
                                typed_names: typed_names(l.typed),
                                typed_columns,
                                names: l.names,
                                columns,
                                shared: rows,
                                nulls: has_shared,
                            },
                            n,
                            end,
                        ),
                    }
                },
            },
        }
    } else {
        Err(Error::DeserializeError(ReadReason::UnsupportedVersion))
    }
}

fn read_documents(reader: &mut &[u8], n: usize) -> (r: Result<Vec<Value>>)
    ensures
        match r {
            Ok(v) => parsed_documents(old(reader)@, n as nat) == Ok::<_, Error>(
                (value_views(v@), final(reader)@),
            ),
            Err(e) => parsed_documents(old(reader)@, n as nat) == Err::<
                (Seq<ValueView>, Seq<u8>),
                Error,
            >(e),
        },
{
    let mut out: Vec<Value> = Vec::new();
    let mut i: usize = 0;
    proof {
        if let Ok((rest, _)) = parsed_documents(reader@, n as nat) {
            assert(value_views(out@) + rest =~= rest);
        }
    }
    while i < n
        invariant
            i <= n,
            parsed_documents(old(reader)@, n as nat) == match parsed_documents(
                reader@,
                (n - i) as nat,
            ) {
                Err(e) => Err(e),
                Ok((rest, end)) => Ok((value_views(out@) + rest, end)),
            },
        decreases n - i,
    {
        let ghost head = value_views(out@);
        let bytes = match read_string(reader) {
            Ok(b) => b,
            Err(e) => return Err(e),
        };
        match parse_json(&bytes) {
            None => return Err(Error::DeserializeError(ReadReason::InvalidJson)),
            Some(j) => {
                let ghost jv = ValueView::Json(j@);
                out.push(Value::Json(j));
                proof {
                    assert(value_views(out@) =~= head.push(jv));
                    if let Ok((rest, _)) = parsed_documents(reader@, (n - i - 1) as nat) {
                        assert(head + (seq![jv] + rest) =~= value_views(out@) + rest);
                    }
                }
            },
        }
        i += 1;
    }
    assert(value_views(out@) + Seq::<ValueView>::empty() =~= value_views(out@));
    Ok(out)
}

fn take_names(typed: &Vec<(String, Type)>) -> (r: Vec<String>)
    ensures
        texts(r@) == typed_names(field_views(typed@)),
{
    let mut out: Vec<String> = Vec::new();
    let mut i: usize = 0;
    while i < typed.len()
        invariant
            i <= typed.len(),
            out@.len() == i,
            forall|j: int| 0 <= j < i ==> (#[trigger] out@[j])@ == typed@[j].0@,
        decreases typed.len() - i,
    {
        out.push(typed[i].0.clone());
        i += 1;
    }
    assert(texts(out@) =~= typed_names(field_views(typed@)));
    out
}

impl JsonDeserializer {
    /// Reads what stands before a column of documents of a type.
    pub fn read_paths(type_: &Type, reader: &mut &[u8]) -> (r: Result<JsonLayout>)
        ensures
            match r {
                Ok(l) => parsed_json_prefix(old(reader)@, type_@) == Ok::<_, Error>(
                    (l@, final(reader)@),
                ),
                Err(e) => parsed_json_prefix(old(reader)@, type_@) == Err::<
                    (LayoutView, Seq<u8>),
                    Error,
                >(e),
            },
    {
        let version: u64 = match get_u64_le(reader) {
            Ok(v) => v,
            Err(e) => return Err(e),
        };
        let typed = typed_paths_of(type_);
        if version == JSON_OBJECT_VERSION_STRING {
            let l = JsonLayout {
                version,
                typed_paths: typed,
                dynamic_paths: Vec::new(),
                dynamic_types: Vec::new(),
            };
            proof {
                assert(l@.names =~= Seq::<Seq<char>>::empty());
                assert(l@.types =~= Seq::<Seq<(Seq<char>, TypeView)>>::empty());
            }
            return Ok(l);
        }
        if version == JSON_OBJECT_VERSION_V1 || version == JSON_OBJECT_VERSION_V2 || version
            == JSON_OBJECT_VERSION_FLATTENED {
            return read_layout(reader, typed, version);
        }
        Err(Error::DeserializeError(ReadReason::UnsupportedVersion))
    }

    /// Reads a column of documents with the given paths.
    pub fn read_columns(reader: &mut &[u8], rows: usize, layout: &JsonLayout) -> (r: Result<
        Vec<Value>,
    >)
        ensures
            match r {
                Ok(v) => parsed_json(old(reader)@, rows as nat, layout@) == Ok::<_, Error>(
                    (value_views(v@), final(reader)@),
                ),
                Err(e) => parsed_json(old(reader)@, rows as nat, layout@) == Err::<
                    (Seq<ValueView>, Seq<u8>),
                    Error,
                >(e),
            },
    {
        let version: u64 = layout.version;
        if version == JSON_OBJECT_VERSION_STRING {
            return read_documents(reader, rows);
        }
        let has_shared: bool = version == JSON_OBJECT_VERSION_V1 || version
            == JSON_OBJECT_VERSION_V2;
        if !has_shared && version != JSON_OBJECT_VERSION_FLATTENED {
            return Err(Error::DeserializeError(ReadReason::UnsupportedVersion));
        }
        let typed_columns = match read_typed(reader, &layout.typed_paths, rows) {
            Ok(v) => v,
            Err(e) => return Err(e),
        };
        let columns = match read_dynamic_columns(reader, rows, &layout.dynamic_types) {
            Ok(v) => v,
            Err(e) => return Err(e),
        };
        let mut shared: Vec<Vec<(String, Vec<u8>)>> = Vec::new();
        assert(shared_views(shared@) =~= Seq::<Seq<SharedEntry>>::empty());
        if has_shared {
            shared = match JsonDeserializer::read_shared_data_map(reader, rows) {
                Ok(v) => v,
                Err(e) => return Err(e),
            };
        }
        let names = take_names(&layout.typed_paths);
        proof {
            assert(texts(names@).len() == names@.len());
            assert(column_views(typed_columns@).len() == typed_columns@.len());
            assert(texts(layout.dynamic_paths@).len() == layout.dynamic_paths@.len());
            assert(column_views(columns@).len() == columns@.len());
        }
        JsonDeserializer::build_json_objects(
            &names,
            &typed_columns,
            &layout.dynamic_paths,
            &columns,
            &shared,
            rows,
            has_shared,
        )
    }

    /// Reads what stands before a column, and keeps what it tells.
    pub fn read_prefix(type_: &Type, reader: &mut &[u8], state: &mut DeserializerState)
        -> (r: Result<()>)
        ensures
            match r {
                Ok(()) => match final(state).type_specific {
                    TypeSpecificState::JsonLayout(l) => parsed_json_prefix(
                        old(reader)@,
                        type_@,
                    ) == Ok::<_, Error>((l@, final(reader)@)),
                    _ => false,
                },
                Err(e) => {
                    &&& parsed_json_prefix(old(reader)@, type_@) == Err::<
                        (LayoutView, Seq<u8>),
                        Error,
                    >(e)
                    &&& final(state).type_specific == old(state).type_specific
                },
            },
            final(state).kind_plan == old(state).kind_plan,
            final(state).sparse == old(state).sparse,
    {
        match JsonDeserializer::read_paths(type_, reader) {
            Ok(l) => {
                state.type_specific = TypeSpecificState::JsonLayout(l);
                Ok(())
            },
            Err(e) => Err(e),
        }
    }

    /// Reads a column, if what stands before it has told its paths.
    pub fn read(reader: &mut &[u8], rows: usize, state: &DeserializerState) -> (r: Result<
        Vec<Value>,
    >)
        ensures
            match state.type_specific {
                TypeSpecificState::JsonLayout(l) => match r {
                    Ok(v) => parsed_json(old(reader)@, rows as nat, l@) == Ok::<_, Error>(
                        (value_views(v@), final(reader)@),
                    ),
                    Err(e) => parsed_json(old(reader)@, rows as nat, l@) == Err::<
                        (Seq<ValueView>, Seq<u8>),
                        Error,
                    >(e),
                },
                _ => r is Err && r->Err_0 == Error::DeserializeError(ReadReason::StateNotSet),
            },
    {
        match &state.type_specific {
            TypeSpecificState::JsonLayout(l) => JsonDeserializer::read_columns(reader, rows, l),
            _ => Err(Error::DeserializeError(ReadReason::StateNotSet)),
        }
    }
}

} // verus!
