//! Columns of few different values: a dictionary of the values, and for each row a place
//! in it.
use vstd::prelude::*;

use crate::cell_laws::{cell_fits, law_cells_read_back};
use crate::cells::{
    cell_bytes, cells_bytes, get_cells, has_cells, is_cell_type, parsed_cells, put_cell,
};
use crate::columns::Written;
use crate::discriminators::{discriminator_size, parsed_discriminators, read_discriminators};
use crate::dynamic::{discriminator_bytes, put_discriminators};
use crate::dynamic_laws::law_discriminators_read_back;
use crate::error::{Error, ReadReason, Result, WriteReason};
use crate::guess::default_of;
use crate::types::{nullable, stripped, Type, TypeView};
use crate::values::{eq_bytes, value_views, Value, ValueView};
use crate::wire::{
    get_u64_le, law_uint_reads_back, le_bytes, lemma_pow256, parsed_uint, put_bytes, put_u64_le,
    Parsed,
};

verus! {

/// The flag of a column that brings its own dictionary.
pub const HAS_ADDITIONAL_KEYS: u64 = 512;

/// What stands for a value in a dictionary: its cell, or nothing for null.
pub type Entry = Option<Seq<u8>>;

// ---------------------------------------------------------------------------
// Dictionaries
// ---------------------------------------------------------------------------

/// What stands for a value. Null has a place of its own where the type takes it, and is
/// else written as the value that the type starts with.
pub open spec fn entry_of(inner: TypeView, v: ValueView) -> core::result::Result<Entry, Error> {
    if nullable(inner) && v is Null {
        Ok(None)
    } else {
        match cell_bytes(stripped(inner), v) {
            Err(e) => Err(e),
            Ok(b) => Ok(Some(b)),
        }
    }
}

/// What stands for each of several values.
pub open spec fn entries_of_values(inner: TypeView, vs: Seq<ValueView>) -> core::result::Result<
    Seq<Entry>,
    Error,
>
    decreases vs.len(),
{
    if vs.len() == 0 {
        Ok(Seq::empty())
    } else {
        match entry_of(inner, vs[0]) {
            Err(e) => Err(e),
            Ok(a) => match entries_of_values(inner, vs.skip(1)) {
                Err(e) => Err(e),
                Ok(b) => Ok(seq![a] + b),
            },
        }
    }
}

/// A dictionary with more entries, each of them once, in the order in which they come up.
pub open spec fn with_entries(dict: Seq<Entry>, es: Seq<Entry>) -> Seq<Entry>
    decreases es.len(),
{
    if es.len() == 0 {
        dict
    } else {
        let head = with_entries(dict, es.drop_last());
        if head.contains(es.last()) {
            head
        } else {
            head.push(es.last())
        }
    }
}

/// The dictionary of a column. Null, where the type takes it, stands first.
pub open spec fn dictionary(inner: TypeView, es: Seq<Entry>) -> Seq<Entry> {
    with_entries(
        if nullable(inner) {
            seq![None]
        } else {
            Seq::empty()
        },
        es,
    )
}

/// The first place of an entry, from `i` on.
pub open spec fn place(dict: Seq<Entry>, e: Entry, i: int) -> int
    decreases dict.len() - i,
{
    if 0 <= i < dict.len() && dict[i] != e {
        place(dict, e, i + 1)
    } else {
        i
    }
}

/// The places of entries.
pub open spec fn places(dict: Seq<Entry>, es: Seq<Entry>) -> Seq<u64> {
    Seq::new(es.len(), |i: int| place(dict, es[i], 0) as u64)
}

/// The cell of an entry. Null has that of the value that the type starts with.
pub open spec fn key_bytes(inner: TypeView, e: Entry) -> Seq<u8> {
    match e {
        Some(b) => b,
        None => cell_bytes(stripped(inner), ValueView::Null)->Ok_0,
    }
}

/// The cells of a dictionary.
pub open spec fn keys_bytes(inner: TypeView, dict: Seq<Entry>) -> Seq<u8>
    decreases dict.len(),
{
    if dict.len() == 0 {
        Seq::empty()
    } else {
        key_bytes(inner, dict[0]) + keys_bytes(inner, dict.skip(1))
    }
}

/// The number that tells how many bytes a place in a dictionary takes.
pub open spec fn index_kind(total: nat) -> u64 {
    if total <= 255 {
        0
    } else if total <= 65535 {
        1
    } else if total <= 4_294_967_295 {
        2
    } else {
        3
    }
}

/// The greatest place that a number of bytes can tell.
pub open spec fn greatest(kind: int) -> u64 {
    if kind == 0 {
        255
    } else if kind == 1 {
        65535
    } else if kind == 2 {
        4_294_967_295
    } else {
        u64::MAX
    }
}

// ---------------------------------------------------------------------------
// Writing
// ---------------------------------------------------------------------------

/// The bytes of a column: how the places are written, the dictionary behind its length,
/// and the places behind theirs. A column without values has none.
pub open spec fn low_bytes(inner: TypeView, vs: Seq<ValueView>) -> Written {
    if vs.len() == 0 {
        Ok(Seq::empty())
    } else if !is_cell_type(stripped(inner)) {
        Err(Error::SerializeError(WriteReason::UnsupportedValue))
    } else {
        match entries_of_values(inner, vs) {
            Err(e) => Err(e),
            Ok(es) => match cell_bytes(stripped(inner), ValueView::Null) {
                Err(e) => Err(e),
                Ok(_) => Ok(dictionary_bytes(inner, dictionary(inner, es), es)),
            },
        }
    }
}

/// The bytes of a dictionary and of the places of entries in it.
pub open spec fn dictionary_bytes(inner: TypeView, dict: Seq<Entry>, es: Seq<Entry>) -> Seq<u8> {
    le_bytes((HAS_ADDITIONAL_KEYS + index_kind(dict.len())) as nat, 8) + (le_bytes(dict.len(), 8)
        + (keys_bytes(inner, dict) + (le_bytes(es.len(), 8) + discriminator_bytes(
        places(dict, es),
        dict.len(),
    ))))
}

/// The model of an entry.
pub open spec fn entry_view(e: Option<Vec<u8>>) -> Entry {
    match e {
        Some(b) => Some(b@),
        None => None,
    }
}

/// The models of entries.
pub open spec fn entry_views(es: Seq<Option<Vec<u8>>>) -> Seq<Entry> {
    Seq::new(es.len(), |i: int| entry_view(es[i]))
}

fn same_entry(a: &Option<Vec<u8>>, b: &Option<Vec<u8>>) -> (r: bool)
    ensures
        r == (entry_view(*a) == entry_view(*b)),
{
    match (a, b) {
        (None, None) => true,
        (Some(x), Some(y)) => eq_bytes(x, y),
        _ => false,
    }
}

fn find_entry(dict: &Vec<Option<Vec<u8>>>, e: &Option<Vec<u8>>) -> (r: usize)
    ensures
        r <= dict@.len(),
        r == place(entry_views(dict@), entry_view(*e), 0),
        r < dict@.len() <==> entry_views(dict@).contains(entry_view(*e)),
{
    let ghost all = entry_views(dict@);
    let ghost x = entry_view(*e);
    let mut i: usize = 0;
    while i < dict.len()
        invariant
            i <= dict.len(),
            all == entry_views(dict@),
            x == entry_view(*e),
            place(all, x, 0) == place(all, x, i as int),
            forall|j: int| 0 <= j < i ==> (#[trigger] all[j]) != x,
        decreases dict.len() - i,
    {
        assert(all[i as int] == entry_view(dict@[i as int]));
        if same_entry(&dict[i], e) {
            assert(all.contains(x));
            return i;
        }
        i += 1;
    }
    i
}

fn make_entries(inner: &Type, values: &Vec<Value>) -> (r: Result<Vec<Option<Vec<u8>>>>)
    requires
        is_cell_type(stripped(inner@)),
    ensures
        match r {
            Ok(es) => entries_of_values(inner@, value_views(values@)) == Ok::<_, Error>(
                entry_views(es@),
            ) && es@.len() == values@.len(),
            Err(e) => entries_of_values(inner@, value_views(values@)) == Err::<Seq<Entry>, _>(e),
        },
{
    let ghost all = value_views(values@);
    let can_be_null = inner.is_nullable();
    let mut out: Vec<Option<Vec<u8>>> = Vec::new();
    let mut i: usize = 0;
    proof {
        assert(all.skip(0) =~= all);
        if let Ok(es) = entries_of_values(inner@, all) {
            assert(entry_views(out@) + es =~= es);
        }
    }
    while i < values.len()
        invariant
            i <= values.len(),
            is_cell_type(stripped(inner@)),
            can_be_null == nullable(inner@),
            all == value_views(values@),
            out@.len() == i,
            entries_of_values(inner@, all) == match entries_of_values(
                inner@,
                all.skip(i as int),
            ) {
                Err(e) => Err(e),
                Ok(rest) => Ok(entry_views(out@) + rest),
            },
        decreases values.len() - i,
    {
        let ghost head = entry_views(out@);
        proof {
            assert(all.skip(i as int)[0] == values@[i as int]@);
            assert(all.skip(i as int).skip(1) =~= all.skip(i + 1));
        }
        let is_null = match &values[i] {
            Value::Null => true,
            _ => false,
        };
        let entry: Option<Vec<u8>> = if can_be_null && is_null {
            None
        } else {
            let mut cell: Vec<u8> = Vec::new();
            match put_cell(&mut cell, inner.strip_null(), &values[i]) {
                Ok(()) => {},
                Err(e) => return Err(e),
            }
            assert(cell@ =~= cell_bytes(stripped(inner@), values@[i as int]@)->Ok_0);
            Some(cell)
        };
        let ghost x = entry_view(entry);
        assert(entry_of(inner@, values@[i as int]@) == Ok::<_, Error>(x));
        out.push(entry);
        proof {
            assert(entry_views(out@) =~= head.push(x));
            if let Ok(rest) = entries_of_values(inner@, all.skip(i + 1)) {
                assert(head + (seq![x] + rest) =~= entry_views(out@) + rest);
            }
        }
        i += 1;
    }
    proof {
        assert(all.skip(i as int) =~= Seq::<ValueView>::empty());
        assert(entry_views(out@) + Seq::<Entry>::empty() =~= entry_views(out@));
    }
    Ok(out)
}

fn copy_entry(e: &Option<Vec<u8>>) -> (r: Option<Vec<u8>>)
    ensures
        entry_view(r) == entry_view(*e),
{
    match e {
        None => None,
        Some(b) => {
            let mut out: Vec<u8> = Vec::new();
            put_bytes(&mut out, b);
            assert(out@ =~= b@);
            Some(out)
        },
    }
}

fn make_dictionary(inner: &Type, es: &Vec<Option<Vec<u8>>>) -> (r: Vec<Option<Vec<u8>>>)
    ensures
        entry_views(r@) == dictionary(inner@, entry_views(es@)),
{
    let ghost all = entry_views(es@);
    let mut dict: Vec<Option<Vec<u8>>> = Vec::new();
    if inner.is_nullable() {
        dict.push(None);
    }
    let ghost start = entry_views(dict@);
    proof {
        if nullable(inner@) {
            assert(start =~= seq![None]);
        } else {
            assert(start =~= Seq::<Entry>::empty());
        }
        assert(all.take(0) =~= Seq::<Entry>::empty());
    }
    let mut i: usize = 0;
    while i < es.len()
        invariant
            i <= es.len(),
            all == entry_views(es@),
            entry_views(dict@) == with_entries(start, all.take(i as int)),
        decreases es.len() - i,
    {
        let ghost before = entry_views(dict@);
        proof {
            assert(all.take(i + 1).drop_last() =~= all.take(i as int));
            assert(all.take(i + 1).last() == entry_view(es@[i as int]));
        }
        let k = find_entry(&dict, &es[i]);
        if k == dict.len() {
            dict.push(copy_entry(&es[i]));
            assert(entry_views(dict@) =~= before.push(entry_view(es@[i as int])));
        }
        i += 1;
    }
    assert(all.take(all.len() as int) =~= all);
    dict
}

fn find_places(dict: &Vec<Option<Vec<u8>>>, es: &Vec<Option<Vec<u8>>>) -> (r: Vec<u64>)
    ensures
        r@ == places(entry_views(dict@), entry_views(es@)),
        forall|i: int| 0 <= i < r@.len() ==> (#[trigger] r@[i]) <= dict@.len(),
{
    let mut out: Vec<u64> = Vec::new();
    let mut i: usize = 0;
    while i < es.len()
        invariant
            i <= es.len(),
            out@.len() == i,
            forall|j: int|
                0 <= j < i ==> (#[trigger] out@[j]) == places(
                    entry_views(dict@),
                    entry_views(es@),
                )[j],
            forall|j: int| 0 <= j < i ==> (#[trigger] out@[j]) <= dict@.len(),
        decreases es.len() - i,
    {
        let k = find_entry(dict, &es[i]);
        assert(entry_views(es@)[i as int] == entry_view(es@[i as int]));
        out.push(k as u64);
        i += 1;
    }
    assert(out@ =~= places(entry_views(dict@), entry_views(es@)));
    out
}

fn put_keys(out: &mut Vec<u8>, dict: &Vec<Option<Vec<u8>>>, null: &Vec<u8>, inner: &Type)
    requires
        cell_bytes(stripped(inner@), ValueView::Null) == Ok::<_, Error>(null@),
    ensures
        final(out)@ == old(out)@ + keys_bytes(inner@, entry_views(dict@)),
{
    let ghost all = entry_views(dict@);
    let mut i: usize = 0;
    assert(all.skip(0) =~= all);
    while i < dict.len()
        invariant
            i <= dict.len(),
            all == entry_views(dict@),
            cell_bytes(stripped(inner@), ValueView::Null) == Ok::<_, Error>(null@),
            old(out)@ + keys_bytes(inner@, all) == out@ + keys_bytes(inner@, all.skip(i as int)),
        decreases dict.len() - i,
    {
        let ghost before = out@;
        proof {
            assert(all.skip(i as int)[0] == entry_view(dict@[i as int]));
            assert(all.skip(i as int).skip(1) =~= all.skip(i + 1));
        }
        match &dict[i] {
            Some(b) => put_bytes(out, b),
            None => put_bytes(out, null),
        }
        proof {
            let b = key_bytes(inner@, all[i as int]);
            let rest = keys_bytes(inner@, all.skip(i + 1));
            assert(before + (b + rest) =~= before + b + rest);
        }
        i += 1;
    }
    proof {
        assert(all.skip(i as int) =~= Seq::<Entry>::empty());
        assert(out@ + Seq::<u8>::empty() =~= out@);
    }
}

fn kind_of(total: usize) -> (r: u64)
    ensures
        r == index_kind(total as nat),
{
    let total: u64 = total as u64;
    if total <= 255 {
        0
    } else if total <= 65535 {
        1
    } else if total <= 4_294_967_295 {
        2
    } else {
        3
    }
}

/// Appends a column of few different values.
pub fn put_low(writer: &mut Vec<u8>, inner: &Type, values: &Vec<Value>) -> (r: Result<()>)
    ensures
        crate::columns::wrote(
            old(writer)@,
            final(writer)@,
            r,
            low_bytes(inner@, value_views(values@)),
        ),
{
    if values.len() == 0 {
        assert(writer@ + Seq::<u8>::empty() =~= writer@);
        return Ok(());
    }
    if !has_cells(inner.strip_null()) {
        return Err(Error::SerializeError(WriteReason::UnsupportedValue));
    }
    let es = match make_entries(inner, values) {
        Ok(es) => es,
        Err(e) => return Err(e),
    };
    let mut null: Vec<u8> = Vec::new();
    match put_cell(&mut null, inner.strip_null(), &Value::Null) {
        Ok(()) => {},
        Err(e) => return Err(e),
    }
    assert(null@ =~= cell_bytes(stripped(inner@), ValueView::Null)->Ok_0);
    let dict = make_dictionary(inner, &es);
    let ds = find_places(&dict, &es);
    let ghost d = entry_views(dict@);
    assert(d.len() == dict@.len());
    put_u64_le(writer, HAS_ADDITIONAL_KEYS + kind_of(dict.len()));
    put_u64_le(writer, dict.len() as u64);
    put_keys(writer, &dict, &null, inner);
    put_u64_le(writer, values.len() as u64);
    put_discriminators(writer, &ds, dict.len());
    proof {
        let e = entry_views(es@);
        assert(e.len() == values@.len());
        assert(writer@ =~= old(writer)@ + dictionary_bytes(inner@, d, e));
    }
    Ok(())
}

// ---------------------------------------------------------------------------
// Reading
// ---------------------------------------------------------------------------

/// Whether a column brings its own dictionary, and no other, and tells how its places
/// are written.
pub open spec fn flags_ok(flags: nat) -> bool {
    flags % 256 <= 3 && flags / 256 % 2 == 0 && flags / 512 % 2 == 1
}

/// Whether each place is one of a dictionary.
pub open spec fn places_known(ds: Seq<u64>, n: nat) -> bool {
    forall|i: int| 0 <= i < ds.len() ==> (#[trigger] ds[i]) < n
}

/// The values that stand at places of a dictionary. The first is null, where the type
/// takes it.
pub open spec fn low_rows(inner: TypeView, keys: Seq<ValueView>, ds: Seq<u64>) -> Seq<ValueView> {
    Seq::new(
        ds.len(),
        |i: int|
            if nullable(inner) && ds[i] == 0 {
                ValueView::Null
            } else {
                keys[ds[i] as int]
            },
    )
}

/// Reads a column of `n` values.
pub open spec fn parsed_low(s: Seq<u8>, inner: TypeView, n: nat) -> Parsed<Seq<ValueView>> {
    let invalid = Error::DeserializeError(ReadReason::InvalidDictionary);
    if n == 0 {
        Ok((Seq::empty(), s))
    } else if !is_cell_type(stripped(inner)) {
        Err(Error::DeserializeError(ReadReason::UnsupportedType))
    } else {
        match parsed_uint(s, 8) {
            Err(e) => Err(e),
            Ok((flags, at_count)) => if !flags_ok(flags) {
                Err(invalid)
            } else {
                match parsed_uint(at_count, 8) {
                    Err(e) => Err(e),
                    Ok((count, at_keys)) => if count > usize::MAX {
                        Err(invalid)
                    } else {
                        match parsed_cells(at_keys, stripped(inner), count) {
                            Err(e) => Err(e),
                            Ok((keys, at_rows)) => match parsed_uint(at_rows, 8) {
                                Err(e) => Err(e),
                                Ok((rows, at_places)) => if rows != n {
                                    Err(invalid)
                                } else {
                                    match parsed_discriminators(
                                        at_places,
                                        n,
                                        greatest(flags as int % 256) as nat,
                                    ) {
                                        Err(e) => Err(e),
                                        Ok((ds, end)) => if places_known(ds, keys.len()) {
                                            Ok((low_rows(inner, keys, ds), end))
                                        } else {
                                            Err(invalid)
                                        },
                                    }
                                },
                            },
                        }
                    },
                }
            },
        }
    }
}

fn pick_rows(inner: &Type, keys: &Vec<Value>, ds: &Vec<u64>) -> (r: Option<Vec<Value>>)
    ensures
        match r {
            Some(v) => places_known(ds@, keys@.len()) && value_views(v@) == low_rows(
                inner@,
                value_views(keys@),
                ds@,
            ),
            None => !places_known(ds@, keys@.len()),
        },
{
    let can_be_null = inner.is_nullable();
    let mut out: Vec<Value> = Vec::new();
    let mut i: usize = 0;
    while i < ds.len()
        invariant
            i <= ds.len(),
            can_be_null == nullable(inner@),
            out@.len() == i,
            forall|j: int| 0 <= j < i ==> (#[trigger] ds@[j]) < keys@.len(),
            forall|j: int|
                0 <= j < i ==> (#[trigger] out@[j])@ == low_rows(
                    inner@,
                    value_views(keys@),
                    ds@,
                )[j],
        decreases ds.len() - i,
    {
        let d: u64 = ds[i];
        if d >= keys.len() as u64 {
            assert(ds@[i as int] >= keys@.len());
            return None;
        }
        if can_be_null && d == 0 {
            out.push(Value::Null);
        } else {
            out.push(keys[d as usize].clone());
        }
        i += 1;
    }
    assert(value_views(out@) =~= low_rows(inner@, value_views(keys@), ds@));
    Some(out)
}

fn width_of(flags: u64) -> (r: u64)
    ensures
        r == greatest(flags as int % 256),
{
    let kind: u64 = flags % 256;
    if kind == 0 {
        255
    } else if kind == 1 {
        65535
    } else if kind == 2 {
        4_294_967_295
    } else {
        u64::MAX
    }
}

/// Reads a column of few different values.
pub fn read_low(inner: &Type, reader: &mut &[u8], rows: usize) -> (r: Result<Vec<Value>>)
    ensures
        match r {
            Ok(v) => parsed_low(old(reader)@, inner@, rows as nat) == Ok::<_, Error>(
                (value_views(v@), final(reader)@),
            ) && v@.len() == rows,
            Err(e) => parsed_low(old(reader)@, inner@, rows as nat) == Err::<
                (Seq<ValueView>, Seq<u8>),
                Error,
            >(e),
        },
{
    if rows == 0 {
        let none: Vec<Value> = Vec::new();
        assert(value_views(none@) =~= Seq::<ValueView>::empty());
        return Ok(none);
    }
    let key = inner.strip_null();
    if !has_cells(key) {
        return Err(Error::DeserializeError(ReadReason::UnsupportedType));
    }
    let flags: u64 = match get_u64_le(reader) {
        Ok(x) => x,
        Err(e) => return Err(e),
    };
    if flags % 256 > 3 || flags / 256 % 2 != 0 || flags / 512 % 2 != 1 {
        return Err(Error::DeserializeError(ReadReason::InvalidDictionary));
    }
    let count: u64 = match get_u64_le(reader) {
        Ok(x) => x,
        Err(e) => return Err(e),
    };
    if count > usize::MAX as u64 {
        return Err(Error::DeserializeError(ReadReason::InvalidDictionary));
    }
    let keys = match get_cells(reader, key, count as usize) {
        Ok(v) => v,
        Err(e) => return Err(e),
    };
    let told: u64 = match get_u64_le(reader) {
        Ok(x) => x,
        Err(e) => return Err(e),
    };
    if told != rows as u64 {
        return Err(Error::DeserializeError(ReadReason::InvalidDictionary));
    }
    let ds = match read_discriminators(reader, rows, width_of(flags)) {
        Ok(v) => v,
        Err(e) => return Err(e),
    };
    match pick_rows(inner, &keys, &ds) {
        Some(v) => {
            assert(value_views(v@).len() == ds@.len());
            Ok(v)
        },
        None => Err(Error::DeserializeError(ReadReason::InvalidDictionary)),
    }
}

// ---------------------------------------------------------------------------
// Reading back
// ---------------------------------------------------------------------------

/// Whether values are those of a type of which columns hold few different values.
pub open spec fn low_fits(inner: TypeView, vs: Seq<ValueView>) -> bool {
    &&& is_cell_type(stripped(inner))
    &&& cell_fits(default_of(stripped(inner)), stripped(inner))
    &&& vs.len() < usize::MAX
    &&& forall|i: int|
        0 <= i < vs.len() ==> (nullable(inner) && (#[trigger] vs[i]) is Null) || cell_fits(
            vs[i],
            stripped(inner),
        )
}

/// The value that an entry stands for.
spec fn value_of(inner: TypeView, e: Entry) -> ValueView {
    match e {
        Some(b) => choose|v: ValueView|
            #![trigger cell_fits(v, stripped(inner))]
            cell_fits(v, stripped(inner)) && cell_bytes(stripped(inner), v) == Ok::<_, Error>(b),
        None => default_of(stripped(inner)),
    }
}

/// Whether an entry stands for a value.
spec fn stands(inner: TypeView, e: Entry) -> bool {
    match e {
        Some(b) => exists|v: ValueView|
            #![trigger cell_fits(v, stripped(inner))]
            cell_fits(v, stripped(inner)) && cell_bytes(stripped(inner), v) == Ok::<_, Error>(b),
        None => true,
    }
}

/// Different values of a type have different cells.
pub proof fn law_cells_differ(t: TypeView, v: ValueView, w: ValueView)
    requires
        cell_fits(v, t),
        cell_fits(w, t),
        cell_bytes(t, v) == cell_bytes(t, w),
    ensures
        cell_bytes(t, v) is Ok,
        v == w,
{
    let none = Seq::<u8>::empty();
    law_cells_read_back(seq![v], t, none);
    law_cells_read_back(seq![w], t, none);
    assert(seq![v].skip(1) =~= Seq::<ValueView>::empty());
    assert(seq![w].skip(1) =~= Seq::<ValueView>::empty());
    assert(cells_bytes(t, seq![v]) == cells_bytes(t, seq![w]));
    assert(seq![v] == seq![w]);
    assert(seq![v][0] == seq![w][0]);
}

proof fn lemma_entries(inner: TypeView, vs: Seq<ValueView>)
    requires
        low_fits(inner, vs),
    ensures
        entries_of_values(inner, vs) is Ok,
        entries_of_values(inner, vs)->Ok_0.len() == vs.len(),
        forall|i: int|
            0 <= i < vs.len() ==> entry_of(inner, #[trigger] vs[i]) == Ok::<_, Error>(
                entries_of_values(inner, vs)->Ok_0[i],
            ),
        forall|i: int|
            0 <= i < vs.len() ==> stands(
                inner,
                #[trigger] entries_of_values(inner, vs)->Ok_0[i],
            ),
    decreases vs.len(),
{
    if vs.len() > 0 {
        let tail = vs.skip(1);
        assert forall|i: int| 0 <= i < tail.len() implies (nullable(inner) && (
        #[trigger] tail[i]) is Null) || cell_fits(tail[i], stripped(inner)) by {
            assert(tail[i] == vs[i + 1]);
        }
        lemma_entries(inner, tail);
        let rest = entries_of_values(inner, tail)->Ok_0;
        if !(nullable(inner) && vs[0] is Null) {
            assert(cell_fits(vs[0], stripped(inner)));
            law_cells_differ(stripped(inner), vs[0], vs[0]);
        }
        let a = entry_of(inner, vs[0])->Ok_0;
        assert(stands(inner, a));
        let es = entries_of_values(inner, vs)->Ok_0;
        assert(es =~= seq![a] + rest);
        assert forall|i: int| 0 <= i < vs.len() implies entry_of(inner, #[trigger] vs[i]) == Ok::<
            _,
            Error,
        >(es[i]) && stands(inner, es[i]) by {
            if i > 0 {
                assert(vs[i] == tail[i - 1]);
                assert(es[i] == rest[i - 1]);
            }
        }
    }
}

proof fn lemma_dictionary(inner: TypeView, start: Seq<Entry>, es: Seq<Entry>)
    requires
        forall|i: int| 0 <= i < es.len() ==> stands(inner, #[trigger] es[i]),
        forall|i: int| 0 <= i < start.len() ==> stands(inner, #[trigger] start[i]),
    ensures
        with_entries(start, es).len() <= start.len() + es.len(),
        start.len() <= with_entries(start, es).len(),
        forall|i: int|
            0 <= i < start.len() ==> (#[trigger] with_entries(start, es)[i]) == start[i],
        forall|i: int| 0 <= i < es.len() ==> with_entries(start, es).contains(#[trigger] es[i]),
        forall|i: int|
            0 <= i < with_entries(start, es).len() ==> stands(
                inner,
                #[trigger] with_entries(start, es)[i],
            ),
    decreases es.len(),
{
    if es.len() > 0 {
        let front = es.drop_last();
        assert forall|i: int| 0 <= i < front.len() implies stands(inner, #[trigger] front[i]) by {
            assert(front[i] == es[i]);
        }
        lemma_dictionary(inner, start, front);
        let head = with_entries(start, front);
        let all = with_entries(start, es);
        assert(stands(inner, es[es.len() - 1]));
        assert forall|i: int| 0 <= i < es.len() implies all.contains(#[trigger] es[i]) by {
            if i < front.len() {
                assert(front[i] == es[i]);
                assert(head.contains(front[i]));
                let k = choose|k: int| 0 <= k < head.len() && head[k] == es[i];
                assert(all[k] == es[i]);
            } else if !head.contains(es.last()) {
                assert(all[head.len() as int] == es[i]);
            }
        }
    }
}

proof fn lemma_place(dict: Seq<Entry>, e: Entry, i: int)
    requires
        0 <= i <= dict.len(),
        exists|j: int| i <= j < dict.len() && #[trigger] dict[j] == e,
    ensures
        i <= place(dict, e, i) < dict.len(),
        dict[place(dict, e, i)] == e,
    decreases dict.len() - i,
{
    if i < dict.len() && dict[i] != e {
        let j = choose|j: int| i <= j < dict.len() && #[trigger] dict[j] == e;
        assert(i + 1 <= j);
        lemma_place(dict, e, i + 1);
    }
}

proof fn lemma_keys(inner: TypeView, dict: Seq<Entry>)
    requires
        is_cell_type(stripped(inner)),
        cell_fits(default_of(stripped(inner)), stripped(inner)),
        forall|i: int| 0 <= i < dict.len() ==> stands(inner, #[trigger] dict[i]),
    ensures
        ({
            let values = Seq::new(dict.len(), |i: int| value_of(inner, dict[i]));
            &&& forall|i: int|
                0 <= i < values.len() ==> cell_fits(#[trigger] values[i], stripped(inner))
            &&& cells_bytes(stripped(inner), values) == Ok::<_, Error>(keys_bytes(inner, dict))
        }),
    decreases dict.len(),
{
    let t = stripped(inner);
    let values = Seq::new(dict.len(), |i: int| value_of(inner, dict[i]));
    assert forall|i: int| 0 <= i < values.len() implies cell_fits(#[trigger] values[i], t) by {
        assert(stands(inner, dict[i]));
    }
    if dict.len() > 0 {
        let tail = dict.skip(1);
        assert forall|i: int| 0 <= i < tail.len() implies stands(inner, #[trigger] tail[i]) by {
            assert(tail[i] == dict[i + 1]);
        }
        lemma_keys(inner, tail);
        assert(values.skip(1) =~= Seq::new(tail.len(), |i: int| value_of(inner, tail[i])));
        assert(stands(inner, dict[0]));
        law_cells_differ(t, values[0], values[0]);
        assert(cell_bytes(t, values[0]) == Ok::<_, Error>(key_bytes(inner, dict[0])));
    }
}

proof fn lemma_same_width(ds: Seq<u64>, a: nat, b: nat)
    requires
        discriminator_size(a) == discriminator_size(b),
    ensures
        discriminator_bytes(ds, a) == discriminator_bytes(ds, b),
    decreases ds.len(),
{
    if ds.len() > 0 {
        lemma_same_width(ds.drop_last(), a, b);
    }
}

proof fn lemma_default_is_null(t: TypeView)
    requires
        is_cell_type(t),
    ensures
        cell_bytes(t, ValueView::Null) == cell_bytes(t, default_of(t)),
{
    assert(!(default_of(t) is Null));
}

proof fn lemma_rows(inner: TypeView, vs: Seq<ValueView>, dict: Seq<Entry>, es: Seq<Entry>)
    requires
        low_fits(inner, vs),
        es.len() == vs.len(),
        forall|i: int|
            0 <= i < vs.len() ==> entry_of(inner, #[trigger] vs[i]) == Ok::<_, Error>(es[i]),
        forall|i: int| 0 <= i < es.len() ==> dict.contains(#[trigger] es[i]),
        forall|i: int| 0 <= i < dict.len() ==> stands(inner, #[trigger] dict[i]),
        nullable(inner) ==> dict.len() > 0 && dict[0] is None,
        dict.len() <= u64::MAX,
    ensures
        places_known(places(dict, es), dict.len()),
        low_rows(
            inner,
            Seq::new(dict.len(), |i: int| value_of(inner, dict[i])),
            places(dict, es),
        ) == vs,
{
    let t = stripped(inner);
    let keys = Seq::new(dict.len(), |i: int| value_of(inner, dict[i]));
    let ds = places(dict, es);
    assert forall|i: int| 0 <= i < vs.len() implies (#[trigger] ds[i]) < dict.len() && (
    nullable(inner) && ds[i] == 0 ==> vs[i] is Null) && (!(nullable(inner) && ds[i] == 0)
        ==> keys[ds[i] as int] == vs[i]) by {
        assert(entry_of(inner, vs[i]) == Ok::<_, Error>(es[i]));
        assert(dict.contains(es[i]));
        let j = choose|j: int| 0 <= j < dict.len() && dict[j] == es[i];
        assert(dict[j] == es[i]);
        lemma_place(dict, es[i], 0);
        let d = ds[i] as int;
        assert(dict[d] == es[i]);
        assert(stands(inner, dict[d]));
        if es[i] is Some {
            assert(cell_fits(vs[i], t));
            law_cells_differ(t, keys[d], vs[i]);
        }
    }
    assert(low_rows(inner, keys, ds) =~= vs);
}

proof fn lemma_low_step(
    s: Seq<u8>,
    inner: TypeView,
    n: nat,
    flags: nat,
    at_count: Seq<u8>,
    count: nat,
    at_keys: Seq<u8>,
    keys: Seq<ValueView>,
    at_rows: Seq<u8>,
    at_places: Seq<u8>,
    ds: Seq<u64>,
    end: Seq<u8>,
)
    requires
        n > 0,
        is_cell_type(stripped(inner)),
        parsed_uint(s, 8) == Ok::<_, Error>((flags, at_count)),
        flags_ok(flags),
        parsed_uint(at_count, 8) == Ok::<_, Error>((count, at_keys)),
        count <= usize::MAX,
        parsed_cells(at_keys, stripped(inner), count) == Ok::<_, Error>((keys, at_rows)),
        parsed_uint(at_rows, 8) == Ok::<_, Error>((n, at_places)),
        parsed_discriminators(at_places, n, greatest(flags as int % 256) as nat) == Ok::<_, Error>(
            (ds, end),
        ),
        places_known(ds, keys.len()),
    ensures
        parsed_low(s, inner, n) == Ok::<_, Error>((low_rows(inner, keys, ds), end)),
{
}

proof fn lemma_five(a: Seq<u8>, b: Seq<u8>, c: Seq<u8>, d: Seq<u8>, e: Seq<u8>, rest: Seq<u8>)
    ensures
        a + (b + (c + (d + e))) + rest == a + (b + (c + (d + (e + rest)))),
{
    assert(a + (b + (c + (d + e))) + rest =~= a + (b + (c + (d + (e + rest)))));
}

proof fn lemma_flags(total: nat)
    requires
        total <= u64::MAX,
    ensures
        ({
            let flags = (HAS_ADDITIONAL_KEYS + index_kind(total)) as nat;
            &&& flags_ok(flags)
            &&& flags < 0x1_0000
            &&& flags as int % 256 == index_kind(total)
        }),
        total <= greatest(index_kind(total) as int),
        discriminator_size(greatest(index_kind(total) as int) as nat) == discriminator_size(total),
{
}

proof fn lemma_dictionary_back(
    inner: TypeView,
    dict: Seq<Entry>,
    es: Seq<Entry>,
    keys: Seq<ValueView>,
    rest: Seq<u8>,
)
    requires
        es.len() > 0,
        es.len() <= u64::MAX,
        dict.len() <= usize::MAX,
        is_cell_type(stripped(inner)),
        keys.len() == dict.len(),
        forall|i: int| 0 <= i < keys.len() ==> cell_fits(#[trigger] keys[i], stripped(inner)),
        cells_bytes(stripped(inner), keys) == Ok::<_, Error>(keys_bytes(inner, dict)),
        places_known(places(dict, es), dict.len()),
    ensures
        parsed_low(dictionary_bytes(inner, dict, es) + rest, inner, es.len()) == Ok::<_, Error>(
            (low_rows(inner, keys, places(dict, es)), rest),
        ),
{
    let ds = places(dict, es);
    let kind = index_kind(dict.len());
    let flags = (HAS_ADDITIONAL_KEYS + kind) as nat;
    let wide = greatest(kind as int) as nat;
    lemma_flags(dict.len());
    lemma_same_width(ds, dict.len(), wide);
    lemma_pow256();
    let a = le_bytes(flags, 8);
    let b = le_bytes(dict.len(), 8);
    let c = keys_bytes(inner, dict);
    let d = le_bytes(es.len(), 8);
    let e = discriminator_bytes(ds, dict.len());
    let at_places = e + rest;
    let at_rows = d + at_places;
    let at_keys = c + at_rows;
    let at_count = b + at_keys;
    assert forall|i: int| 0 <= i < ds.len() implies (#[trigger] ds[i]) <= wide by {
        assert(ds[i] < dict.len());
    }
    law_discriminators_read_back(ds, wide, rest);
    law_uint_reads_back(es.len(), 8, at_places);
    law_cells_read_back(keys, stripped(inner), at_rows);
    law_uint_reads_back(dict.len(), 8, at_keys);
    law_uint_reads_back(flags, 8, at_count);
    lemma_five(a, b, c, d, e, rest);
    lemma_low_step(
        a + at_count,
        inner,
        es.len(),
        flags,
        at_count,
        dict.len(),
        at_keys,
        keys,
        at_rows,
        at_places,
        ds,
        rest,
    );
}

/// A column of few different values is read back, whatever stands behind it.
pub proof fn law_low_reads_back(inner: TypeView, vs: Seq<ValueView>, rest: Seq<u8>)
    requires
        low_fits(inner, vs),
    ensures
        low_bytes(inner, vs) is Ok,
        parsed_low(low_bytes(inner, vs)->Ok_0 + rest, inner, vs.len()) == Ok::<_, Error>(
            (vs, rest),
        ),
{
    let t = stripped(inner);
    if vs.len() == 0 {
        assert(low_bytes(inner, vs)->Ok_0 + rest =~= rest);
        assert(vs =~= Seq::<ValueView>::empty());
    } else {
        lemma_entries(inner, vs);
        lemma_default_is_null(t);
        law_cells_differ(t, default_of(t), default_of(t));
        let es = entries_of_values(inner, vs)->Ok_0;
        let start: Seq<Entry> = if nullable(inner) {
            seq![None]
        } else {
            Seq::empty()
        };
        assert(forall|i: int| 0 <= i < start.len() ==> stands(inner, #[trigger] start[i]));
        lemma_dictionary(inner, start, es);
        let dict = dictionary(inner, es);
        if nullable(inner) {
            assert(dict[0] == start[0]);
        }
        assert(dict.len() > 0) by {
            assert(dict.contains(es[0]));
        }
        lemma_rows(inner, vs, dict, es);
        lemma_keys(inner, dict);
        let keys = Seq::new(dict.len(), |i: int| value_of(inner, dict[i]));
        lemma_dictionary_back(inner, dict, es, keys, rest);
        assert(low_bytes(inner, vs) == Ok::<_, Error>(dictionary_bytes(inner, dict, es)));
    }
}

} // verus!
