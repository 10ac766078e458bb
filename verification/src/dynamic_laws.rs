//! What is written of values of any type is read back.
use vstd::prelude::*;
use vstd::utf8::{encode_utf8, encode_utf8_decode_utf8, encode_utf8_valid_utf8};

use crate::column_laws::{column_fits, law_empty_column, lemma_prefixes_read_back, plain_prefixes};
use crate::column_read::{parsed_column, States};
use crate::columns::{column_bytes, field_types};
use crate::discriminators::{
    discriminator_size, law_discriminator_reads_back, parsed_discriminators, type_entry,
};
use crate::dynamic::{
    all_registered, discriminator_bytes, dynamic_bytes, dynamic_header, dynamic_prefix, entries_of,
    law_values_are_registered, lemma_name_index, name_bytes, names_of, registry, type_columns,
    value_discriminator, value_discriminators, values_of_type, DYNAMIC_VERSION_FLATTENED,
};
use crate::dynamic_read::{
    dynamic_row, dynamic_rows, parsed_dynamic_prefix, parsed_entries, parsed_flattened,
    parsed_type_columns, parsed_types_flattened,
};
use crate::error::Error;
use crate::guess::guessed;
use crate::mixed_laws::{
    is_stored, law_fitting_is_stored, law_mixed_column_reads_back, law_stored_len, stored,
};
use crate::prefixes::prefixes_bytes;
use crate::type_display::type_text;
use crate::type_parse::parsed_type;
use crate::types::TypeView;
use crate::values::ValueView;
use crate::variant::rank;
use crate::wire::{
    law_string_reads_back, law_uint_reads_back, law_varuint_reads_back, le_bytes, lemma_pow256,
    parsed_string, parsed_uint, string_bytes, varuint_bytes,
};

verus! {

// ---------------------------------------------------------------------------
// What stands before a column
// ---------------------------------------------------------------------------

/// Whether each name tells its type, and is no longer than an index can count.
pub open spec fn names_tell(entries: Seq<(Seq<char>, TypeView)>) -> bool {
    forall|i: int|
        0 <= i < entries.len() ==> {
            &&& parsed_type((#[trigger] entries[i]).0) is Ok
            &&& parsed_type(entries[i].0)->Ok_0 == entries[i].1
            &&& encode_utf8(entries[i].0).len() <= usize::MAX
        }
}

proof fn lemma_entry_reads_back(entry: (Seq<char>, TypeView))
    requires
        parsed_type(entry.0) is Ok,
        parsed_type(entry.0)->Ok_0 == entry.1,
    ensures
        type_entry(encode_utf8(entry.0)) == Ok::<_, Error>(entry),
{
    encode_utf8_valid_utf8(entry.0);
    encode_utf8_decode_utf8(entry.0);
}

proof fn lemma_entries_append(
    s: Seq<u8>,
    n: nat,
    entry: (Seq<char>, TypeView),
    rest: Seq<u8>,
    head: Seq<(Seq<char>, TypeView)>,
)
    requires
        parsed_entries(s, n) == Ok::<_, Error>(
            (head, string_bytes(encode_utf8(entry.0)) + rest),
        ),
        parsed_type(entry.0) is Ok,
        parsed_type(entry.0)->Ok_0 == entry.1,
        encode_utf8(entry.0).len() <= usize::MAX,
    ensures
        parsed_entries(s, n + 1) == Ok::<_, Error>((head.push(entry), rest)),
    decreases n,
{
    if n == 0 {
        law_string_reads_back(encode_utf8(entry.0), rest);
        lemma_entry_reads_back(entry);
        assert(parsed_entries(rest, 0) == Ok::<_, Error>(
            (Seq::<(Seq<char>, TypeView)>::empty(), rest),
        ));
        assert(seq![entry] + Seq::<(Seq<char>, TypeView)>::empty() =~= head.push(entry));
    } else {
        let (b, next) = parsed_string(s)->Ok_0;
        let first = type_entry(b)->Ok_0;
        let tail = parsed_entries(next, (n - 1) as nat)->Ok_0.0;
        lemma_entries_append(next, (n - 1) as nat, entry, rest, tail);
        assert(seq![first] + tail.push(entry) =~= head.push(entry));
    }
}

pub(crate) proof fn lemma_entries_read_back(entries: Seq<(Seq<char>, TypeView)>, rest: Seq<u8>)
    requires
        names_tell(entries),
    ensures
        parsed_entries(name_bytes(names_of(entries)) + rest, entries.len()) == Ok::<_, Error>(
            (entries, rest),
        ),
    decreases entries.len(),
{
    if entries.len() == 0 {
        assert(name_bytes(names_of(entries)) + rest =~= rest);
        assert(entries =~= Seq::<(Seq<char>, TypeView)>::empty());
    } else {
        let head = entries.drop_last();
        let last = entries.last();
        let b = string_bytes(encode_utf8(last.0));
        assert(names_of(entries).drop_last() =~= names_of(head));
        assert(names_tell(head)) by {
            assert forall|i: int| 0 <= i < head.len() implies {
                &&& parsed_type((#[trigger] head[i]).0) is Ok
                &&& parsed_type(head[i].0)->Ok_0 == head[i].1
                &&& encode_utf8(head[i].0).len() <= usize::MAX
            } by {
                assert(head[i] == entries[i]);
            }
        }
        assert(last == entries[entries.len() - 1]);
        lemma_entries_read_back(head, b + rest);
        assert(name_bytes(names_of(entries)) + rest =~= name_bytes(names_of(head)) + (b + rest));
        lemma_entries_append(
            name_bytes(names_of(entries)) + rest,
            head.len(),
            last,
            rest,
            head,
        );
        assert(head.push(last) =~= entries);
    }
}

/// What was written before a column of any values tells their types again, whatever
/// version it tells.
pub proof fn law_dynamic_header_reads_back(
    version: u64,
    entries: Seq<(Seq<char>, TypeView)>,
    rest: Seq<u8>,
)
    requires
        names_tell(entries),
        plain_prefixes(field_types(entries)),
        entries.len() <= u64::MAX,
    ensures
        dynamic_header(version, entries) is Ok,
        ({
            let s = dynamic_header(version, entries)->Ok_0 + rest;
            &&& parsed_uint(s, 8) is Ok
            &&& parsed_uint(s, 8)->Ok_0.0 == version
            &&& parsed_types_flattened(parsed_uint(s, 8)->Ok_0.1) == Ok::<_, Error>(
                (entries, rest),
            )
        }),
{
    lemma_pow256();
    let ts = field_types(entries);
    lemma_prefixes_read_back(ts, rest);
    let p = prefixes_bytes(ts)->Ok_0;
    let names = name_bytes(names_of(entries));
    let count = varuint_bytes(entries.len());
    let head = le_bytes(version as nat, 8);
    lemma_entries_read_back(entries, p + rest);
    law_varuint_reads_back(entries.len() as u64, names + (p + rest));
    law_uint_reads_back(version as nat, 8, count + (names + (p + rest)));
    assert(dynamic_header(version, entries)->Ok_0 + rest =~= head + (count + (names + (p
        + rest))));
}

/// The same in the version that is written.
pub proof fn law_dynamic_prefix_reads_back(entries: Seq<(Seq<char>, TypeView)>, rest: Seq<u8>)
    requires
        names_tell(entries),
        plain_prefixes(field_types(entries)),
        entries.len() <= u64::MAX,
    ensures
        dynamic_prefix(entries) is Ok,
        parsed_dynamic_prefix(dynamic_prefix(entries)->Ok_0 + rest) == Ok::<_, Error>(
            ((DYNAMIC_VERSION_FLATTENED, entries), rest),
        ),
{
    law_dynamic_header_reads_back(DYNAMIC_VERSION_FLATTENED, entries, rest);
}

// ---------------------------------------------------------------------------
// Columns
// ---------------------------------------------------------------------------

proof fn lemma_discriminators_append(
    s: Seq<u8>,
    n: nat,
    total: nat,
    d: u64,
    rest: Seq<u8>,
    head: Seq<u64>,
)
    requires
        parsed_discriminators(s, n, total) == Ok::<_, Error>(
            (head, le_bytes(d as nat, discriminator_size(total)) + rest),
        ),
        d <= total <= u64::MAX,
    ensures
        parsed_discriminators(s, n + 1, total) == Ok::<_, Error>((head.push(d), rest)),
    decreases n,
{
    if n == 0 {
        law_discriminator_reads_back(d as nat, total, rest);
        assert(parsed_discriminators(rest, 0, total) == Ok::<_, Error>(
            (Seq::<u64>::empty(), rest),
        ));
        assert(seq![d] + Seq::<u64>::empty() =~= head.push(d));
    } else {
        let (x, next) = parsed_uint(s, discriminator_size(total))->Ok_0;
        let tail = parsed_discriminators(next, (n - 1) as nat, total)->Ok_0.0;
        lemma_discriminators_append(next, (n - 1) as nat, total, d, rest, tail);
        assert(seq![x as u64] + tail.push(d) =~= head.push(d));
    }
}

/// Discriminators that were written are read back.
pub proof fn law_discriminators_read_back(ds: Seq<u64>, total: nat, rest: Seq<u8>)
    requires
        forall|i: int| 0 <= i < ds.len() ==> (#[trigger] ds[i]) <= total,
        total <= u64::MAX,
    ensures
        parsed_discriminators(discriminator_bytes(ds, total) + rest, ds.len(), total) == Ok::<
            _,
            Error,
        >((ds, rest)),
    decreases ds.len(),
{
    if ds.len() == 0 {
        assert(discriminator_bytes(ds, total) + rest =~= rest);
        assert(ds =~= Seq::<u64>::empty());
    } else {
        let head = ds.drop_last();
        let b = le_bytes(ds.last() as nat, discriminator_size(total));
        assert(ds.last() == ds[ds.len() - 1]);
        law_discriminators_read_back(head, total, b + rest);
        assert(discriminator_bytes(ds, total) + rest =~= discriminator_bytes(head, total) + (b
            + rest));
        lemma_discriminators_append(
            discriminator_bytes(ds, total) + rest,
            head.len(),
            total,
            ds.last(),
            rest,
            head,
        );
        assert(head.push(ds.last()) =~= ds);
    }
}

proof fn lemma_discriminators_bounded(vs: Seq<ValueView>, names: Seq<Seq<char>>)
    requires
        all_registered(vs, names),
        names.len() <= u64::MAX,
    ensures
        forall|i: int|
            0 <= i < vs.len() ==> (#[trigger] value_discriminators(vs, names)[i]) <= names.len(),
        forall|i: int|
            0 <= i < vs.len() ==> ((#[trigger] value_discriminators(vs, names)[i]) == names.len())
                == (vs[i] is Null),
{
    assert forall|i: int| 0 <= i < vs.len() implies (#[trigger] value_discriminators(
        vs,
        names,
    )[i]) <= names.len() && (value_discriminators(vs, names)[i] == names.len()) == (
    vs[i] is Null) by {
        assert(value_discriminator(vs[i], names) is Some);
        lemma_name_index(names, type_text(guessed(vs[i])), 0);
    }
}

proof fn lemma_rank_take(ds: Seq<u64>, d: u64, n: int, i: int)
    requires
        0 <= i <= n <= ds.len(),
    ensures
        rank(ds.take(n), d, i) == rank(ds, d, i),
    decreases i,
{
    if i > 0 {
        lemma_rank_take(ds, d, n, i - 1);
    }
}

/// The values of a type are found behind as many as there are of it in earlier rows.
proof fn lemma_values_rank(vs: Seq<ValueView>, names: Seq<Seq<char>>, d: nat)
    requires
        all_registered(vs, names),
        names.len() <= u64::MAX,
        d < names.len(),
    ensures
        values_of_type(vs, names, d).len() == rank(
            value_discriminators(vs, names),
            d as u64,
            vs.len() as int,
        ),
        forall|i: int|
            #![trigger vs[i]]
            0 <= i < vs.len() && value_discriminators(vs, names)[i] == d ==> {
                let r = rank(value_discriminators(vs, names), d as u64, i);
                r < values_of_type(vs, names, d).len() && values_of_type(vs, names, d)[r as int]
                    == vs[i]
            },
    decreases vs.len(),
{
    let ds = value_discriminators(vs, names);
    if vs.len() > 0 {
        let head = vs.drop_last();
        let n = vs.len() - 1;
        assert(all_registered(head, names)) by {
            assert forall|i: int| 0 <= i < head.len() implies value_discriminator(
                #[trigger] head[i],
                names,
            ) is Some by {
                assert(head[i] == vs[i]);
            }
        }
        lemma_values_rank(head, names, d);
        let hs = value_discriminators(head, names);
        assert(hs =~= ds.take(n));
        lemma_rank_take(ds, d as u64, n, n);
        lemma_discriminators_bounded(vs, names);
        assert(value_discriminator(vs[n], names) is Some);
        lemma_name_index(names, type_text(guessed(vs[n])), 0);
        assert((ds[n] == d) == (!(vs.last() is Null) && value_discriminator(vs.last(), names)
            == Some(d)));
        assert forall|i: int|
            #![trigger vs[i]]
            0 <= i < vs.len() && ds[i] == d implies {
            let r = rank(ds, d as u64, i);
            r < values_of_type(vs, names, d).len() && values_of_type(vs, names, d)[r as int]
                == vs[i]
        } by {
            lemma_rank_take(ds, d as u64, n, if i < n {
                i
            } else {
                n
            });
            if i < n {
                assert(head[i] == vs[i]);
                assert(hs[i] == ds[i]);
            }
        }
    }
}

/// Whether the values of each type can be read back, from the type with the
/// discriminator `d` on.
pub open spec fn types_fit(
    ts: Seq<TypeView>,
    vs: Seq<ValueView>,
    names: Seq<Seq<char>>,
    d: nat,
) -> bool {
    forall|i: int|
        0 <= i < ts.len() ==> column_fits(
            #[trigger] ts[i],
            values_of_type(vs, names, (d + i) as nat),
        )
}

spec fn no_states() -> States {
    Map::empty()
}

proof fn lemma_columns_step(
    s: Seq<u8>,
    ts: Seq<TypeView>,
    ds: Seq<u64>,
    d: nat,
    c: Seq<ValueView>,
    mid: Seq<u8>,
    cs: Seq<Seq<ValueView>>,
    end: Seq<u8>,
)
    requires
        ts.len() > 0,
        c.len() == rank(ds, d as u64, ds.len() as int),
        c.len() == 0 ==> mid == s,
        c.len() > 0 ==> parsed_column(s, ts[0], c.len(), Set::empty(), Seq::empty(), no_states())
            == Ok::<_, Error>(((c, no_states()), mid)),
        parsed_type_columns(mid, ts.subrange(1, ts.len() as int), ds, d + 1) == Ok::<_, Error>(
            (cs, end),
        ),
    ensures
        parsed_type_columns(s, ts, ds, d) == Ok::<_, Error>((seq![c] + cs, end)),
{
    if c.len() == 0 {
        assert(c =~= Seq::<ValueView>::empty());
    }
}

/// Whether the values of each type can be read back as they are written, from the type
/// with the discriminator `d` on.
pub open spec fn types_stored(
    ts: Seq<TypeView>,
    vs: Seq<ValueView>,
    names: Seq<Seq<char>>,
    d: nat,
) -> bool {
    forall|i: int|
        0 <= i < ts.len() ==> is_stored(
            #[trigger] ts[i],
            values_of_type(vs, names, (d + i) as nat),
        )
}

/// The columns of the types as they are written, from the type with the discriminator
/// `d` on.
pub open spec fn stored_columns(
    ts: Seq<TypeView>,
    vs: Seq<ValueView>,
    names: Seq<Seq<char>>,
    d: nat,
) -> Seq<Seq<ValueView>> {
    Seq::new(ts.len(), |i: int| stored(ts[i], values_of_type(vs, names, (d + i) as nat)))
}

/// Values of any types as they are written: each as a value of its type.
pub open spec fn dynamic_stored(
    vs: Seq<ValueView>,
    entries: Seq<(Seq<char>, TypeView)>,
) -> Seq<ValueView> {
    let names = names_of(entries);
    dynamic_rows(
        value_discriminators(vs, names),
        names.len(),
        stored_columns(field_types(entries), vs, names, 0),
    )
}

pub(crate) proof fn lemma_empty_stored(t: TypeView)
    requires
        is_stored(t, Seq::empty()),
    ensures
        stored(t, Seq::empty()) == Seq::<ValueView>::empty(),
        column_bytes(t, Seq::empty()) == Ok::<_, Error>(Seq::<u8>::empty()),
{
    law_stored_len(t, Seq::empty());
    assert(stored(t, Seq::empty()) =~= Seq::<ValueView>::empty());
    law_empty_column(t);
}

#[verifier::rlimit(60)]
proof fn lemma_type_columns_read_back(
    ts: Seq<TypeView>,
    vs: Seq<ValueView>,
    names: Seq<Seq<char>>,
    d: nat,
    rest: Seq<u8>,
)
    requires
        all_registered(vs, names),
        names.len() <= u64::MAX,
        d + ts.len() == names.len(),
        types_stored(ts, vs, names, d),
    ensures
        type_columns(ts, vs, names, d) is Ok,
        parsed_type_columns(
            type_columns(ts, vs, names, d)->Ok_0 + rest,
            ts,
            value_discriminators(vs, names),
            d,
        ) == Ok::<_, Error>((stored_columns(ts, vs, names, d), rest)),
    decreases ts.len(),
{
    let ds = value_discriminators(vs, names);
    let columns = stored_columns(ts, vs, names, d);
    if ts.len() == 0 {
        assert(type_columns(ts, vs, names, d)->Ok_0 + rest =~= rest);
        assert(columns =~= Seq::<Seq<ValueView>>::empty());
    } else {
        let tail = ts.subrange(1, ts.len() as int);
        assert(types_stored(tail, vs, names, d + 1)) by {
            assert forall|i: int| 0 <= i < tail.len() implies is_stored(
                #[trigger] tail[i],
                values_of_type(vs, names, (d + 1 + i) as nat),
            ) by {
                assert(tail[i] == ts[i + 1]);
                assert((d + (i + 1)) as nat == (d + 1 + i) as nat);
            }
        }
        lemma_type_columns_read_back(tail, vs, names, d + 1, rest);
        let c = values_of_type(vs, names, d);
        assert(is_stored(ts[0], values_of_type(vs, names, (d + 0) as nat)));
        let w = stored(ts[0], c);
        law_stored_len(ts[0], c);
        lemma_values_rank(vs, names, d);
        let a = type_columns(tail, vs, names, d + 1)->Ok_0;
        law_mixed_column_reads_back(ts[0], c, a + rest, Seq::empty(), no_states());
        let b = column_bytes(ts[0], c)->Ok_0;
        if c.len() == 0 {
            assert(c =~= Seq::<ValueView>::empty());
            lemma_empty_stored(ts[0]);
            assert(b + (a + rest) =~= a + rest);
        }
        assert(type_columns(ts, vs, names, d)->Ok_0 + rest =~= b + (a + rest));
        let cs = stored_columns(tail, vs, names, d + 1);
        lemma_columns_step(b + (a + rest), ts, ds, d, w, a + rest, cs, rest);
        assert forall|i: int| 1 <= i < ts.len() implies columns[i] == cs[i - 1] by {
            assert(tail[i - 1] == ts[i]);
            assert((d + 1 + (i - 1)) as nat == (d + i) as nat);
        }
        assert(columns =~= seq![w] + cs);
    }
}

/// Each value stands behind as many of its type as there are in earlier rows; null stands
/// for itself.
pub proof fn law_dynamic_stored(vs: Seq<ValueView>, entries: Seq<(Seq<char>, TypeView)>, i: int)
    requires
        all_registered(vs, names_of(entries)),
        types_stored(field_types(entries), vs, names_of(entries), 0),
        entries.len() <= u64::MAX,
        0 <= i < vs.len(),
    ensures
        ({
            let names = names_of(entries);
            let ds = value_discriminators(vs, names);
            let d = ds[i];
            let r = rank(ds, d, i) as int;
            let columns = stored_columns(field_types(entries), vs, names, 0);
            &&& dynamic_row(d, r, names.len(), columns) == Some(dynamic_stored(vs, entries)[i])
            &&& d <= names.len()
            &&& (d == names.len()) == (vs[i] is Null)
            &&& vs[i] is Null ==> dynamic_stored(vs, entries)[i] is Null
            &&& d < names.len() ==> {
                let t = field_types(entries)[d as int];
                let c = values_of_type(vs, names, d as nat);
                &&& 0 <= r < c.len()
                &&& c[r] == vs[i]
                &&& is_stored(t, c)
                &&& dynamic_stored(vs, entries)[i] == stored(t, c)[r]
            }
        }),
{
    let names = names_of(entries);
    let ts = field_types(entries);
    let ds = value_discriminators(vs, names);
    let d = ds[i];
    lemma_discriminators_bounded(vs, names);
    if d < names.len() {
        lemma_values_rank(vs, names, d as nat);
        let c = values_of_type(vs, names, (0 + d) as nat);
        assert(is_stored(ts[d as int], c));
        law_stored_len(ts[d as int], c);
        assert(stored_columns(ts, vs, names, 0)[d as int] == stored(ts[d as int], c));
        assert(vs[i] == c[rank(ds, d, i) as int]);
    }
}

/// What is read of a column of any values whose types are known is what its values are
/// written as, whatever stands behind it.
#[verifier::spinoff_prover]
#[verifier::rlimit(40)]
pub proof fn law_mixed_dynamic_reads_back(
    vs: Seq<ValueView>,
    entries: Seq<(Seq<char>, TypeView)>,
    rest: Seq<u8>,
)
    requires
        all_registered(vs, names_of(entries)),
        types_stored(field_types(entries), vs, names_of(entries), 0),
        entries.len() <= u64::MAX,
    ensures
        dynamic_bytes(vs, entries) is Ok,
        parsed_flattened(
            dynamic_bytes(vs, entries)->Ok_0 + rest,
            vs.len(),
            field_types(entries),
        ) == Ok::<_, Error>((dynamic_stored(vs, entries), rest)),
{
    let names = names_of(entries);
    let ts = field_types(entries);
    let ds = value_discriminators(vs, names);
    lemma_type_columns_read_back(ts, vs, names, 0, rest);
    let a = type_columns(ts, vs, names, 0)->Ok_0;
    lemma_discriminators_bounded(vs, names);
    law_discriminators_read_back(ds, names.len(), a + rest);
    let head = discriminator_bytes(ds, names.len());
    assert(dynamic_bytes(vs, entries)->Ok_0 + rest =~= head + (a + rest));
    let columns = stored_columns(ts, vs, names, 0);
    assert forall|i: int| 0 <= i < ds.len() implies dynamic_row(
        #[trigger] ds[i],
        rank(ds, ds[i], i) as int,
        ts.len(),
        columns,
    ) is Some by {
        law_dynamic_stored(vs, entries, i);
    }
}

/// Values that are values of their types are written as they are.
pub proof fn law_dynamic_stored_same(vs: Seq<ValueView>, entries: Seq<(Seq<char>, TypeView)>)
    requires
        all_registered(vs, names_of(entries)),
        types_fit(field_types(entries), vs, names_of(entries), 0),
        entries.len() <= u64::MAX,
    ensures
        types_stored(field_types(entries), vs, names_of(entries), 0),
        dynamic_stored(vs, entries) == vs,
{
    let names = names_of(entries);
    let ts = field_types(entries);
    assert forall|i: int| 0 <= i < ts.len() implies {
        let c = values_of_type(vs, names, (0 + i) as nat);
        is_stored(#[trigger] ts[i], c) && stored(ts[i], c) == c
    } by {
        law_fitting_is_stored(ts[i], values_of_type(vs, names, (0 + i) as nat));
    }
    let out = dynamic_stored(vs, entries);
    assert forall|i: int| 0 <= i < vs.len() implies out[i] == vs[i] by {
        law_dynamic_stored(vs, entries, i);
        let d = value_discriminators(vs, names)[i];
        if d < names.len() {
            let c = values_of_type(vs, names, (0 + d) as nat);
            assert(stored(ts[d as int], c) == c);
        }
    }
    assert(out =~= vs);
}

/// A column of values whose types are known is read back, whatever stands behind it.
pub proof fn law_dynamic_reads_back(
    vs: Seq<ValueView>,
    entries: Seq<(Seq<char>, TypeView)>,
    rest: Seq<u8>,
)
    requires
        all_registered(vs, names_of(entries)),
        types_fit(field_types(entries), vs, names_of(entries), 0),
        entries.len() <= u64::MAX,
    ensures
        dynamic_bytes(vs, entries) is Ok,
        parsed_flattened(
            dynamic_bytes(vs, entries)->Ok_0 + rest,
            vs.len(),
            field_types(entries),
        ) == Ok::<_, Error>((vs, rest)),
{
    law_dynamic_stored_same(vs, entries);
    law_mixed_dynamic_reads_back(vs, entries, rest);
}

/// Values of any types are read back once their types have been found out.
pub proof fn law_analyzed_values_read_back(vs: Seq<ValueView>, rest: Seq<u8>)
    requires
        registry(vs).len() <= u64::MAX,
        types_fit(field_types(entries_of(registry(vs))), vs, registry(vs), 0),
    ensures
        dynamic_bytes(vs, entries_of(registry(vs))) is Ok,
        parsed_flattened(
            dynamic_bytes(vs, entries_of(registry(vs)))->Ok_0 + rest,
            vs.len(),
            field_types(entries_of(registry(vs))),
        ) == Ok::<_, Error>((vs, rest)),
{
    let entries = entries_of(registry(vs));
    assert(names_of(entries) =~= registry(vs));
    law_values_are_registered(vs);
    law_dynamic_reads_back(vs, entries, rest);
}

} // verus!
