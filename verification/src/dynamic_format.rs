//! How columns of variants and of any values stand in bytes.
use vstd::prelude::*;
use vstd::utf8::encode_utf8;

use crate::column_laws::{
    all_known, group_entry, groups_fit, groups_from, lemma_groups_read_back,
    lemma_prefixes_read_back, plain_prefixes,
};
use crate::column_read::{all_found, parsed_column, parsed_groups, variant_rows, States};
use crate::columns::{column_bytes, field_types, group_columns};
use crate::discriminators::{discriminator_size, parsed_discriminators};
use crate::dynamic::{
    discriminator_bytes, dynamic_bytes, dynamic_prefix, name_bytes, names_of, value_discriminators,
};
use crate::dynamic_laws::{lemma_entries_read_back, names_tell};
use crate::dynamic_read::{
    parsed_dynamic, parsed_dynamic_prefix, parsed_flattened, parsed_type_columns, parsed_v1_v2,
};
use crate::error::Error;
use crate::prefixes::{parsed_prefix, parsed_prefixes, prefixes_bytes};
use crate::types::TypeView;
use crate::values::ValueView;
use crate::variant::{all_variants, discriminators_of, group_of, lemma_group_rank, rank, row_value};
use crate::wire::{
    law_uint_reads_back, law_varuint_reads_back, le_bytes, lemma_pow256, parsed_bytes, parsed_uint,
    varuint_bytes,
};
use crate::wire_format::law_bytes_of_small_numbers;

verus! {

// ---------------------------------------------------------------------------
// Names of types
// ---------------------------------------------------------------------------

/// Names, each behind the number of its bytes.
pub open spec fn named(names: Seq<Seq<char>>) -> Seq<u8>
    decreases names.len(),
{
    if names.len() == 0 {
        Seq::empty()
    } else {
        let b = encode_utf8(names[0]);
        varuint_bytes(b.len()) + b + named(names.skip(1))
    }
}

proof fn lemma_named_last(names: Seq<Seq<char>>)
    requires
        names.len() > 0,
    ensures
        ({
            let b = encode_utf8(names.last());
            named(names) == named(names.drop_last()) + (varuint_bytes(b.len()) + b)
        }),
    decreases names.len(),
{
    let b = encode_utf8(names.last());
    let last = varuint_bytes(b.len()) + b;
    if names.len() == 1 {
        assert(names.skip(1) =~= Seq::<Seq<char>>::empty());
        assert(names.drop_last() =~= Seq::<Seq<char>>::empty());
        assert(names[0] == names.last());
        assert(named(names.skip(1)) == Seq::<u8>::empty());
        assert(named(names.drop_last()) == Seq::<u8>::empty());
        assert(last + Seq::<u8>::empty() =~= Seq::<u8>::empty() + last);
    } else {
        let tail = names.skip(1);
        lemma_named_last(tail);
        assert(tail.drop_last() =~= names.drop_last().skip(1));
        let a = encode_utf8(names[0]);
        let first = varuint_bytes(a.len()) + a;
        assert(names.drop_last()[0] == names[0]);
        assert(first + (named(tail.drop_last()) + last) =~= first + named(tail.drop_last()) + last);
    }
}

/// Names are written one behind the other, each behind the number of its bytes.
pub proof fn law_names_stand_behind_their_lengths(names: Seq<Seq<char>>)
    ensures
        name_bytes(names) == named(names),
    decreases names.len(),
{
    if names.len() > 0 {
        law_names_stand_behind_their_lengths(names.drop_last());
        lemma_named_last(names);
    } else {
        assert(name_bytes(names) =~= named(names));
    }
}

// ---------------------------------------------------------------------------
// What stands before a column of any values
// ---------------------------------------------------------------------------

proof fn lemma_prefixes_pushed(s: Seq<u8>, ts: Seq<TypeView>, t: TypeView)
    ensures
        parsed_prefixes(s, ts.push(t)) == (match parsed_prefixes(s, ts) {
            Err(e) => Err(e),
            Ok((_, rest)) => parsed_prefix(rest, t),
        }),
    decreases ts.len(),
{
    let all = ts.push(t);
    if ts.len() == 0 {
        assert(all.subrange(1, all.len() as int) =~= Seq::<TypeView>::empty());
        assert(all[0] == t);
        match parsed_prefix(s, t) {
            Err(_) => {},
            Ok((u, rest)) => {
                assert(parsed_prefixes(rest, Seq::empty()) == Ok::<_, Error>(((), rest)));
            },
        }
    } else {
        let tail = ts.subrange(1, ts.len() as int);
        assert(all.subrange(1, all.len() as int) =~= tail.push(t));
        assert(all[0] == ts[0]);
        if let Ok((_, rest)) = parsed_prefix(s, ts[0]) {
            lemma_prefixes_pushed(rest, tail, t);
        }
    }
}

/// In the second version the number two stands first, in eight bytes, and behind it the
/// number of types, their names, eight bytes, and what stands before the columns of the
/// types. What is read are these types, with strings behind them.
pub proof fn law_second_version_tells_its_types(
    entries: Seq<(Seq<char>, TypeView)>,
    version: Seq<u8>,
    rest: Seq<u8>,
)
    requires
        names_tell(entries),
        plain_prefixes(field_types(entries)),
        entries.len() <= u64::MAX,
        version.len() == 8,
    ensures
        prefixes_bytes(field_types(entries)) is Ok,
        parsed_dynamic_prefix(
            seq![2u8, 0, 0, 0, 0, 0, 0, 0] + (varuint_bytes(entries.len()) + (named(
                names_of(entries),
            ) + (version + (prefixes_bytes(field_types(entries))->Ok_0 + rest)))),
        ) == Ok::<_, Error>(((2u64, entries.push(("String"@, TypeView::String))), rest)),
{
    let p = prefixes_bytes(field_types(entries))->Ok_0;
    let s = varuint_bytes(entries.len()) + (named(names_of(entries)) + (version + (p + rest)));
    law_bytes_of_small_numbers(2);
    lemma_pow256();
    law_uint_reads_back(2, 8, s);
    lemma_older_types(entries, version, rest);
}

/// In the first version the number zero stands first, and a limit before the number of
/// types, whatever it is.
pub proof fn law_first_version_tells_a_limit_and_its_types(
    entries: Seq<(Seq<char>, TypeView)>,
    limit: u64,
    version: Seq<u8>,
    rest: Seq<u8>,
)
    requires
        names_tell(entries),
        plain_prefixes(field_types(entries)),
        entries.len() <= u64::MAX,
        version.len() == 8,
    ensures
        prefixes_bytes(field_types(entries)) is Ok,
        parsed_dynamic_prefix(
            seq![0u8, 0, 0, 0, 0, 0, 0, 0] + (varuint_bytes(limit as nat) + (varuint_bytes(
                entries.len(),
            ) + (named(names_of(entries)) + (version + (prefixes_bytes(
                field_types(entries),
            )->Ok_0 + rest))))),
        ) == Ok::<_, Error>(((0u64, entries.push(("String"@, TypeView::String))), rest)),
{
    let p = prefixes_bytes(field_types(entries))->Ok_0;
    let s = varuint_bytes(entries.len()) + (named(names_of(entries)) + (version + (p + rest)));
    law_bytes_of_small_numbers(0);
    lemma_pow256();
    law_uint_reads_back(0, 8, varuint_bytes(limit as nat) + s);
    law_varuint_reads_back(limit, s);
    lemma_older_types(entries, version, rest);
}

proof fn lemma_older_types(entries: Seq<(Seq<char>, TypeView)>, version: Seq<u8>, rest: Seq<u8>)
    requires
        names_tell(entries),
        plain_prefixes(field_types(entries)),
        entries.len() <= u64::MAX,
        version.len() == 8,
    ensures
        prefixes_bytes(field_types(entries)) is Ok,
        crate::dynamic_read::parsed_types_v1_v2(
            varuint_bytes(entries.len()) + (named(names_of(entries)) + (version + (prefixes_bytes(
                field_types(entries),
            )->Ok_0 + rest))),
            2,
        ) == Ok::<_, Error>((entries.push(("String"@, TypeView::String)), rest)),
{
    let ts = field_types(entries);
    lemma_prefixes_read_back(ts, rest);
    let p = prefixes_bytes(ts)->Ok_0;
    law_names_stand_behind_their_lengths(names_of(entries));
    lemma_entries_read_back(entries, version + (p + rest));
    law_varuint_reads_back(
        entries.len() as u64,
        named(names_of(entries)) + (version + (p + rest)),
    );
    let all = entries.push(("String"@, TypeView::String));
    assert(field_types(all) =~= ts.push(TypeView::String));
    lemma_prefixes_pushed(p + rest, ts, TypeView::String);
    let s3 = version + (p + rest);
    assert(s3.skip(8) =~= p + rest);
    assert(parsed_uint(s3, 8)->Ok_0.1 == p + rest);
}

/// What is written before a column of any values: the number three in eight bytes, the number
/// of types, their names, and what stands before their columns.
pub proof fn law_third_version_tells_its_types(entries: Seq<(Seq<char>, TypeView)>, rest: Seq<u8>)
    requires
        names_tell(entries),
        plain_prefixes(field_types(entries)),
        entries.len() <= u64::MAX,
    ensures
        ({
            let b = seq![3u8, 0, 0, 0, 0, 0, 0, 0] + (varuint_bytes(entries.len()) + (named(
                names_of(entries),
            ) + prefixes_bytes(field_types(entries))->Ok_0));
            &&& prefixes_bytes(field_types(entries)) is Ok
            &&& dynamic_prefix(entries) == Ok::<_, Error>(b)
            &&& parsed_dynamic_prefix(b + rest) == Ok::<_, Error>(((3u64, entries), rest))
        }),
{
    lemma_prefixes_read_back(field_types(entries), rest);
    law_names_stand_behind_their_lengths(names_of(entries));
    law_bytes_of_small_numbers(3);
    let p = prefixes_bytes(field_types(entries))->Ok_0;
    let n = varuint_bytes(entries.len());
    let m = named(names_of(entries));
    let v = seq![3u8, 0, 0, 0, 0, 0, 0, 0];
    assert((v + (n + m)) + p =~= v + (n + (m + p)));
    crate::dynamic_laws::law_dynamic_prefix_reads_back(entries, rest);
}

/// Versions but the first three and the one written are refused.
pub proof fn law_other_versions_are_refused(version: u64, rest: Seq<u8>, n: nat)
    requires
        version != 0,
        version != 2,
        version != 3,
    ensures
        parsed_dynamic_prefix(le_bytes(version as nat, 8) + rest) is Err,
        parsed_dynamic(rest, n, Some(version), Seq::empty()) is Err,
{
    lemma_pow256();
    law_uint_reads_back(version as nat, 8, rest);
}

// ---------------------------------------------------------------------------
// Variants
// ---------------------------------------------------------------------------

/// A column of variants begins with one byte for each row, its discriminator; the columns of
/// the types stand behind them in order, each with the values under its discriminator.
pub proof fn law_discriminators_stand_first(ts: Seq<TypeView>, vs: Seq<ValueView>, b: Seq<u8>)
    requires
        column_bytes(TypeView::Variant(ts), vs) == Ok::<_, Error>(b),
    ensures
        b.len() >= vs.len(),
        forall|i: int|
            0 <= i < vs.len() ==> (#[trigger] vs[i] matches ValueView::Variant(d, _) && b[i] == d),
{
    crate::columns::lemma_sorted_size(ts);
    assert forall|i: int| 0 <= i < vs.len() implies (#[trigger] vs[i] matches ValueView::Variant(
        d,
        _,
    ) && b[i] == d) by {
        assert(vs[i] is Variant);
        assert(discriminators_of(vs)[i] == vs[i]->Variant_0);
    }
}

/// The values under a discriminator, and those of the same discriminator before a row.
proof fn lemma_row_value(ds: Seq<u8>, columns: Seq<Seq<ValueView>>, i: int)
    requires
        all_found(ds, columns),
        0 <= i < ds.len(),
    ensures
        variant_rows(ds, columns)[i] matches ValueView::Variant(d, x) && d == ds[i] && (*x == (
        if d == 255 {
            ValueView::Null
        } else {
            columns[d as int][rank(ds, d, i) as int]
        })),
        ds[i] != 255 ==> ds[i] < columns.len() && rank(ds, ds[i], i) < columns[ds[i] as int].len(),
{
    assert(row_value(ds[i], rank(ds, ds[i], i) as int, columns) is Some);
}

/// A row of a column of variants is read under the discriminator that its byte tells; 255 is
/// that of null, and tells no value.
pub proof fn law_byte_tells_the_discriminator(
    s: Seq<u8>,
    ts: Seq<TypeView>,
    n: nat,
    path: Seq<u16>,
    states: States,
    i: int,
)
    requires
        0 <= i < n,
    ensures
        parsed_column(s, TypeView::Variant(ts), n, Set::empty(), path, states) matches Ok(
            ((vs, _), _),
        ) ==> vs.len() == n && (vs[i] matches ValueView::Variant(d, x) && d == s[i] && (d == 255
            ==> *x is Null)),
        parsed_v1_v2(s, n, ts) matches Ok((vs, _)) ==> vs.len() == n && (
        vs[i] matches ValueView::Variant(d, x) && d == s[i] && (d == 255 ==> *x is Null)),
{
    crate::columns::lemma_sorted_size(ts);
    if let Ok((ds, rest)) = parsed_bytes(s, n) {
        assert(ds[i] == s[i]);
        if let Ok((columns, _)) = parsed_groups(rest, ts, ds, 0) {
            if all_found(ds, columns) {
                lemma_row_value(ds, columns, i);
            }
        }
        if let Ok((columns, _)) = parsed_groups(rest, crate::type_order::sorted_types(ts), ds, 0) {
            if all_found(ds, columns) {
                lemma_row_value(ds, columns, i);
            }
        }
    }
}

/// In the older versions of columns of any values, one byte for each row tells its type, in
/// the order in which the types were told, and the columns of the types stand behind the
/// bytes in that order. What is read are the values under these discriminators.
pub proof fn law_older_versions_tell_types_by_bytes(
    ts: Seq<TypeView>,
    vs: Seq<ValueView>,
    rest: Seq<u8>,
)
    requires
        ts.len() <= 256,
        all_variants(vs),
        all_known(vs, ts.len()),
        groups_fit(ts, vs, 0),
    ensures
        group_columns(ts, vs, 0) is Ok,
        parsed_v1_v2(
            Seq::new(vs.len(), |i: int| vs[i]->Variant_0) + (group_columns(ts, vs, 0)->Ok_0
                + rest),
            vs.len(),
            ts,
        ) == Ok::<_, Error>((vs, rest)),
{
    let ds = Seq::new(vs.len(), |i: int| vs[i]->Variant_0);
    assert(ds =~= discriminators_of(vs));
    lemma_groups_read_back(ts, vs, 0, rest);
    let a = group_columns(ts, vs, 0)->Ok_0;
    let s = ds + (a + rest);
    assert(s.take(vs.len() as int) =~= ds);
    assert(s.skip(vs.len() as int) =~= a + rest);
    let columns = groups_from(vs, 0, ts.len());
    assert forall|i: int| 0 <= i < ds.len() implies row_value(
        #[trigger] ds[i],
        rank(ds, ds[i], i) as int,
        columns,
    ) == Some(vs[i]) by {
        assert(vs[i] is Variant);
        lemma_group_rank(vs, ds[i], i);
        if ds[i] != 255 {
            assert(columns[ds[i] as int] == group_entry(vs, (0 + ds[i]) as nat));
        }
    }
    assert(variant_rows(ds, columns) =~= vs);
}

/// Which version reads in which way.
pub proof fn law_versions_of_columns(
    s: Seq<u8>,
    n: nat,
    entries: Seq<(Seq<char>, TypeView)>,
)
    ensures
        parsed_dynamic(s, n, Some(0u64), entries) == parsed_v1_v2(s, n, field_types(entries)),
        parsed_dynamic(s, n, Some(2u64), entries) == parsed_v1_v2(s, n, field_types(entries)),
        parsed_dynamic(s, n, Some(3u64), entries) == parsed_flattened(s, n, field_types(entries)),
        parsed_dynamic(s, n, None, entries) == parsed_flattened(s, n, field_types(entries)),
{
}

/// The column of a type with one value, in the order of the types: behind the columns of the
/// types before it.
pub proof fn law_columns_of_a_pair_of_types(
    a: TypeView,
    b: TypeView,
    x: ValueView,
    y: ValueView,
)
    requires
        column_bytes(a, seq![x]) is Ok,
        column_bytes(b, seq![y]) is Ok,
    ensures
        group_columns(
            seq![a, b],
            seq![
                ValueView::Variant(1, Box::new(y)),
                ValueView::Variant(0, Box::new(x)),
                ValueView::Variant(255, Box::new(ValueView::Null)),
            ],
            0,
        ) == Ok::<_, Error>(column_bytes(a, seq![x])->Ok_0 + column_bytes(b, seq![y])->Ok_0),
{
    let vs = seq![
        ValueView::Variant(1, Box::new(y)),
        ValueView::Variant(0, Box::new(x)),
        ValueView::Variant(255, Box::new(ValueView::Null)),
    ];
    let two = vs.drop_last();
    let one = two.drop_last();
    let none = one.drop_last();
    assert(none =~= Seq::<ValueView>::empty());
    reveal_with_fuel(group_of, 4);
    assert(group_of(vs, 0) =~= seq![x]);
    assert(group_of(vs, 1) =~= seq![y]);
    let ts = seq![a, b];
    let tail = ts.subrange(1, 2);
    assert(tail =~= seq![b]);
    let end = tail.subrange(1, 1);
    assert(end =~= Seq::<TypeView>::empty());
    assert(group_columns(end, vs, 2) == Ok::<_, Error>(Seq::<u8>::empty()));
    assert(column_bytes(b, seq![y])->Ok_0 + Seq::<u8>::empty() =~= column_bytes(
        b,
        seq![y],
    )->Ok_0);
    assert(group_columns(tail, vs, 1) == Ok::<_, Error>(column_bytes(b, seq![y])->Ok_0));
}

// ---------------------------------------------------------------------------
// The version that is written
// ---------------------------------------------------------------------------

/// How many bytes a discriminator takes: as few of one, two, four and eight as can tell all
/// types and null.
pub proof fn law_width_of_discriminators(total: nat)
    ensures
        total < 0x100 ==> discriminator_size(total) == 1,
        0x100 <= total < 0x1_0000 ==> discriminator_size(total) == 2,
        0x1_0000 <= total < 0x1_0000_0000 ==> discriminator_size(total) == 4,
        0x1_0000_0000 <= total ==> discriminator_size(total) == 8,
{
}

/// With fewer than 256 types, a column of any values begins with one byte for each row. The
/// byte of null is the number of types, and that of a value is the place of the name of its
/// type.
pub proof fn law_discriminators_of_any_values(
    vs: Seq<ValueView>,
    entries: Seq<(Seq<char>, TypeView)>,
    b: Seq<u8>,
    i: int,
)
    requires
        dynamic_bytes(vs, entries) == Ok::<_, Error>(b),
        entries.len() < 0x100,
        0 <= i < vs.len(),
    ensures
        b.len() >= vs.len(),
        vs[i] is Null ==> b[i] == entries.len(),
        !(vs[i] is Null) ==> b[i] < entries.len() && entries[b[i] as int].0
            == crate::type_display::type_text(crate::guess::guessed(vs[i])),
{
    let names = names_of(entries);
    let ds = value_discriminators(vs, names);
    lemma_small_discriminators(ds, names.len());
    assert(crate::dynamic::value_discriminator(vs[i], names) is Some);
    if !(vs[i] is Null) {
        crate::dynamic::lemma_name_index(
            names,
            crate::type_display::type_text(crate::guess::guessed(vs[i])),
            0,
        );
    }
}

proof fn lemma_small_discriminators(ds: Seq<u64>, total: nat)
    requires
        total < 0x100,
    ensures
        discriminator_bytes(ds, total).len() == ds.len(),
        forall|i: int|
            0 <= i < ds.len() && ds[i] <= total ==> #[trigger] discriminator_bytes(ds, total)[i]
                == ds[i],
    decreases ds.len(),
{
    if ds.len() > 0 {
        let head = ds.drop_last();
        lemma_small_discriminators(head, total);
        let x = ds.last() as nat;
        reveal_with_fuel(le_bytes, 2);
        assert(le_bytes(x, 1) =~= seq![(x % 256) as u8]);
        let all = discriminator_bytes(ds, total);
        assert forall|i: int| 0 <= i < ds.len() && ds[i] <= total implies #[trigger] all[i]
            == ds[i] by {
            if i < head.len() {
                assert(head[i] == ds[i]);
                assert(all[i] == discriminator_bytes(head, total)[i]);
            }
        }
    }
}

/// A row of such a column is null where its byte is the number of types, and otherwise one
/// of the values of the column of the type that its byte tells: the next one that no row
/// before it has taken.
pub proof fn law_any_values_are_read(s: Seq<u8>, ts: Seq<TypeView>, n: nat, i: int)
    requires
        ts.len() < 0x100,
        0 <= i < n,
        parsed_flattened(s, n, ts) is Ok,
    ensures
        s.len() >= n,
        ({
            let (vs, end) = parsed_flattened(s, n, ts)->Ok_0;
            let ds = Seq::new(n, |j: int| s[j] as u64);
            let columns = parsed_type_columns(s.skip(n as int), ts, ds, 0);
            &&& vs.len() == n
            &&& columns is Ok
            &&& columns->Ok_0.1 == end
            &&& s[i] == ts.len() ==> vs[i] is Null
            &&& s[i] != ts.len() ==> {
                let c = columns->Ok_0.0;
                &&& s[i] < c.len()
                &&& rank(ds, s[i] as u64, i) < c[s[i] as int].len()
                &&& vs[i] == c[s[i] as int][rank(ds, s[i] as u64, i) as int]
            }
        }),
{
    lemma_bytes_as_discriminators(s, n, ts.len());
    let (ds, rest) = parsed_discriminators(s, n, ts.len())->Ok_0;
    let as_read = Seq::new(n, |j: int| s[j] as u64);
    assert(ds =~= as_read);
    let (columns, end) = parsed_type_columns(rest, ts, ds, 0)->Ok_0;
    assert(crate::dynamic_read::dynamic_row(
        ds[i],
        rank(ds, ds[i], i) as int,
        ts.len(),
        columns,
    ) is Some);
}

proof fn lemma_bytes_as_discriminators(s: Seq<u8>, n: nat, total: nat)
    requires
        total < 0x100,
        parsed_discriminators(s, n, total) is Ok,
    ensures
        s.len() >= n,
        ({
            let (ds, rest) = parsed_discriminators(s, n, total)->Ok_0;
            &&& ds.len() == n
            &&& rest == s.skip(n as int)
            &&& forall|i: int| 0 <= i < n ==> #[trigger] ds[i] == s[i]
        }),
    decreases n,
{
    if n > 0 {
        let next = s.skip(1);
        assert(s =~= seq![s[0]] + next);
        crate::code_laws::lemma_one_byte(s[0], next);
        lemma_bytes_as_discriminators(next, (n - 1) as nat, total);
        let (tail, rest) = parsed_discriminators(next, (n - 1) as nat, total)->Ok_0;
        let (ds, _) = parsed_discriminators(s, n, total)->Ok_0;
        assert(next.skip(n - 1) =~= s.skip(n as int));
        assert forall|i: int| 0 <= i < n implies #[trigger] ds[i] == s[i] by {
            if i > 0 {
                assert(ds[i] == tail[i - 1]);
                assert(next[i - 1] == s[i]);
            }
        }
    } else {
        assert(s.skip(0) =~= s);
    }
}

} // verus!
