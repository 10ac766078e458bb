//! How whole columns stand in bytes, and columns that hold columns of any values or documents.
use vstd::prelude::*;

use crate::column_format::elements_before;
use crate::column_read::{parsed_column, States};
use crate::columns::{column_bytes, offset_bytes, rows_of};
use crate::dynamic::{dynamic_bytes, dynamic_prefix, entries_of, registry};
use crate::error::Error;
use crate::held_columns::{held_bytes, held_prefix, holds, parsed_held, Held};
use crate::prefixes::{parsed_prefix, prefix_bytes};
use crate::types::TypeView;
use crate::values::ValueView;
use crate::wire::le_bytes;
use crate::whole_columns::{parsed_whole, whole_bytes, ServerVersion};

verus! {

/// A column stands behind what stands before it; one of any values behind its types. An older
/// server takes no column of any values.
pub proof fn law_whole_columns(
    t: TypeView,
    vs: Seq<ValueView>,
    version: Option<u64>,
    server: ServerVersion,
)
    ensures
        !(t is Dynamic) && !(t is JSON) && prefix_bytes(t) is Ok && column_bytes(t, vs) is Ok
            ==> whole_bytes(t, vs, version, server) == Ok::<_, Error>(
            prefix_bytes(t)->Ok_0 + column_bytes(t, vs)->Ok_0,
        ),
        t is Dynamic && (server matches Some((major, _, _)) && major < 25) ==> whole_bytes(
            t,
            vs,
            version,
            server,
        ) is Err,
        t is Dynamic && server is None ==> ({
            let entries = entries_of(registry(vs));
            dynamic_prefix(entries) is Ok && dynamic_bytes(vs, entries) is Ok ==> whole_bytes(
                t,
                vs,
                version,
                server,
            ) == Ok::<_, Error>(
                dynamic_prefix(entries)->Ok_0 + dynamic_bytes(vs, entries)->Ok_0,
            )
        }),
{
}

/// A column is read behind what stands before it.
pub proof fn law_whole_columns_are_read(s: Seq<u8>, t: TypeView, n: nat, next: Seq<u8>)
    requires
        !(t is Dynamic),
        !(t is JSON),
        parsed_prefix(s, t) == Ok::<_, Error>(((), next)),
    ensures
        ({
            let column = parsed_column(next, t, n, Set::empty(), Seq::empty(), Map::empty());
            &&& parsed_whole(s, t, n) is Ok <==> column is Ok
            &&& column matches Ok(((vs, _), end)) ==> parsed_whole(s, t, n) == Ok::<_, Error>(
                (vs, end),
            )
        }),
{
}

/// A type that holds neither values of any types nor documents is written and read as it is,
/// whatever is known.
pub proof fn law_types_that_hold_nothing(
    t: TypeView,
    vs: Seq<ValueView>,
    h: Held,
    s: Seq<u8>,
    n: nat,
    path: Seq<u16>,
    states: States,
)
    ensures
        t is Int64 || t is String || t is UInt8 || t is Float64 || t is Uuid || t is Date ==> !holds(
            t,
        ),
        holds(TypeView::Array(Box::new(t))) == holds(t),
        holds(TypeView::Nullable(Box::new(t))) == holds(t),
        t is Dynamic || t is JSON ==> holds(t),
        !holds(t) ==> held_bytes(t, vs, h) == column_bytes(t, vs),
        !holds(t) ==> parsed_held(s, t, n, Set::empty(), path, states, h) == parsed_column(
            s,
            t,
            n,
            Set::empty(),
            path,
            states,
        ),
{
    reveal(held_bytes);
    reveal(parsed_held);
}

/// In a column of values that may be null, one byte for each row is one for null and zero for a
/// value, and a byte that is not zero is read as null, whatever the values are.
pub proof fn law_nulls_before_held_columns(
    inner: TypeView,
    vs: Seq<ValueView>,
    h: Held,
    b: Seq<u8>,
    s: Seq<u8>,
    n: nat,
    path: Seq<u16>,
    states: States,
)
    requires
        held_bytes(TypeView::Nullable(Box::new(inner)), vs, h) == Ok::<_, Error>(b),
        parsed_held(
            s,
            TypeView::Nullable(Box::new(inner)),
            n,
            Set::empty(),
            path,
            states,
            h,
        ) is Ok,
    ensures
        b.len() >= vs.len(),
        forall|i: int|
            0 <= i < vs.len() ==> {
                &&& vs[i] is Null ==> #[trigger] b[i] == 1
                &&& !(vs[i] is Null) ==> b[i] == 0
            },
        held_bytes(inner, vs, h) == Ok::<_, Error>(b.skip(vs.len() as int)),
        s.len() >= n,
        ({
            let t = TypeView::Nullable(Box::new(inner));
            let ((rows, _), _) = parsed_held(s, t, n, Set::empty(), path, states, h)->Ok_0;
            let values = parsed_held(
                s.skip(n as int),
                inner,
                n,
                Set::empty(),
                path.push(0),
                states,
                h,
            );
            &&& values is Ok
            &&& ({
                let ((xs, _), _) = values->Ok_0;
                &&& rows.len() == xs.len()
                &&& forall|i: int|
                    0 <= i < rows.len() && i < n ==> {
                        &&& s[i] != 0 ==> #[trigger] rows[i] is Null
                        &&& s[i] == 0 ==> rows[i] == xs[i]
                    }
            })
        }),
{
    reveal(held_bytes);
    reveal(parsed_held);
    let t = TypeView::Nullable(Box::new(inner));
    assert(holds(t) == holds(inner));
    let tail = held_bytes(inner, vs, h)->Ok_0;
    assert(b == crate::columns::mask_bytes(vs) + tail);
    assert(b.skip(vs.len() as int) =~= tail);
}

/// In a column of arrays eight bytes for each row tell how many elements there are up to its
/// end, whatever the elements are.
pub proof fn law_ends_before_held_columns(
    inner: TypeView,
    vs: Seq<ValueView>,
    h: Held,
    b: Seq<u8>,
)
    requires
        held_bytes(TypeView::Array(Box::new(inner)), vs, h) == Ok::<_, Error>(b),
    ensures
        b.len() >= 8 * vs.len(),
        forall|i: int|
            0 <= i < vs.len() ==> b.subrange(8 * i, 8 * i + 8) == #[trigger] le_bytes(
                elements_before(vs, i + 1),
                8,
            ),
{
    reveal(held_bytes);
    let t = TypeView::Array(Box::new(inner));
    assert(rows_of(t, vs) is Ok);
    crate::column_format::lemma_arrays(t, vs);
    let a = offset_bytes(rows_of(t, vs)->Ok_0);
    assert forall|i: int| 0 <= i < vs.len() implies b.subrange(8 * i, 8 * i + 8)
        == #[trigger] le_bytes(elements_before(vs, i + 1), 8) by {
        assert(b.subrange(8 * i, 8 * i + 8) =~= a.subrange(8 * i, 8 * i + 8));
    }
}

/// Before a column that holds others stands what stands before them, in order; before a variant
/// eight bytes that are zero.
pub proof fn law_bytes_before_held_columns(
    t: TypeView,
    k: TypeView,
    h: Held,
    server: ServerVersion,
)
    ensures
        held_prefix(TypeView::Array(Box::new(t)), h, server) == held_prefix(t, h, server),
        held_prefix(TypeView::Nullable(Box::new(t)), h, server) == held_prefix(t, h, server),
        held_prefix(k, h, server) is Ok && held_prefix(t, h, server) is Ok ==> held_prefix(
            TypeView::MapOf(Box::new(k), Box::new(t)),
            h,
            server,
        ) == Ok::<_, Error>(held_prefix(k, h, server)->Ok_0 + held_prefix(t, h, server)->Ok_0),
        t is Int64 || t is String || t is LowCardinality || t is Uuid ==> held_prefix(
            t,
            h,
            server,
        ) == prefix_bytes(t),
        held_prefix(TypeView::Variant(Seq::empty()), h, server) == Ok::<_, Error>(
            seq![0u8, 0, 0, 0, 0, 0, 0, 0],
        ),
{
    crate::wire_format::law_bytes_of_small_numbers(0);
    let none = Seq::<TypeView>::empty();
    assert(crate::held_columns::held_prefixes(none, h, server) == Ok::<_, Error>(
        Seq::<u8>::empty(),
    ));
    assert(le_bytes(0, 8) + Seq::<u8>::empty() =~= le_bytes(0, 8));
}

} // verus!
