//! How options and strings of one length are read, and how rows stand by position.
use vstd::prelude::*;

use crate::cells::{name16, name8, parsed_cell, until_zero};
use crate::code_laws::{lemma_one_byte, lemma_two_bytes};
use crate::error::{Error, ReadReason};
use crate::ser::positional_columns;
use crate::types::TypeView;
use crate::values::ValueView;

verus! {

// ---------------------------------------------------------------------------
// Options
// ---------------------------------------------------------------------------

proof fn lemma_name8(options: Seq<(Seq<char>, i8)>, x: i8, i: int)
    requires
        0 <= i <= options.len(),
        forall|j: int| 0 <= j < i ==> (#[trigger] options[j]).1 != x,
        i < options.len() ==> options[i].1 == x,
    ensures
        name8(options, x) == (if i < options.len() {
            Some(options[i].0)
        } else {
            None
        }),
    decreases i,
{
    if i > 0 {
        assert(options[0].1 != x);
        let tail = options.skip(1);
        assert forall|j: int| 0 <= j < i - 1 implies (#[trigger] tail[j]).1 != x by {
            assert(tail[j] == options[j + 1]);
        }
        lemma_name8(tail, x, i - 1);
    }
}

proof fn lemma_name16(options: Seq<(Seq<char>, i16)>, x: i16, i: int)
    requires
        0 <= i <= options.len(),
        forall|j: int| 0 <= j < i ==> (#[trigger] options[j]).1 != x,
        i < options.len() ==> options[i].1 == x,
    ensures
        name16(options, x) == (if i < options.len() {
            Some(options[i].0)
        } else {
            None
        }),
    decreases i,
{
    if i > 0 {
        assert(options[0].1 != x);
        let tail = options.skip(1);
        assert forall|j: int| 0 <= j < i - 1 implies (#[trigger] tail[j]).1 != x by {
            assert(tail[j] == options[j + 1]);
        }
        lemma_name16(tail, x, i - 1);
    }
}

/// A byte in a column of options is read as the name of the first option that has its number. One
/// that is the number of no option is refused.
pub proof fn law_options_are_read(
    b: u8,
    options: Seq<(Seq<char>, i8)>,
    i: int,
    rest: Seq<u8>,
)
    requires
        0 <= i <= options.len(),
        ({
            let x: int = if b < 128 {
                b as int
            } else {
                b - 256
            };
            &&& forall|j: int| 0 <= j < i ==> (#[trigger] options[j]).1 != x
            &&& i < options.len() ==> options[i].1 == x
        }),
    ensures
        i < options.len() ==> parsed_cell(seq![b] + rest, TypeView::Enum8(options)) == Ok::<
            _,
            Error,
        >((ValueView::Enum8(options[i].0, options[i].1), rest)),
        i == options.len() ==> parsed_cell(seq![b] + rest, TypeView::Enum8(options)) == Err::<
            (ValueView, Seq<u8>),
            Error,
        >(Error::DeserializeError(ReadReason::InvalidEnumIndex)),
{
    lemma_one_byte(b, rest);
    crate::wire::lemma_pow256();
    let x: int = if b < 128 {
        b as int
    } else {
        b - 256
    };
    lemma_name8(options, x as i8, i);
}

/// The same of options whose numbers have two bytes, the lower first.
pub proof fn law_wide_options_are_read(
    a: u8,
    b: u8,
    options: Seq<(Seq<char>, i16)>,
    i: int,
    rest: Seq<u8>,
)
    requires
        0 <= i <= options.len(),
        ({
            let x: int = if b < 128 {
                a + 256 * b
            } else {
                a + 256 * b - 65536
            };
            &&& forall|j: int| 0 <= j < i ==> (#[trigger] options[j]).1 != x
            &&& i < options.len() ==> options[i].1 == x
        }),
    ensures
        i < options.len() ==> parsed_cell(seq![a, b] + rest, TypeView::Enum16(options)) == Ok::<
            _,
            Error,
        >((ValueView::Enum16(options[i].0, options[i].1), rest)),
        i == options.len() ==> parsed_cell(seq![a, b] + rest, TypeView::Enum16(options)) == Err::<
            (ValueView, Seq<u8>),
            Error,
        >(Error::DeserializeError(ReadReason::InvalidEnumIndex)),
{
    lemma_two_bytes(a, b, rest);
    crate::wire::lemma_pow256();
    let x: int = if b < 128 {
        a + 256 * b
    } else {
        a + 256 * b - 65536
    };
    lemma_name16(options, x as i16, i);
}

// ---------------------------------------------------------------------------
// Strings of one length
// ---------------------------------------------------------------------------

proof fn lemma_until_zero(a: Seq<u8>, z: Seq<u8>)
    requires
        forall|i: int| 0 <= i < a.len() ==> #[trigger] a[i] != 0,
        z.len() > 0 ==> z[0] == 0,
    ensures
        until_zero(a + z) == a,
    decreases a.len(),
{
    if a.len() > 0 {
        let tail = a.skip(1);
        assert forall|i: int| 0 <= i < tail.len() implies #[trigger] tail[i] != 0 by {
            assert(tail[i] == a[i + 1]);
        }
        lemma_until_zero(tail, z);
        assert((a + z).skip(1) =~= tail + z);
        assert((a + z)[0] == a[0]);
        assert(seq![a[0]] + tail =~= a);
    } else {
        assert(a =~= Seq::<u8>::empty());
        assert(a + z =~= z);
    }
}

/// A string of a fixed length is read from that many bytes, and ends before the first zero among
/// them.
pub proof fn law_strings_of_one_length_are_read(a: Seq<u8>, z: Seq<u8>, rest: Seq<u8>)
    requires
        forall|i: int| 0 <= i < a.len() ==> #[trigger] a[i] != 0,
        z.len() > 0 ==> z[0] == 0,
        a.len() + z.len() <= usize::MAX,
    ensures
        parsed_cell(
            a + z + rest,
            TypeView::FixedSizedString((a.len() + z.len()) as usize),
        ) == Ok::<_, Error>((ValueView::String(a), rest)),
        parsed_cell(
            a + z + rest,
            TypeView::FixedSizedBinary((a.len() + z.len()) as usize),
        ) == Ok::<_, Error>((ValueView::String(a), rest)),
{
    let s = a + z + rest;
    let n: int = (a.len() + z.len()) as int;
    assert(s.take(n) =~= a + z);
    assert(s.skip(n) =~= rest);
    assert(s.subrange(0, n) =~= a + z);
    lemma_until_zero(a, z);
}

// ---------------------------------------------------------------------------
// Rows by position
// ---------------------------------------------------------------------------

/// By position a column keeps its name, and a tuple's fields lose theirs but keep their types and
/// their order. Columns that are no tuples with names keep their types.
pub proof fn law_columns_by_position(cols: Seq<(Seq<char>, TypeView)>, i: int, k: int)
    requires
        0 <= i < cols.len(),
    ensures
        positional_columns(cols).len() == cols.len(),
        positional_columns(cols)[i].0 == cols[i].0,
        !(cols[i].1 is TupleNamed) ==> positional_columns(cols)[i].1 == cols[i].1,
        cols[i].1 matches TypeView::TupleNamed(fs) ==> match positional_columns(cols)[i].1 {
            TypeView::Tuple(ts) => ts.len() == fs.len() && (0 <= k < fs.len() ==> ts[k]
                == fs[k].1),
            _ => false,
        },
{
}

} // verus!
