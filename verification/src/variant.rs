//! Variants: values of several types in one column, told apart by discriminators.
use vstd::prelude::*;

use crate::error::{Error, ReadReason, Result, WriteReason};
use crate::text::{eq_chars, to_chars};
use crate::type_display::type_text;
use crate::type_order::{law_sorted_types, names_ascend, sort_types, sorted_types};
use crate::types::{type_views, Type, TypeView};
use crate::values::{value_views, Value, ValueView};

verus! {

/// The discriminator of a row without a value.
pub const NULL_DISCRIMINATOR: u8 = 0xFF;

/// Whether no two types have the same name.
pub open spec fn distinct_names(ts: Seq<TypeView>) -> bool {
    forall|i: int, j: int|
        0 <= i < j < ts.len() ==> #[trigger] type_text(ts[i]) != #[trigger] type_text(ts[j])
}

/// Whether types can stand in a variant: a byte tells them apart, and their names differ.
pub open spec fn variant_ok(ts: Seq<TypeView>) -> bool {
    ts.len() <= 256 && distinct_names(ts)
}

/// Whether types can stand in a variant.
pub fn is_variant_ok(ts: &Vec<Type>) -> (r: bool)
    ensures
        r == variant_ok(type_views(ts@)),
{
    if ts.len() > 256 {
        assert(type_views(ts@).len() > 256);
        return false;
    }
    let mut i: usize = 0;
    while i < ts.len()
        invariant
            i <= ts.len(),
            ts@.len() <= 256,
            forall|a: int, b: int|
                0 <= a < b < ts@.len() && a < i ==> #[trigger] type_text(type_views(ts@)[a])
                    != #[trigger] type_text(type_views(ts@)[b]),
        decreases ts.len() - i,
    {
        let name = to_chars(ts[i].to_string().as_str());
        assert(name@ == type_text(type_views(ts@)[i as int]));
        let mut j: usize = i + 1;
        while j < ts.len()
            invariant
                i < j <= ts.len(),
                name@ == type_text(type_views(ts@)[i as int]),
                forall|b: int|
                    i < b < j ==> type_text(type_views(ts@)[i as int]) != #[trigger] type_text(
                        type_views(ts@)[b],
                    ),
            decreases ts.len() - j,
        {
            let other = to_chars(ts[j].to_string().as_str());
            assert(other@ == type_text(type_views(ts@)[j as int]));
            if eq_chars(&name, &other) {
                return false;
            }
            j += 1;
        }
        i += 1;
    }
    true
}

/// The types of a variant by their discriminators: the order of their names.
#[derive(Debug)]
pub struct DiscriminatorMap {
    types: Vec<Type>,
    sorted_discriminators: Vec<u8>,
}

impl DiscriminatorMap {
    /// The types, in the order of their discriminators.
    pub closed spec fn view(&self) -> Seq<TypeView> {
        type_views(self.types@)
    }

    /// The discriminators count up from zero, one for each type.
    pub closed spec fn wf(&self) -> bool {
        &&& self.types@.len() <= 256
        &&& self.sorted_discriminators@.len() == self.types@.len()
        &&& forall|i: int|
            0 <= i < self.types@.len() ==> (#[trigger] self.sorted_discriminators@[i]) == i
    }

    /// Gives each type its discriminator.
    pub fn new(variant_types: &Vec<Type>) -> (r: Self)
        requires
            variant_ok(type_views(variant_types@)),
        ensures
            r.wf(),
            r@ == sorted_types(type_views(variant_types@)),
    {
        assert(type_views(variant_types@).len() == variant_types@.len());
        let types = sort_types(variant_types);
        let mut sorted_discriminators: Vec<u8> = Vec::new();
        let mut i: usize = 0;
        while i < types.len()
            invariant
                i <= types.len() <= 256,
                sorted_discriminators@.len() == i,
                forall|j: int| 0 <= j < i ==> (#[trigger] sorted_discriminators@[j]) == j,
            decreases types.len() - i,
        {
            sorted_discriminators.push(i as u8);
            i += 1;
        }
        DiscriminatorMap { types, sorted_discriminators }
    }

    /// The type of a discriminator.
    pub fn get_type(&self, discriminator: u8) -> (r: Option<&Type>)
        requires
            self.wf(),
        ensures
            match r {
                Some(t) => discriminator < self@.len() && t@ == self@[discriminator as int],
                None => discriminator >= self@.len(),
            },
    {
        assert(self@.len() == self.types@.len());
        if (discriminator as usize) < self.types.len() {
            Some(&self.types[discriminator as usize])
        } else {
            None
        }
    }

    /// All discriminators, in order.
    pub fn discriminators(&self) -> (r: &[u8])
        requires
            self.wf(),
        ensures
            r@.len() == self@.len(),
            forall|i: int| 0 <= i < r@.len() ==> (#[trigger] r@[i]) == i,
    {
        self.sorted_discriminators.as_slice()
    }

    /// The types, in the order of their discriminators.
    pub fn types(&self) -> (r: &Vec<Type>)
        requires
            self.wf(),
        ensures
            type_views(r@) == self@,
            r@.len() <= 256,
    {
        &self.types
    }

    /// How many types there are.
    pub fn len(&self) -> (r: usize)
        requires
            self.wf(),
        ensures
            r == self@.len(),
            r <= 256,
    {
        self.types.len()
    }
}

/// The discriminators of a variant follow the order of the names of its types, and each
/// type has one.
pub proof fn law_discriminators_follow_names(ts: Seq<TypeView>)
    ensures
        names_ascend(sorted_types(ts)),
        sorted_types(ts).to_multiset() == ts.to_multiset(),
{
    law_sorted_types(ts);
}

// ---------------------------------------------------------------------------
// Taking rows apart
// ---------------------------------------------------------------------------

/// The discriminators of variant values.
pub open spec fn discriminators_of(vs: Seq<ValueView>) -> Seq<u8> {
    Seq::new(vs.len(), |i: int| vs[i]->Variant_0)
}

/// Whether all values are variants.
pub open spec fn all_variants(vs: Seq<ValueView>) -> bool {
    forall|i: int| 0 <= i < vs.len() ==> (#[trigger] vs[i]) is Variant
}

/// The values of the rows with a discriminator, in order.
pub open spec fn group_of(vs: Seq<ValueView>, d: u8) -> Seq<ValueView>
    decreases vs.len(),
{
    if vs.len() == 0 {
        Seq::empty()
    } else {
        let head = group_of(vs.drop_last(), d);
        if vs.last()->Variant_0 == d {
            head.push(*(vs.last()->Variant_1))
        } else {
            head
        }
    }
}

/// The rows with a discriminator that stand before row `i`.
pub open spec fn rank<T>(ds: Seq<T>, d: T, i: int) -> nat
    decreases i,
{
    if i <= 0 || i > ds.len() {
        0
    } else {
        rank(ds, d, i - 1) + if ds[i - 1] == d {
            1nat
        } else {
            0nat
        }
    }
}

/// Writes variants.
pub struct VariantSerializer;

impl VariantSerializer {
    /// The discriminators of rows, and the values of each discriminator in order.
    pub fn extract_discriminators_and_values(values: &Vec<Value>) -> (r: Result<
        (Vec<u8>, Vec<Vec<Value>>),
    >)
        ensures
            match r {
                Ok((discriminators, groups)) => {
                    &&& all_variants(value_views(values@))
                    &&& discriminators@ == discriminators_of(value_views(values@))
                    &&& groups@.len() == 256
                    &&& forall|d: int|
                        0 <= d < 256 ==> value_views((#[trigger] groups@[d])@) == group_of(
                            value_views(values@),
                            d as u8,
                        )
                },
                Err(e) => !all_variants(value_views(values@)) && e == Error::SerializeError(
                    WriteReason::ExpectedVariant,
                ),
            },
    {
        let ghost all = value_views(values@);
        let mut discriminators: Vec<u8> = Vec::new();
        let mut groups: Vec<Vec<Value>> = Vec::new();
        let mut k: usize = 0;
        while k < 256
            invariant
                k <= 256,
                groups@.len() == k,
                forall|d: int| 0 <= d < k ==> (#[trigger] groups@[d])@.len() == 0,
            decreases 256 - k,
        {
            groups.push(Vec::new());
            k += 1;
        }
        let mut i: usize = 0;
        proof {
            assert forall|d: int| 0 <= d < 256 implies value_views((#[trigger] groups@[d])@)
                == group_of(all.take(0), d as u8) by {
                assert(value_views(groups@[d]@) =~= Seq::empty());
            }
        }
        while i < values.len()
            invariant
                i <= values.len(),
                all == value_views(values@),
                forall|j: int| 0 <= j < i ==> (#[trigger] all[j]) is Variant,
                discriminators@.len() == i,
                forall|j: int| 0 <= j < i ==> (#[trigger] discriminators@[j]) == all[j]->Variant_0,
                groups@.len() == 256,
                forall|d: int|
                    0 <= d < 256 ==> value_views((#[trigger] groups@[d])@) == group_of(
                        all.take(i as int),
                        d as u8,
                    ),
            decreases values.len() - i,
        {
            assert(all[i as int] == values@[i as int]@);
            match &values[i] {
                Value::Variant(disc, inner) => {
                    discriminators.push(*disc);
                    let x = (**inner).clone();
                    let ghost xv = x@;
                    let ghost before = groups@;
                    let slot: usize = *disc as usize;
                    let mut group: Vec<Value> = Vec::new();
                    core::mem::swap(&mut group, &mut groups[slot]);
                    group.push(x);
                    core::mem::swap(&mut group, &mut groups[slot]);
                    proof {
                        assert(all.take(i + 1).drop_last() =~= all.take(i as int));
                        assert(all.take(i + 1).last() == values@[i as int]@);
                        assert forall|d: int| 0 <= d < 256 implies value_views(
                            (#[trigger] groups@[d])@,
                        ) == group_of(all.take(i + 1), d as u8) by {
                            assert(value_views(before[d]@) == group_of(all.take(i as int), d as u8));
                            if d == slot {
                                assert(value_views(groups@[d]@) =~= value_views(before[d]@).push(
                                    xv,
                                ));
                            }
                        }
                    }
                },
                _ => {
                    assert(!(all[i as int] is Variant));
                    return Err(Error::SerializeError(WriteReason::ExpectedVariant));
                },
            }
            i += 1;
        }
        assert(all.take(all.len() as int) =~= all);
        assert(discriminators@ =~= discriminators_of(all));
        Ok((discriminators, groups))
    }
}

// ---------------------------------------------------------------------------
// Putting rows together
// ---------------------------------------------------------------------------

/// Reads variants.
pub struct VariantDeserializer;

impl VariantDeserializer {
    /// For each row, how many rows with its discriminator stand before it, and for each
    /// discriminator, how many rows have it. Rows without a value count for nothing.
    pub fn build_offsets_and_counts(discriminators: &[u8]) -> (r: (Vec<usize>, Vec<usize>))
        ensures
            r.0@.len() == discriminators@.len(),
            r.1@.len() == 256,
            forall|i: int|
                0 <= i < discriminators@.len() ==> (#[trigger] r.0@[i]) == (if discriminators@[i]
                    == NULL_DISCRIMINATOR {
                    0
                } else {
                    rank(discriminators@, discriminators@[i], i)
                }),
            forall|d: int|
                0 <= d < 256 ==> (#[trigger] r.1@[d]) == (if d == NULL_DISCRIMINATOR {
                    0
                } else {
                    rank(discriminators@, d as u8, discriminators@.len() as int)
                }),
    {
        let mut counts: Vec<usize> = Vec::new();
        let mut k: usize = 0;
        while k < 256
            invariant
                k <= 256,
                counts@.len() == k,
                forall|d: int| 0 <= d < k ==> (#[trigger] counts@[d]) == 0,
            decreases 256 - k,
        {
            counts.push(0);
            k += 1;
        }
        let mut offsets: Vec<usize> = Vec::new();
        let mut i: usize = 0;
        while i < discriminators.len()
            invariant
                i <= discriminators.len(),
                offsets@.len() == i,
                counts@.len() == 256,
                forall|d: int| 0 <= d < 256 ==> (#[trigger] counts@[d]) <= i,
                forall|j: int|
                    0 <= j < i ==> (#[trigger] offsets@[j]) == (if discriminators@[j]
                        == NULL_DISCRIMINATOR {
                        0
                    } else {
                        rank(discriminators@, discriminators@[j], j)
                    }),
                forall|d: int|
                    0 <= d < 256 ==> (#[trigger] counts@[d]) == (if d == NULL_DISCRIMINATOR {
                        0
                    } else {
                        rank(discriminators@, d as u8, i as int)
                    }),
            decreases discriminators.len() - i,
        {
            let disc: u8 = discriminators[i];
            if disc != NULL_DISCRIMINATOR {
                let slot: usize = disc as usize;
                let count: usize = counts[slot];
                offsets.push(count);
                counts.set(slot, count + 1);
            } else {
                offsets.push(0);
            }
            i += 1;
        }
        (offsets, counts)
    }

    /// The rows that discriminators make of the columns of the types, as many as there are
    /// both discriminators and offsets.
    pub fn reconstruct_values(discriminators: &[u8], offsets: &Vec<usize>, columns: &Vec<Vec<Value>>)
        -> (r: Result<Vec<Value>>)
        ensures
            match r {
                Ok(v) => {
                    &&& v@.len() == shorter(discriminators@.len(), offsets@.len())
                    &&& forall|i: int|
                        0 <= i < v@.len() ==> row_value(
                            discriminators@[i],
                            offsets@[i] as int,
                            column_views(columns@),
                        ) == Some((#[trigger] v@[i])@)
                },
                Err(e) => e == Error::DeserializeError(ReadReason::InvalidOffset) && exists|i: int|
                    0 <= i < shorter(discriminators@.len(), offsets@.len()) && row_value(
                        #[trigger] discriminators@[i],
                        offsets@[i] as int,
                        column_views(columns@),
                    ) is None,
            },
    {
        let mut out: Vec<Value> = Vec::new();
        let mut i: usize = 0;
        while i < discriminators.len() && i < offsets.len()
            invariant
                i <= discriminators.len(),
                i <= offsets.len(),
                out@.len() == i,
                forall|j: int|
                    0 <= j < i ==> row_value(
                        discriminators@[j],
                        offsets@[j] as int,
                        column_views(columns@),
                    ) == Some((#[trigger] out@[j])@),
            decreases discriminators.len() - i,
        {
            let disc: u8 = discriminators[i];
            let slot: usize = disc as usize;
            let offset: usize = offsets[i];
            if disc == NULL_DISCRIMINATOR {
                let inner = Value::Null;
                assert(inner@ is Null);
                out.push(Value::Variant(disc, Box::new(inner)));
            } else if slot < columns.len() && offset < columns[slot].len() {
                let x = columns[slot][offset].clone();
                assert(column_views(columns@)[slot as int][offset as int] == x@);
                out.push(Value::Variant(disc, Box::new(x)));
            } else {
                assert(row_value(
                    discriminators@[i as int],
                    offset as int,
                    column_views(columns@),
                ) is None) by {
                    if slot < columns@.len() {
                        assert(column_views(columns@)[slot as int].len()
                            == columns@[slot as int]@.len());
                    }
                }
                return Err(Error::DeserializeError(ReadReason::InvalidOffset));
            }
            i += 1;
        }
        Ok(out)
    }
}

/// The less of two lengths.
pub open spec fn shorter(a: nat, b: nat) -> nat {
    if a <= b {
        a
    } else {
        b
    }
}

/// The views of columns.
pub open spec fn column_views(columns: Seq<Vec<Value>>) -> Seq<Seq<ValueView>> {
    Seq::new(columns.len(), |i: int| value_views(columns[i]@))
}

/// A row that is found at an offset in the column of its discriminator.
pub open spec fn row_value(d: u8, offset: int, columns: Seq<Seq<ValueView>>) -> Option<ValueView> {
    if d == NULL_DISCRIMINATOR {
        Some(ValueView::Variant(d, Box::new(ValueView::Null)))
    } else if d < columns.len() && 0 <= offset < columns[d as int].len() {
        Some(ValueView::Variant(d, Box::new(columns[d as int][offset])))
    } else {
        None
    }
}

/// A value is found in the group of its discriminator, behind those of earlier rows.
pub proof fn lemma_group_rank(vs: Seq<ValueView>, d: u8, i: int)
    requires
        0 <= i < vs.len(),
        vs[i]->Variant_0 == d,
    ensures
        rank(discriminators_of(vs), d, i) < group_of(vs, d).len(),
        group_of(vs, d)[rank(discriminators_of(vs), d, i) as int] == *(vs[i]->Variant_1),
    decreases vs.len(),
{
    let head = vs.drop_last();
    lemma_rank_prefix(vs, d, vs.len() - 1);
    lemma_group_len(head, d);
    assert(discriminators_of(head) =~= discriminators_of(vs).take(vs.len() - 1));
    if i < vs.len() - 1 {
        lemma_group_rank(head, d, i);
        lemma_rank_take(discriminators_of(vs), d, vs.len() - 1, i);
    } else {
        lemma_rank_take(discriminators_of(vs), d, vs.len() - 1, i);
    }
}

proof fn lemma_rank_prefix(vs: Seq<ValueView>, d: u8, n: int)
    requires
        0 <= n <= vs.len(),
    ensures
        discriminators_of(vs.take(n)) == discriminators_of(vs).take(n),
{
    assert(discriminators_of(vs.take(n)) =~= discriminators_of(vs).take(n));
}

proof fn lemma_rank_take(ds: Seq<u8>, d: u8, n: int, i: int)
    requires
        0 <= i <= n <= ds.len(),
    ensures
        rank(ds.take(n), d, i) == rank(ds, d, i),
    decreases i,
{
    if i > 0 {
        lemma_rank_take(ds, d, n, i - 1);
    }
}

/// A group holds as many values as there are rows with its discriminator.
pub proof fn lemma_group_len(vs: Seq<ValueView>, d: u8)
    ensures
        group_of(vs, d).len() == rank(discriminators_of(vs), d, vs.len() as int),
    decreases vs.len(),
{
    if vs.len() > 0 {
        let head = vs.drop_last();
        lemma_group_len(head, d);
        assert(discriminators_of(head) =~= discriminators_of(vs).take(vs.len() - 1));
        lemma_rank_take(discriminators_of(vs), d, vs.len() - 1, vs.len() - 1);
    }
}

/// Rows that are taken apart by their discriminators are put together again as they
/// were. A row without a value holds null.
pub proof fn law_groups_make_rows(vs: Seq<ValueView>, i: int)
    requires
        0 <= i < vs.len(),
        vs[i] is Variant,
        vs[i]->Variant_0 == NULL_DISCRIMINATOR ==> *(vs[i]->Variant_1) == ValueView::Null,
    ensures
        row_value(
            discriminators_of(vs)[i],
            rank(discriminators_of(vs), discriminators_of(vs)[i], i) as int,
            Seq::new(256, |d: int| group_of(vs, d as u8)),
        ) == Some(vs[i]),
{
    lemma_group_rank(vs, vs[i]->Variant_0, i);
}

} // verus!
