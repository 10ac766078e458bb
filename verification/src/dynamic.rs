//! Writing values of any type: a registry of the types that occur, discriminators into
//! it, and a column for each type.
use vstd::prelude::*;
use vstd::utf8::encode_utf8;

use crate::columns::{
    column_bytes, field_types, followed, lemma_wrote, types_of_fields, wrote, Written,
};
use crate::discriminators::{discriminator_size, law_discriminator_fits, write_discriminator_sync};
use crate::error::{ComplexType, Error, Result, WriteReason};
use crate::guess::guessed;
use crate::prefixes::{prefixes_bytes, serialize_prefixes};
use crate::state::{SerializerState, TypeSpecificState};
use crate::text::{
    chars_le, eq_chars, lemma_text_le_antisym, lemma_text_le_total, lemma_text_le_trans, text_le,
    texts, to_chars,
};
use crate::type_display::type_text;
use crate::type_parse::parsed_type;
use crate::types::{field_views, Type, TypeView};
use crate::values::{value_views, Value, ValueView};
use crate::wire::{le_bytes, put_string, put_u64_le, put_var_uint, string_bytes, varuint_bytes};

verus! {

/// The version of the format that is written.
pub const DYNAMIC_VERSION_FLATTENED: u64 = 3;

// ---------------------------------------------------------------------------
// The registry of types
// ---------------------------------------------------------------------------

/// The first place from `i` on whose name does not stand before the given one.
pub open spec fn name_pos(names: Seq<Seq<char>>, name: Seq<char>, i: int) -> int
    decreases names.len() - i,
{
    if 0 <= i < names.len() && !text_le(name, names[i]) {
        name_pos(names, name, i + 1)
    } else {
        i
    }
}

/// Ordered names, and one more in its place if it is new.
pub open spec fn with_name(names: Seq<Seq<char>>, name: Seq<char>) -> Seq<Seq<char>> {
    let p = name_pos(names, name, 0);
    if p < names.len() && names[p] == name {
        names
    } else {
        names.insert(p, name)
    }
}

/// The names of the types of values that are not null, in order.
pub open spec fn registry(vs: Seq<ValueView>) -> Seq<Seq<char>>
    decreases vs.len(),
{
    if vs.len() == 0 {
        Seq::empty()
    } else if vs.last() is Null {
        registry(vs.drop_last())
    } else {
        with_name(registry(vs.drop_last()), type_text(guessed(vs.last())))
    }
}

/// Whether each name stands before the next, and none occurs twice.
pub open spec fn strictly_ascending(names: Seq<Seq<char>>) -> bool {
    forall|i: int, j: int|
        0 <= i < j < names.len() ==> text_le(names[i], names[j]) && names[i] != names[j]
}

/// The type that a registered name stands for.
pub open spec fn registered_type(name: Seq<char>) -> TypeView {
    match parsed_type(name) {
        Ok(t) => t,
        Err(_) => TypeView::String,
    }
}

/// The names with their types.
pub open spec fn entries_of(names: Seq<Seq<char>>) -> Seq<(Seq<char>, TypeView)> {
    Seq::new(names.len(), |i: int| (names[i], registered_type(names[i])))
}

/// The names of entries.
pub open spec fn names_of(entries: Seq<(Seq<char>, TypeView)>) -> Seq<Seq<char>> {
    Seq::new(entries.len(), |i: int| entries[i].0)
}

/// A name goes in before those that do not stand before it.
pub proof fn lemma_name_pos(names: Seq<Seq<char>>, name: Seq<char>, i: int)
    requires
        0 <= i <= names.len(),
    ensures
        i <= name_pos(names, name, i) <= names.len(),
        forall|j: int| i <= j < name_pos(names, name, i) ==> !text_le(name, #[trigger] names[j]),
        name_pos(names, name, i) < names.len() ==> text_le(
            name,
            names[name_pos(names, name, i)],
        ),
    decreases names.len() - i,
{
    if i < names.len() && !text_le(name, names[i]) {
        lemma_name_pos(names, name, i + 1);
    }
}

/// Adding a name keeps names in order, and adds no other.
pub proof fn lemma_with_name(names: Seq<Seq<char>>, name: Seq<char>)
    requires
        strictly_ascending(names),
    ensures
        strictly_ascending(with_name(names, name)),
        forall|x: Seq<char>| #[trigger]
            with_name(names, name).contains(x) <==> names.contains(x) || x == name,
{
    let p = name_pos(names, name, 0);
    lemma_name_pos(names, name, 0);
    let all = with_name(names, name);
    if p < names.len() && names[p] == name {
        assert(names.contains(name));
    } else {
        assert forall|i: int, j: int| 0 <= i < j < all.len() implies text_le(all[i], all[j])
            && all[i] != all[j] by {
            if j < p {
                assert(all[i] == names[i] && all[j] == names[j]);
                assert(text_le(all[i], all[j]));
                assert(all[i] != all[j]);
            } else if j == p {
                assert(all[i] == names[i] && all[j] == name);
                assert(!text_le(name, names[i]));
                lemma_text_le_total(name, names[i]);
                crate::text::lemma_text_le_refl(name);
                assert(text_le(all[i], all[j]));
                assert(all[i] != all[j]);
            } else if i < p {
                assert(all[i] == names[i] && all[j] == names[j - 1]);
                assert(text_le(all[i], all[j]));
                assert(all[i] != all[j]);
            } else if i == p {
                assert(all[i] == name && all[j] == names[j - 1]);
                if p < j - 1 {
                    assert(text_le(names[p], names[j - 1]) && names[p] != names[j - 1]);
                    lemma_text_le_trans(name, names[p], names[j - 1]);
                    if name == names[j - 1] {
                        lemma_text_le_antisym(names[p], names[j - 1]);
                    }
                }
                assert(text_le(all[i], all[j]));
                assert(all[i] != all[j]);
            } else {
                assert(all[i] == names[i - 1] && all[j] == names[j - 1]);
                assert(text_le(all[i], all[j]));
                assert(all[i] != all[j]);
            }
        }
        assert forall|x: Seq<char>| #[trigger] all.contains(x) <==> names.contains(x) || x
            == name by {
            if all.contains(x) {
                let i = choose|i: int| 0 <= i < all.len() && all[i] == x;
                if i < p {
                    assert(names[i] == x);
                } else if i > p {
                    assert(names[i - 1] == x);
                }
            }
            if names.contains(x) {
                let i = choose|i: int| 0 <= i < names.len() && names[i] == x;
                if i < p {
                    assert(all[i] == x);
                } else {
                    assert(all[i + 1] == x);
                }
            }
            if x == name {
                assert(all[p] == x);
            }
        }
    }
}

/// The registry holds the names of the types that occur, each once, in order.
pub proof fn law_registry(vs: Seq<ValueView>)
    ensures
        strictly_ascending(registry(vs)),
        forall|name: Seq<char>| #[trigger]
            registry(vs).contains(name) <==> exists|i: int|
                0 <= i < vs.len() && !(vs[i] is Null) && #[trigger] type_text(guessed(vs[i]))
                    == name,
    decreases vs.len(),
{
    if vs.len() > 0 {
        let head = vs.drop_last();
        law_registry(head);
        let t = type_text(guessed(vs.last()));
        lemma_with_name(registry(head), t);
        assert forall|name: Seq<char>| #[trigger]
            registry(vs).contains(name) <==> exists|i: int|
                0 <= i < vs.len() && !(vs[i] is Null) && #[trigger] type_text(guessed(vs[i]))
                    == name by {
            if registry(head).contains(name) {
                let i = choose|i: int|
                    0 <= i < head.len() && !(head[i] is Null) && #[trigger] type_text(
                        guessed(head[i]),
                    ) == name;
                assert(type_text(guessed(vs[i])) == name);
            }
            if !(vs.last() is Null) && name == t {
                assert(type_text(guessed(vs[vs.len() - 1])) == name);
            }
            if exists|i: int|
                0 <= i < vs.len() && !(vs[i] is Null) && #[trigger] type_text(guessed(vs[i]))
                    == name {
                let i = choose|i: int|
                    0 <= i < vs.len() && !(vs[i] is Null) && #[trigger] type_text(guessed(vs[i]))
                        == name;
                if i < head.len() {
                    assert(type_text(guessed(head[i])) == name);
                    assert(registry(head).contains(name));
                }
            }
        }
    }
}

/// What is known of the types of a column of any values.
#[derive(Debug)]
pub struct DynamicState {
    /// The version of the format that was read.
    pub version: Option<u64>,
    /// The types by their discriminators.
    pub types: Vec<(String, Type)>,
}

impl DynamicState {
    /// The names and the types.
    pub open spec fn view(&self) -> Seq<(Seq<char>, TypeView)> {
        field_views(self.types@)
    }

    /// How many types there are.
    pub fn total_types(&self) -> (r: u64)
        ensures
            r == self@.len(),
    {
        self.types.len() as u64
    }

    /// The names of the types, by their discriminators.
    pub fn type_names(&self) -> (r: Vec<String>)
        ensures
            texts(r@) == names_of(self@),
    {
        let mut out: Vec<String> = Vec::new();
        let mut i: usize = 0;
        while i < self.types.len()
            invariant
                i <= self.types.len(),
                out@.len() == i,
                forall|j: int| 0 <= j < i ==> (#[trigger] out@[j])@ == self@[j].0,
            decreases self.types.len() - i,
        {
            out.push(self.types[i].0.clone());
            i += 1;
        }
        assert(texts(out@) =~= names_of(self@));
        out
    }
}

/// Writes values of any type.
#[derive(Copy, Clone)]
pub struct DynamicSerializer;

/// Where a name goes among ordered ones.
pub(crate) fn find_name(names: &Vec<String>, name: &Vec<char>) -> (r: usize)
    ensures
        r == name_pos(texts(names@), name@, 0),
        r <= names@.len(),
{
    let mut i: usize = 0;
    while i < names.len()
        invariant
            i <= names.len(),
            name_pos(texts(names@), name@, 0) == name_pos(texts(names@), name@, i as int),
        decreases names.len() - i,
    {
        let other = to_chars(names[i].as_str());
        assert(texts(names@)[i as int] == other@);
        if chars_le(name, &other) {
            return i;
        }
        i += 1;
    }
    assert(texts(names@).len() == names@.len());
    i
}

impl DynamicSerializer {
    /// The names of the types of values that are not null, in order, those with their
    /// types, and how many there are.
    pub fn build_type_registry(values: &Vec<Value>) -> (r: (
        Vec<String>,
        Vec<(String, Type)>,
        usize,
    ))
        ensures
            texts(r.0@) == registry(value_views(values@)),
            field_views(r.1@) == entries_of(registry(value_views(values@))),
            r.2 == registry(value_views(values@)).len(),
    {
        let ghost all = value_views(values@);
        let mut names: Vec<String> = Vec::new();
        let mut i: usize = 0;
        assert(texts(names@) =~= Seq::<Seq<char>>::empty());
        while i < values.len()
            invariant
                i <= values.len(),
                all == value_views(values@),
                texts(names@) == registry(all.take(i as int)),
            decreases values.len() - i,
        {
            proof {
                assert(all.take(i + 1).drop_last() =~= all.take(i as int));
                assert(all.take(i + 1).last() == values@[i as int]@);
            }
            match &values[i] {
                Value::Null => {},
                _ => {
                    let ghost before = texts(names@);
                    let name = values[i].guess_type().to_string();
                    let chars = to_chars(name.as_str());
                    let p: usize = find_name(&names, &chars);
                    if p < names.len() {
                        let other = to_chars(names[p].as_str());
                        assert(texts(names@)[p as int] == other@);
                        if !eq_chars(&other, &chars) {
                            names.insert(p, name);
                            assert(texts(names@) =~= before.insert(p as int, chars@));
                        }
                    } else {
                        names.insert(p, name);
                        assert(texts(names@) =~= before.insert(p as int, chars@));
                    }
                },
            }
            i += 1;
        }
        assert(all.take(all.len() as int) =~= all);
        let mut types: Vec<(String, Type)> = Vec::new();
        let mut k: usize = 0;
        while k < names.len()
            invariant
                k <= names.len(),
                types@.len() == k,
                forall|j: int|
                    0 <= j < k ==> (#[trigger] types@[j]).0@ == names@[j]@ && types@[j].1@
                        == registered_type(names@[j]@),
            decreases names.len() - k,
        {
            let t = match Type::from_str(names[k].as_str()) {
                Ok(t) => t,
                Err(_) => Type::String,
            };
            types.push((names[k].clone(), t));
            k += 1;
        }
        proof {
            let reg = registry(all);
            assert forall|j: int| 0 <= j < reg.len() implies field_views(types@)[j] == (
            #[trigger] entries_of(reg)[j]) by {
                assert(texts(names@)[j] == names@[j]@);
                assert(types@[j].0@ == names@[j]@);
            }
            assert(texts(names@).len() == names@.len());
            assert(field_views(types@) =~= entries_of(reg));
        }
        let total: usize = names.len();
        (names, types, total)
    }
}

// ---------------------------------------------------------------------------
// Discriminators
// ---------------------------------------------------------------------------

/// The first place from `i` on of a name.
pub open spec fn name_index(names: Seq<Seq<char>>, name: Seq<char>, i: int) -> Option<nat>
    decreases names.len() - i,
{
    if i < 0 || i >= names.len() {
        None
    } else if names[i] == name {
        Some(i as nat)
    } else {
        name_index(names, name, i + 1)
    }
}

/// The discriminator of a value: the place of its type, or behind all of them for null.
pub open spec fn value_discriminator(v: ValueView, names: Seq<Seq<char>>) -> Option<nat> {
    if v is Null {
        Some(names.len())
    } else {
        name_index(names, type_text(guessed(v)), 0)
    }
}

/// Whether the types of all values are registered.
pub open spec fn all_registered(vs: Seq<ValueView>, names: Seq<Seq<char>>) -> bool {
    forall|i: int| 0 <= i < vs.len() ==> value_discriminator(#[trigger] vs[i], names) is Some
}

/// The discriminators of values.
pub open spec fn value_discriminators(vs: Seq<ValueView>, names: Seq<Seq<char>>) -> Seq<u64> {
    Seq::new(vs.len(), |i: int| value_discriminator(vs[i], names)->0 as u64)
}

/// The values of one type, in order.
pub open spec fn values_of_type(vs: Seq<ValueView>, names: Seq<Seq<char>>, d: nat) -> Seq<
    ValueView,
>
    decreases vs.len(),
{
    if vs.len() == 0 {
        Seq::empty()
    } else {
        let head = values_of_type(vs.drop_last(), names, d);
        if !(vs.last() is Null) && value_discriminator(vs.last(), names) == Some(d) {
            head.push(vs.last())
        } else {
            head
        }
    }
}

/// The bytes of discriminators.
pub open spec fn discriminator_bytes(ds: Seq<u64>, total_types: nat) -> Seq<u8>
    decreases ds.len(),
{
    if ds.len() == 0 {
        Seq::empty()
    } else {
        discriminator_bytes(ds.drop_last(), total_types) + le_bytes(
            ds.last() as nat,
            discriminator_size(total_types),
        )
    }
}

/// A name is found where it stands, and nowhere else.
pub proof fn lemma_name_index(names: Seq<Seq<char>>, name: Seq<char>, i: int)
    requires
        0 <= i,
    ensures
        match name_index(names, name, i) {
            Some(k) => i <= k < names.len() && names[k as int] == name,
            None => forall|j: int| i <= j < names.len() ==> (#[trigger] names[j]) != name,
        },
    decreases names.len() - i,
{
    if i < names.len() && names[i] != name {
        lemma_name_index(names, name, i + 1);
    }
}

/// The types of values are found in their registry.
pub proof fn law_values_are_registered(vs: Seq<ValueView>)
    ensures
        all_registered(vs, registry(vs)),
{
    law_registry(vs);
    let names = registry(vs);
    assert forall|i: int| 0 <= i < vs.len() implies value_discriminator(
        #[trigger] vs[i],
        names,
    ) is Some by {
        if !(vs[i] is Null) {
            let name = type_text(guessed(vs[i]));
            assert(names.contains(name));
            let j = choose|j: int| 0 <= j < names.len() && names[j] == name;
            lemma_name_index(names, name, 0);
        }
    }
}

fn find_index(types: &Vec<(String, Type)>, name: &Vec<char>) -> (r: Option<usize>)
    ensures
        match r {
            Some(k) => name_index(names_of(field_views(types@)), name@, 0) == Some(k as nat) && k
                < types@.len(),
            None => name_index(names_of(field_views(types@)), name@, 0) is None,
        },
{
    let ghost names = names_of(field_views(types@));
    let mut i: usize = 0;
    while i < types.len()
        invariant
            i <= types.len(),
            names == names_of(field_views(types@)),
            name_index(names, name@, 0) == name_index(names, name@, i as int),
        decreases types.len() - i,
    {
        let other = to_chars(types[i].0.as_str());
        assert(names[i as int] == other@);
        if eq_chars(&other, name) {
            return Some(i);
        }
        i += 1;
    }
    assert(names.len() == types@.len());
    None
}

impl DynamicSerializer {
    /// The discriminators of values, and the values of each type in order.
    pub fn build_discriminators_and_groups(values: &Vec<Value>, types: &Vec<(String, Type)>)
        -> (r: Result<(Vec<u64>, Vec<Vec<Value>>)>)
        ensures
            match r {
                Ok((discriminators, groups)) => {
                    let names = names_of(field_views(types@));
                    &&& all_registered(value_views(values@), names)
                    &&& discriminators@ == value_discriminators(value_views(values@), names)
                    &&& groups@.len() == types@.len()
                    &&& forall|d: int|
                        0 <= d < groups@.len() ==> value_views((#[trigger] groups@[d])@)
                            == values_of_type(value_views(values@), names, d as nat)
                },
                Err(e) => {
                    &&& !all_registered(value_views(values@), names_of(field_views(types@)))
                    &&& e == Error::SerializeError(WriteReason::NoMatchingVariant)
                },
            },
    {
        let ghost all = value_views(values@);
        let ghost names = names_of(field_views(types@));
        let mut discriminators: Vec<u64> = Vec::new();
        let mut groups: Vec<Vec<Value>> = Vec::new();
        let mut k: usize = 0;
        while k < types.len()
            invariant
                k <= types.len(),
                groups@.len() == k,
                forall|d: int| 0 <= d < k ==> (#[trigger] groups@[d])@.len() == 0,
            decreases types.len() - k,
        {
            groups.push(Vec::new());
            k += 1;
        }
        let mut i: usize = 0;
        proof {
            assert forall|d: int| 0 <= d < groups@.len() implies value_views(
                (#[trigger] groups@[d])@,
            ) == values_of_type(all.take(0), names, d as nat) by {
                assert(value_views(groups@[d]@) =~= Seq::empty());
            }
        }
        while i < values.len()
            invariant
                i <= values.len(),
                all == value_views(values@),
                names == names_of(field_views(types@)),
                discriminators@.len() == i,
                forall|j: int|
                    0 <= j < i ==> value_discriminator(#[trigger] all[j], names) is Some,
                forall|j: int|
                    0 <= j < i ==> (#[trigger] discriminators@[j]) == value_discriminator(
                        all[j],
                        names,
                    )->0 as u64,
                groups@.len() == types@.len(),
                forall|d: int|
                    0 <= d < groups@.len() ==> value_views((#[trigger] groups@[d])@)
                        == values_of_type(all.take(i as int), names, d as nat),
            decreases values.len() - i,
        {
            proof {
                assert(all.take(i + 1).drop_last() =~= all.take(i as int));
                assert(all.take(i + 1).last() == values@[i as int]@);
                assert(all[i as int] == values@[i as int]@);
            }
            match &values[i] {
                Value::Null => {
                    assert(names.len() == types@.len());
                    discriminators.push(types.len() as u64);
                },
                _ => {
                    let name = to_chars(values[i].guess_type().to_string().as_str());
                    match find_index(types, &name) {
                        None => {
                            assert(value_discriminator(all[i as int], names) is None);
                            return Err(Error::SerializeError(WriteReason::NoMatchingVariant));
                        },
                        Some(slot) => {
                            discriminators.push(slot as u64);
                            let x = values[i].clone();
                            let ghost xv = x@;
                            let ghost before = groups@;
                            let mut group: Vec<Value> = Vec::new();
                            core::mem::swap(&mut group, &mut groups[slot]);
                            group.push(x);
                            core::mem::swap(&mut group, &mut groups[slot]);
                            proof {
                                assert forall|d: int| 0 <= d < groups@.len() implies value_views(
                                    (#[trigger] groups@[d])@,
                                ) == values_of_type(all.take(i + 1), names, d as nat) by {
                                    assert(value_views(before[d]@) == values_of_type(
                                        all.take(i as int),
                                        names,
                                        d as nat,
                                    ));
                                    if d == slot {
                                        assert(value_views(groups@[d]@) =~= value_views(
                                            before[d]@,
                                        ).push(xv));
                                    }
                                }
                            }
                        },
                    }
                },
            }
            i += 1;
        }
        assert(all.take(all.len() as int) =~= all);
        assert(discriminators@ =~= value_discriminators(all, names));
        Ok((discriminators, groups))
    }
}

// ---------------------------------------------------------------------------
// Writing
// ---------------------------------------------------------------------------

/// The bytes of names, each behind its length.
pub open spec fn name_bytes(names: Seq<Seq<char>>) -> Seq<u8>
    decreases names.len(),
{
    if names.len() == 0 {
        Seq::empty()
    } else {
        name_bytes(names.drop_last()) + string_bytes(encode_utf8(names.last()))
    }
}

/// What stands before a column of any values: the version, the names of the types, and
/// what stands before their columns.
pub open spec fn dynamic_header(version: u64, entries: Seq<(Seq<char>, TypeView)>) -> Written {
    followed(
        Ok(
            le_bytes(version as nat, 8) + (varuint_bytes(entries.len()) + name_bytes(
                names_of(entries),
            )),
        ),
        prefixes_bytes(field_types(entries)),
    )
}

/// The same in the version that is written.
pub open spec fn dynamic_prefix(entries: Seq<(Seq<char>, TypeView)>) -> Written {
    dynamic_header(DYNAMIC_VERSION_FLATTENED, entries)
}

/// The columns of the types, from the one with the discriminator `d` on.
pub open spec fn type_columns(
    ts: Seq<TypeView>,
    vs: Seq<ValueView>,
    names: Seq<Seq<char>>,
    d: nat,
) -> Written
    decreases ts.len(),
{
    if ts.len() == 0 {
        Ok(Seq::empty())
    } else {
        followed(
            column_bytes(ts[0], values_of_type(vs, names, d)),
            type_columns(ts.subrange(1, ts.len() as int), vs, names, d + 1),
        )
    }
}

/// The bytes of a column of any values: their discriminators, and a column for each type.
pub open spec fn dynamic_bytes(vs: Seq<ValueView>, entries: Seq<(Seq<char>, TypeView)>) -> Written {
    let names = names_of(entries);
    if !all_registered(vs, names) {
        Err(Error::SerializeError(WriteReason::NoMatchingVariant))
    } else {
        followed(
            Ok(discriminator_bytes(value_discriminators(vs, names), names.len())),
            type_columns(field_types(entries), vs, names, 0),
        )
    }
}

/// Whether a server of a version takes values of any type: from 25.6 on. If the version
/// is not known, it does.
pub open spec fn takes_complex_types(version: Option<(u64, u64, u64)>) -> bool {
    match version {
        None => true,
        Some((major, minor, _)) => major > 25 || (major == 25 && minor >= 6),
    }
}

/// The error of a server that is too old for a type.
pub open spec fn server_too_old(what: ComplexType, version: Option<(u64, u64, u64)>) -> Error {
    let (major, minor, _) = version->0;
    Error::SerializeError(WriteReason::ServerTooOld(what, major, minor))
}

/// Fails where the server is too old for a type.
pub fn check_complex_type_server_version(version: Option<(u64, u64, u64)>, what: ComplexType)
    -> (r: Result<()>)
    ensures
        r == (if takes_complex_types(version) {
            Ok(())
        } else {
            Err(server_too_old(what, version))
        }),
{
    if let Some((major, minor, _)) = version {
        if major < 25 || (major == 25 && minor < 6) {
            return Err(Error::SerializeError(WriteReason::ServerTooOld(what, major, minor)));
        }
    }
    Ok(())
}

fn put_names(writer: &mut Vec<u8>, types: &Vec<(String, Type)>)
    ensures
        final(writer)@ == old(writer)@ + name_bytes(names_of(field_views(types@))),
{
    let ghost names = names_of(field_views(types@));
    let mut i: usize = 0;
    assert(writer@ + Seq::<u8>::empty() =~= writer@);
    while i < types.len()
        invariant
            i <= types.len(),
            names == names_of(field_views(types@)),
            writer@ == old(writer)@ + name_bytes(names.take(i as int)),
        decreases types.len() - i,
    {
        let ghost head = name_bytes(names.take(i as int));
        proof {
            assert(names.take(i + 1).drop_last() =~= names.take(i as int));
            assert(names.take(i + 1).last() == types@[i as int].0@);
        }
        put_string(writer, types[i].0.as_str().as_bytes());
        proof {
            let b = string_bytes(encode_utf8(types@[i as int].0@));
            assert(old(writer)@ + head + b =~= old(writer)@ + (head + b));
        }
        i += 1;
    }
    assert(names.take(names.len() as int) =~= names);
}

pub(crate) fn put_discriminators(writer: &mut Vec<u8>, ds: &Vec<u64>, total_types: usize)
    requires
        forall|i: int| 0 <= i < ds@.len() ==> (#[trigger] ds@[i]) <= total_types,
    ensures
        final(writer)@ == old(writer)@ + discriminator_bytes(ds@, total_types as nat),
{
    let mut i: usize = 0;
    assert(writer@ + Seq::<u8>::empty() =~= writer@);
    while i < ds.len()
        invariant
            i <= ds.len(),
            forall|i: int| 0 <= i < ds@.len() ==> (#[trigger] ds@[i]) <= total_types,
            writer@ == old(writer)@ + discriminator_bytes(ds@.take(i as int), total_types as nat),
        decreases ds.len() - i,
    {
        let ghost head = discriminator_bytes(ds@.take(i as int), total_types as nat);
        proof {
            assert(ds@.take(i + 1).drop_last() =~= ds@.take(i as int));
            law_discriminator_fits(ds@[i as int] as nat, total_types as nat);
        }
        write_discriminator_sync(writer, ds[i], total_types);
        proof {
            let b = le_bytes(ds@[i as int] as nat, discriminator_size(total_types as nat));
            assert(old(writer)@ + head + b =~= old(writer)@ + (head + b));
        }
        i += 1;
    }
    assert(ds@.take(ds@.len() as int) =~= ds@);
}

fn put_type_columns(
    writer: &mut Vec<u8>,
    types: &Vec<(String, Type)>,
    groups: &Vec<Vec<Value>>,
    Ghost(vs): Ghost<Seq<ValueView>>,
) -> (r: Result<()>)
    requires
        groups@.len() == types@.len(),
        forall|d: int|
            0 <= d < groups@.len() ==> value_views((#[trigger] groups@[d])@) == values_of_type(
                vs,
                names_of(field_views(types@)),
                d as nat,
            ),
    ensures
        wrote(
            old(writer)@,
            final(writer)@,
            r,
            type_columns(
                field_types(field_views(types@)),
                vs,
                names_of(field_views(types@)),
                0,
            ),
        ),
{
    let ghost all = field_types(field_views(types@));
    let ghost names = names_of(field_views(types@));
    let ghost start = writer@;
    let mut i: usize = 0;
    proof {
        assert(all.subrange(0, all.len() as int) =~= all);
    }
    while i < types.len()
        invariant
            i <= types.len(),
            all == field_types(field_views(types@)),
            names == names_of(field_views(types@)),
            start == old(writer)@,
            groups@.len() == types@.len(),
            forall|d: int|
                0 <= d < groups@.len() ==> value_views((#[trigger] groups@[d])@)
                    == values_of_type(vs, names, d as nat),
            match type_columns(all.subrange(i as int, all.len() as int), vs, names, i as nat) {
                Err(e) => type_columns(all, vs, names, 0) == Err::<Seq<u8>, Error>(e),
                Ok(b) => type_columns(all, vs, names, 0) is Ok && start + type_columns(
                    all,
                    vs,
                    names,
                    0,
                )->Ok_0 == writer@ + b,
            },
        decreases types.len() - i,
    {
        let ghost before = writer@;
        let ghost here = all.subrange(i as int, all.len() as int);
        proof {
            assert(here[0] == types@[i as int].1@);
            assert(here.subrange(1, here.len() as int) =~= all.subrange(i + 1, all.len() as int));
        }
        match types[i].1.serialize_plain_column(&groups[i], writer) {
            Ok(()) => {},
            Err(e) => return Err(e),
        }
        proof {
            let w = column_bytes(types@[i as int].1@, values_of_type(vs, names, i as nat));
            if let Ok(b) = type_columns(
                all.subrange(i + 1, all.len() as int),
                vs,
                names,
                (i + 1) as nat,
            ) {
                assert(before + (w->Ok_0 + b) =~= writer@ + b);
            }
        }
        i += 1;
    }
    assert(writer@ + Seq::<u8>::empty() =~= writer@);
    Ok(())
}

impl DynamicSerializer {
    /// What is known of the types of values.
    pub fn analyze_values(values: &Vec<Value>) -> (r: TypeSpecificState)
        ensures
            match r {
                TypeSpecificState::Dynamic(st) => {
                    &&& st@ == entries_of(registry(value_views(values@)))
                    &&& st.version is None
                },
                _ => false,
            },
    {
        let (_, types, _) = DynamicSerializer::build_type_registry(values);
        TypeSpecificState::Dynamic(DynamicState { version: None, types })
    }

    /// The version of the format that is written.
    pub fn get_version() -> (r: u64)
        ensures
            r == DYNAMIC_VERSION_FLATTENED,
    {
        DYNAMIC_VERSION_FLATTENED
    }

    /// Appends what stands before a column of values whose types are known, in the
    /// version that they are known for.
    pub fn write_prefix_with_state(dynamic_state: &DynamicState, writer: &mut Vec<u8>)
        -> (r: Result<()>)
        ensures
            wrote(
                old(writer)@,
                final(writer)@,
                r,
                dynamic_header(
                    match dynamic_state.version {
                        Some(v) => v,
                        None => DYNAMIC_VERSION_FLATTENED,
                    },
                    dynamic_state@,
                ),
            ),
    {
        let ghost entries = dynamic_state@;
        let ghost start = writer@;
        let version: u64 = match dynamic_state.version {
            Some(v) => v,
            None => DynamicSerializer::get_version(),
        };
        put_u64_le(writer, version);
        put_var_uint(writer, dynamic_state.types.len() as u64);
        put_names(writer, &dynamic_state.types);
        let ghost mid = writer@;
        let ghost head = le_bytes(version as nat, 8) + (varuint_bytes(entries.len()) + name_bytes(
            names_of(entries),
        ));
        proof {
            assert(mid =~= start + head);
        }
        let ts = types_of_fields(&dynamic_state.types);
        let r = serialize_prefixes(&ts, writer);
        proof {
            lemma_wrote(
                start,
                mid,
                writer@,
                r,
                Ok(head),
                prefixes_bytes(field_types(entries)),
            );
        }
        r
    }

    /// The same in the version that is written, whatever version they are known for.
    pub fn write_types(dynamic_state: &DynamicState, writer: &mut Vec<u8>) -> (r: Result<()>)
        ensures
            wrote(old(writer)@, final(writer)@, r, dynamic_prefix(dynamic_state@)),
    {
        let current = DynamicState {
            version: None,
            types: crate::types::clone_fields(&dynamic_state.types),
        };
        DynamicSerializer::write_prefix_with_state(&current, writer)
    }

    /// Appends what stands before a column, if the server takes such columns and the
    /// types of the values are known.
    pub fn write_prefix_sync(writer: &mut Vec<u8>, state: &SerializerState) -> (r: Result<()>)
        ensures
            if !takes_complex_types(state.server_version) {
                r == Err::<(), Error>(server_too_old(ComplexType::Dynamic, state.server_version))
            } else {
                match state.type_specific {
                    TypeSpecificState::Dynamic(st) => wrote(
                        old(writer)@,
                        final(writer)@,
                        r,
                        dynamic_prefix(st@),
                    ),
                    _ => r == Err::<(), Error>(Error::SerializeError(WriteReason::StateNotSet)),
                }
            },
    {
        match check_complex_type_server_version(state.server_version, ComplexType::Dynamic) {
            Ok(()) => {},
            Err(e) => return Err(e),
        }
        match &state.type_specific {
            TypeSpecificState::Dynamic(st) => DynamicSerializer::write_types(st, writer),
            _ => Err(Error::SerializeError(WriteReason::StateNotSet)),
        }
    }

    /// Appends a column of values whose types are known.
    pub fn write_dynamic_data_sync(
        values: &Vec<Value>,
        writer: &mut Vec<u8>,
        dynamic_state: &DynamicState,
    ) -> (r: Result<()>)
        ensures
            wrote(
                old(writer)@,
                final(writer)@,
                r,
                dynamic_bytes(value_views(values@), dynamic_state@),
            ),
    {
        let ghost vs = value_views(values@);
        let ghost names = names_of(dynamic_state@);
        let (ds, groups) = match DynamicSerializer::build_discriminators_and_groups(
            values,
            &dynamic_state.types,
        ) {
            Ok(p) => p,
            Err(e) => return Err(e),
        };
        let ghost start = writer@;
        proof {
            assert forall|i: int| 0 <= i < ds@.len() implies (#[trigger] ds@[i])
                <= dynamic_state.types@.len() by {
                assert(value_discriminator(vs[i], names) is Some);
                lemma_name_index(names, type_text(guessed(vs[i])), 0);
            }
        }
        put_discriminators(writer, &ds, dynamic_state.types.len());
        let ghost mid = writer@;
        let r = put_type_columns(writer, &dynamic_state.types, &groups, Ghost(vs));
        proof {
            lemma_wrote(
                start,
                mid,
                writer@,
                r,
                Ok(discriminator_bytes(value_discriminators(vs, names), names.len())),
                type_columns(field_types(dynamic_state@), vs, names, 0),
            );
        }
        r
    }

    /// Appends a column of values, if their types are known.
    pub fn write_sync(values: &Vec<Value>, writer: &mut Vec<u8>, state: &SerializerState)
        -> (r: Result<()>)
        ensures
            match state.type_specific {
                TypeSpecificState::Dynamic(st) => wrote(
                    old(writer)@,
                    final(writer)@,
                    r,
                    dynamic_bytes(value_views(values@), st@),
                ),
                _ => r == Err::<(), Error>(Error::SerializeError(WriteReason::StateNotSet)),
            },
    {
        match &state.type_specific {
            TypeSpecificState::Dynamic(st) => DynamicSerializer::write_dynamic_data_sync(
                values,
                writer,
                st,
            ),
            _ => Err(Error::SerializeError(WriteReason::StateNotSet)),
        }
    }
}

} // verus!
