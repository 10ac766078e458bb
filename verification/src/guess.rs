//! The types that values have of themselves, and the values that types start with.
use vstd::prelude::*;

use crate::guess_laws::{law_type_is_settled, type_is_settled};
use crate::type_display::zones_named;
use crate::type_order::{sort_types, sorted_types};
use crate::types::{type_views, Type, TypeView};
use crate::values::{
    i256, u256, value_views, Date, Date32, DateTime, DynDateTime64, Ipv4, Ipv6, MultiPolygon, Point,
    Polygon, Ring, Value, ValueView,
};

verus! {

/// The type that a value has of itself.
pub open spec fn guessed(v: ValueView) -> TypeView
    decreases v,
{
    match v {
        ValueView::Int8(_) => TypeView::Int8,
        ValueView::Int16(_) => TypeView::Int16,
        ValueView::Int32(_) => TypeView::Int32,
        ValueView::Int64(_) => TypeView::Int64,
        ValueView::Int128(_) => TypeView::Int128,
        ValueView::Int256(_) => TypeView::Int256,
        ValueView::UInt8(_) => TypeView::UInt8,
        ValueView::UInt16(_) => TypeView::UInt16,
        ValueView::UInt32(_) => TypeView::UInt32,
        ValueView::UInt64(_) => TypeView::UInt64,
        ValueView::UInt128(_) => TypeView::UInt128,
        ValueView::UInt256(_) => TypeView::UInt256,
        ValueView::Float32(_) => TypeView::Float32,
        ValueView::Float64(_) => TypeView::Float64,
        ValueView::String(_) => TypeView::String,
        ValueView::Uuid(_) => TypeView::Uuid,
        ValueView::Date(_) => TypeView::Date,
        ValueView::Date32(_) => TypeView::Date32,
        ValueView::Ipv4(_) => TypeView::Ipv4,
        ValueView::Ipv6(_) => TypeView::Ipv6,
        ValueView::Point(_, _) => TypeView::Point,
        ValueView::Ring(_) => TypeView::Ring,
        ValueView::Polygon(_) => TypeView::Polygon,
        ValueView::MultiPolygon(_) => TypeView::MultiPolygon,
        ValueView::Object(_) => TypeView::Object,
        ValueView::Bool(_) => TypeView::Bool,
        ValueView::Decimal32(s, _) => TypeView::Decimal32(s),
        ValueView::Decimal64(s, _) => TypeView::Decimal64(s),
        ValueView::Decimal128(s, _) => TypeView::Decimal128(s),
        ValueView::Decimal256(s, _) => TypeView::Decimal256(s),
        ValueView::DateTime(tz, _) => TypeView::DateTime(tz),
        ValueView::DateTime64(tz, _, p) => TypeView::DateTime64(p, tz),
        ValueView::Enum8(_, x) => TypeView::Enum8(seq![(Seq::empty(), x)]),
        ValueView::Enum16(_, x) => TypeView::Enum16(seq![(Seq::empty(), x)]),
        ValueView::Array(s) => TypeView::Array(Box::new(common(guesses(s)))),
        ValueView::Tuple(s) => TypeView::Tuple(all_guessed(s)),
        ValueView::Null => TypeView::Nullable(Box::new(TypeView::String)),
        ValueView::MapOf(k, s) => TypeView::MapOf(
            Box::new(common(guesses(k))),
            Box::new(common(guesses(s))),
        ),
        ValueView::Variant(_, x) => TypeView::Variant(seq![guessed(*x)]),
        ValueView::Dynamic(_, _) => TypeView::Dynamic { max_types: None },
        ValueView::Json(_) => TypeView::Object,
    }
}

/// The types that values have, one for each value.
pub open spec fn all_guessed(s: Seq<ValueView>) -> Seq<TypeView>
    decreases s,
{
    if s.len() == 0 {
        Seq::empty()
    } else {
        all_guessed(s.subrange(0, s.len() - 1)).push(guessed(s[s.len() - 1]))
    }
}

/// The different types that values have, in the order in which they come up. Nulls
/// have no part in them.
pub open spec fn guesses(s: Seq<ValueView>) -> Seq<TypeView>
    decreases s,
{
    if s.len() == 0 {
        Seq::empty()
    } else {
        let head = guesses(s.subrange(0, s.len() - 1));
        let last = s[s.len() - 1];
        if last is Null || head.contains(guessed(last)) {
            head
        } else {
            head.push(guessed(last))
        }
    }
}

/// The one type of values that have the given types.
pub open spec fn common(ts: Seq<TypeView>) -> TypeView {
    if ts.len() == 0 {
        TypeView::String
    } else if ts.len() == 1 {
        ts[0]
    } else {
        TypeView::Variant(sorted_types(ts))
    }
}

/// Whether the time zones of types, if there are several types, are told by their names.
pub open spec fn types_named(ts: Seq<TypeView>) -> bool {
    ts.len() > 1 ==> forall|i: int| 0 <= i < ts.len() ==> zones_named(#[trigger] ts[i])
}

/// Whether a type is among others.
fn has_type(ts: &Vec<Type>, t: &Type) -> (r: bool)
    ensures
        r == type_views(ts@).contains(t@),
{
    let mut i: usize = 0;
    while i < ts.len()
        invariant
            i <= ts.len(),
            forall|j: int| 0 <= j < i ==> type_views(ts@)[j] != t@,
        decreases ts.len() - i,
    {
        if ts[i].same(t) {
            assert(type_views(ts@)[i as int] == t@);
            return true;
        }
        i += 1;
    }
    false
}

/// The one type of values.
fn common_type(values: &Vec<Value>) -> (r: Type)
    ensures
        r@ == common(guesses(value_views(values@))),
        types_named(guesses(value_views(values@))),
    decreases values,
{
    let ghost all = value_views(values@);
    let mut types: Vec<Type> = Vec::new();
    let mut i: usize = 0;
    assert(type_views(types@) =~= guesses(all.subrange(0, 0)));
    while i < values.len()
        invariant
            i <= values.len(),
            all == value_views(values@),
            type_views(types@) == guesses(all.subrange(0, i as int)),
        decreases values.len() - i,
    {
        proof {
            assert(all.subrange(0, i + 1).subrange(0, i as int) =~= all.subrange(0, i as int));
            assert(all.subrange(0, i + 1)[i as int] == values@[i as int]@);
            assert(decreases_to!(values@ => values@[i as int]));
        }
        let is_null: bool = match values[i] {
            Value::Null => true,
            _ => false,
        };
        if !is_null {
            let t = values[i].guess_type();
            if !has_type(&types, &t) {
                let ghost before = type_views(types@);
                let ghost tv = t@;
                types.push(t);
                assert(type_views(types@) =~= before.push(tv));
            }
        }
        i += 1;
    }
    assert(all.subrange(0, all.len() as int) =~= all);
    assert(type_views(types@).len() == types@.len());
    if types.len() == 0 {
        Type::String
    } else if types.len() == 1 {
        assert(type_views(types@)[0] == types@[0]@);
        types[0].clone()
    } else {
        let r = Type::Variant(sort_types(&types));
        proof {
            r.lemma_view();
            let ts = type_views(types@);
            assert forall|i: int| 0 <= i < ts.len() implies zones_named(#[trigger] ts[i]) by {
                assert(zones_named(types@[i]@));
            }
        }
        r
    }
}

impl Value {
    /// The type that the value has of itself. It may not be the type of the column. That of
    /// an array depends on neither the order of its values nor on its nulls.
    pub fn guess_type(&self) -> (r: Type)
        ensures
            r@ == guessed(self@),
            self@ matches ValueView::Array(s) ==> types_named(guesses(s)) && type_is_settled(s),
        decreases self,
    {
        proof {
            self.lemma_view();
        }
        match self {
            Value::Int8(_) => Type::Int8,
            Value::Int16(_) => Type::Int16,
            Value::Int32(_) => Type::Int32,
            Value::Int64(_) => Type::Int64,
            Value::Int128(_) => Type::Int128,
            Value::Int256(_) => Type::Int256,
            Value::UInt8(_) => Type::UInt8,
            Value::UInt16(_) => Type::UInt16,
            Value::UInt32(_) => Type::UInt32,
            Value::UInt64(_) => Type::UInt64,
            Value::UInt128(_) => Type::UInt128,
            Value::UInt256(_) => Type::UInt256,
            Value::Float32(_) => Type::Float32,
            Value::Float64(_) => Type::Float64,
            Value::String(_) => Type::String,
            Value::Uuid(_) => Type::Uuid,
            Value::Date(_) => Type::Date,
            Value::Date32(_) => Type::Date32,
            Value::Ipv4(_) => Type::Ipv4,
            Value::Ipv6(_) => Type::Ipv6,
            Value::Point(_) => Type::Point,
            Value::Ring(_) => Type::Ring,
            Value::Polygon(_) => Type::Polygon,
            Value::MultiPolygon(_) => Type::MultiPolygon,
            Value::Object(_) => Type::Object,
            Value::Bool(_) => Type::Bool,
            Value::Decimal32(s, _) => Type::Decimal32(*s),
            Value::Decimal64(s, _) => Type::Decimal64(*s),
            Value::Decimal128(s, _) => Type::Decimal128(*s),
            Value::Decimal256(s, _) => Type::Decimal256(*s),
            Value::DateTime(d) => Type::DateTime(d.0),
            Value::DateTime64(d) => Type::DateTime64(d.2, d.0),
            Value::Enum8(_, x) => {
                let r = Type::Enum8(vec![(String::new(), *x)]);
                assert(r@->Enum8_0 =~= seq![(Seq::<char>::empty(), *x)]);
                r
            },
            Value::Enum16(_, x) => {
                let r = Type::Enum16(vec![(String::new(), *x)]);
                assert(r@->Enum16_0 =~= seq![(Seq::<char>::empty(), *x)]);
                r
            },
            Value::Array(v) => {
                let inner = common_type(v);
                proof {
                    law_type_is_settled(value_views(v@));
                }
                Type::Array(Box::new(inner))
            },
            Value::Tuple(v) => {
                let ghost all = value_views(v@);
                let mut types: Vec<Type> = Vec::new();
                let mut i: usize = 0;
                assert(type_views(types@) =~= all_guessed(all.subrange(0, 0)));
                while i < v.len()
                    invariant
                        i <= v.len(),
                        all == value_views(v@),
                        type_views(types@) == all_guessed(all.subrange(0, i as int)),
                        decreases_to!(self => v@),
                    decreases v.len() - i,
                {
                    proof {
                        assert(all.subrange(0, i + 1).subrange(0, i as int) =~= all.subrange(
                            0,
                            i as int,
                        ));
                        assert(all.subrange(0, i + 1)[i as int] == v@[i as int]@);
                        assert(decreases_to!(v@ => v@[i as int]));
                    }
                    let t = v[i].guess_type();
                    let ghost before = type_views(types@);
                    let ghost tv = t@;
                    types.push(t);
                    assert(type_views(types@) =~= before.push(tv));
                    i += 1;
                }
                assert(all.subrange(0, all.len() as int) =~= all);
                let r = Type::Tuple(types);
                proof {
                    r.lemma_view();
                }
                r
            },
            Value::Null => {
                let inner = Type::String;
                assert(inner@ is String);
                Type::Nullable(Box::new(inner))
            },
            Value::MapOf(k, v) => Type::MapOf(Box::new(common_type(k)), Box::new(common_type(v))),
            Value::Variant(_, x) => {
                let r = Type::Variant(vec![x.guess_type()]);
                proof {
                    r.lemma_view();
                    assert(r@->Variant_0 =~= seq![guessed(x@)]);
                }
                r
            },
            Value::Dynamic(_, _) => Type::Dynamic { max_types: None },
            Value::Json(_) => Type::Object,
        }
    }
}

/// The value that a column starts with.
pub open spec fn default_of(t: TypeView) -> ValueView
    decreases t,
{
    match t {
        TypeView::Int8 => ValueView::Int8(0),
        TypeView::Int16 => ValueView::Int16(0),
        TypeView::Int32 => ValueView::Int32(0),
        TypeView::Int64 => ValueView::Int64(0),
        TypeView::Int128 => ValueView::Int128(0),
        TypeView::UInt8 => ValueView::UInt8(0),
        TypeView::UInt16 => ValueView::UInt16(0),
        TypeView::UInt32 => ValueView::UInt32(0),
        TypeView::UInt64 => ValueView::UInt64(0),
        TypeView::UInt128 => ValueView::UInt128(0),
        TypeView::Float32 => ValueView::Float32(0),
        TypeView::Float64 => ValueView::Float64(0),
        TypeView::Uuid => ValueView::Uuid(0),
        TypeView::Date => ValueView::Date(0),
        TypeView::Date32 => ValueView::Date32(0),
        TypeView::Ipv4 => ValueView::Ipv4(0),
        TypeView::Int256 => ValueView::Int256(zeros(32)),
        TypeView::UInt256 => ValueView::UInt256(zeros(32)),
        TypeView::Decimal32(s) => ValueView::Decimal32(s, 0),
        TypeView::Decimal64(s) => ValueView::Decimal64(s, 0),
        TypeView::Decimal128(s) => ValueView::Decimal128(s, 0),
        TypeView::Decimal256(s) => ValueView::Decimal256(s, zeros(32)),
        TypeView::String => ValueView::String(Seq::empty()),
        TypeView::FixedSizedString(_) => ValueView::String(Seq::empty()),
        TypeView::Binary => ValueView::String(Seq::empty()),
        TypeView::FixedSizedBinary(_) => ValueView::String(Seq::empty()),
        TypeView::DateTime(tz) => ValueView::DateTime(tz, 0),
        TypeView::DateTime64(p, tz) => ValueView::DateTime64(tz, 0, p),
        TypeView::Ipv6 => ValueView::Ipv6(zeros(16)),
        TypeView::Point => ValueView::Point(0, 0),
        TypeView::Ring => ValueView::Ring(Seq::empty()),
        TypeView::Polygon => ValueView::Polygon(Seq::empty()),
        TypeView::MultiPolygon => ValueView::MultiPolygon(Seq::empty()),
        TypeView::Enum8(_) => ValueView::Enum8(Seq::empty(), 0),
        TypeView::Enum16(_) => ValueView::Enum16(Seq::empty(), 0),
        TypeView::LowCardinality(inner) => default_of(*inner),
        TypeView::Array(_) => ValueView::Array(Seq::empty()),
        TypeView::Tuple(ts) => ValueView::Tuple(defaults_of(ts)),
        TypeView::TupleNamed(fs) => ValueView::Tuple(field_defaults(fs)),
        TypeView::Nullable(_) => ValueView::Null,
        TypeView::MapOf(_, _) => ValueView::MapOf(Seq::empty(), Seq::empty()),
        TypeView::Object => ValueView::Object(seq![123u8, 125u8]),
        TypeView::Variant(_) => ValueView::Variant(255, Box::new(ValueView::Null)),
        TypeView::Dynamic { .. } => ValueView::Null,
        TypeView::JSON { .. } => ValueView::Object(seq![123u8, 125u8]),
        TypeView::Nothing => ValueView::Null,
        TypeView::Bool => ValueView::Bool(false),
    }
}

/// Bytes that are all zero.
pub open spec fn zeros(n: nat) -> Seq<u8> {
    Seq::new(n, |i: int| 0u8)
}

/// The values that tuple fields start with.
pub open spec fn defaults_of(ts: Seq<TypeView>) -> Seq<ValueView>
    decreases ts,
{
    if ts.len() == 0 {
        Seq::empty()
    } else {
        defaults_of(ts.subrange(0, ts.len() - 1)).push(default_of(ts[ts.len() - 1]))
    }
}

/// The values that named tuple fields start with.
pub open spec fn field_defaults(fs: Seq<(Seq<char>, TypeView)>) -> Seq<ValueView>
    decreases fs,
{
    if fs.len() == 0 {
        Seq::empty()
    } else {
        field_defaults(fs.subrange(0, fs.len() - 1)).push(default_of(fs[fs.len() - 1].1))
    }
}

impl Type {
    /// The value that a column of the type starts with.
    pub fn default_value(&self) -> (r: Value)
        ensures
            r@ == default_of(self@),
        decreases self,
    {
        proof {
            self.lemma_view();
        }
        match self {
            Type::Int8 => Value::Int8(0),
            Type::Int16 => Value::Int16(0),
            Type::Int32 => Value::Int32(0),
            Type::Int64 => Value::Int64(0),
            Type::Int128 => Value::Int128(0),
            Type::UInt8 => Value::UInt8(0),
            Type::UInt16 => Value::UInt16(0),
            Type::UInt32 => Value::UInt32(0),
            Type::UInt64 => Value::UInt64(0),
            Type::UInt128 => Value::UInt128(0),
            Type::Float32 => Value::Float32(0),
            Type::Float64 => Value::Float64(0),
            Type::Uuid => Value::Uuid(0),
            Type::Date => Value::Date(Date(0)),
            Type::Date32 => Value::Date32(Date32(0)),
            Type::Ipv4 => Value::Ipv4(Ipv4(0)),
            Type::Int256 => {
                let x: [u8; 32] = [0;32];
                assert(x@ =~= zeros(32));
                Value::Int256(i256(x))
            },
            Type::UInt256 => {
                let x: [u8; 32] = [0;32];
                assert(x@ =~= zeros(32));
                Value::UInt256(u256(x))
            },
            Type::Decimal32(s) => Value::Decimal32(*s, 0),
            Type::Decimal64(s) => Value::Decimal64(*s, 0),
            Type::Decimal128(s) => Value::Decimal128(*s, 0),
            Type::Decimal256(s) => {
                let x: [u8; 32] = [0;32];
                assert(x@ =~= zeros(32));
                Value::Decimal256(*s, i256(x))
            },
            Type::String | Type::FixedSizedString(_) | Type::Binary | Type::FixedSizedBinary(_) => {
                Value::String(Vec::new())
            },
            Type::DateTime(tz) => Value::DateTime(DateTime(*tz, 0)),
            Type::DateTime64(p, tz) => Value::DateTime64(DynDateTime64(*tz, 0, *p)),
            Type::Ipv6 => {
                let x: [u8; 16] = [0;16];
                assert(x@ =~= zeros(16));
                Value::Ipv6(Ipv6(x))
            },
            Type::Point => Value::Point(Point(0, 0)),
            Type::Ring => {
                let r = Value::Ring(Ring(Vec::new()));
                assert(r@->Ring_0 =~= Seq::empty());
                r
            },
            Type::Polygon => {
                let r = Value::Polygon(Polygon(Vec::new()));
                assert(r@->Polygon_0 =~= Seq::empty());
                r
            },
            Type::MultiPolygon => {
                let r = Value::MultiPolygon(MultiPolygon(Vec::new()));
                assert(r@->MultiPolygon_0 =~= Seq::empty());
                r
            },
            Type::Enum8(_) => Value::Enum8(String::new(), 0),
            Type::Enum16(_) => Value::Enum16(String::new(), 0),
            Type::LowCardinality(inner) => inner.default_value(),
            Type::Array(_) => {
                let r = Value::Array(Vec::new());
                assert(r@->Array_0 =~= Seq::empty());
                r
            },
            Type::Tuple(v) => {
                let ghost all = type_views(v@);
                let mut out: Vec<Value> = Vec::new();
                let mut i: usize = 0;
                assert(value_views(out@) =~= defaults_of(all.subrange(0, 0)));
                while i < v.len()
                    invariant
                        i <= v.len(),
                        all == type_views(v@),
                        value_views(out@) == defaults_of(all.subrange(0, i as int)),
                        decreases_to!(self => v@),
                    decreases v.len() - i,
                {
                    proof {
                        assert(all.subrange(0, i + 1).subrange(0, i as int) =~= all.subrange(
                            0,
                            i as int,
                        ));
                        assert(all.subrange(0, i + 1)[i as int] == v@[i as int]@);
                        assert(decreases_to!(v@ => v@[i as int]));
                    }
                    let x = v[i].default_value();
                    let ghost before = value_views(out@);
                    let ghost xv = x@;
                    out.push(x);
                    assert(value_views(out@) =~= before.push(xv));
                    i += 1;
                }
                assert(all.subrange(0, all.len() as int) =~= all);
                let r = Value::Tuple(out);
                proof {
                    r.lemma_view();
                }
                r
            },
            Type::TupleNamed(v) => {
                let ghost all = crate::types::field_views(v@);
                let mut out: Vec<Value> = Vec::new();
                let mut i: usize = 0;
                assert(value_views(out@) =~= field_defaults(all.subrange(0, 0)));
                while i < v.len()
                    invariant
                        i <= v.len(),
                        all == crate::types::field_views(v@),
                        value_views(out@) == field_defaults(all.subrange(0, i as int)),
                        decreases_to!(self => v@),
                    decreases v.len() - i,
                {
                    proof {
                        assert(all.subrange(0, i + 1).subrange(0, i as int) =~= all.subrange(
                            0,
                            i as int,
                        ));
                        assert(all.subrange(0, i + 1)[i as int].1 == v@[i as int].1@);
                        assert(decreases_to!(v@ => v@[i as int]));
                        assert(decreases_to!(v@[i as int] => v@[i as int].1));
                    }
                    let x = v[i].1.default_value();
                    let ghost before = value_views(out@);
                    let ghost xv = x@;
                    out.push(x);
                    assert(value_views(out@) =~= before.push(xv));
                    i += 1;
                }
                assert(all.subrange(0, all.len() as int) =~= all);
                let r = Value::Tuple(out);
                proof {
                    r.lemma_view();
                }
                r
            },
            Type::Nullable(_) => Value::Null,
            Type::MapOf(_, _) => {
                let r = Value::MapOf(Vec::new(), Vec::new());
                assert(r@->MapOf_0 =~= Seq::empty());
                assert(r@->MapOf_1 =~= Seq::empty());
                r
            },
            Type::Object => empty_object(),
            Type::Variant(_) => {
                let inner = Value::Null;
                assert(inner@ is Null);
                Value::Variant(255, Box::new(inner))
            },
            Type::Dynamic { .. } => Value::Null,
            Type::JSON { .. } => empty_object(),
            Type::Nothing => Value::Null,
            Type::Bool => Value::Bool(false),
        }
    }
}

/// The text of a JSON object without members.
fn empty_object() -> (r: Value)
    ensures
        r@ == ValueView::Object(seq![123u8, 125u8]),
{
    let r = Value::Object(vec![123, 125]);
    assert(r@->Object_0 =~= seq![123u8, 125u8]);
    r
}

impl Value {
    /// The value itself, or the value that the type starts with where it is null.
    pub fn justify_null(self, type_: &Type) -> (r: Value)
        ensures
            r@ == justified(self@, type_@),
    {
        match self {
            Value::Null => type_.default_value(),
            v => v,
        }
    }
}

/// The value itself, or the value that the type starts with where it is null.
pub open spec fn justified(v: ValueView, t: TypeView) -> ValueView {
    if v is Null {
        default_of(t)
    } else {
        v
    }
}

// ---------------------------------------------------------------------------
// Arrays
// ---------------------------------------------------------------------------

/// The types that are guessed for values are those of the values that are not null, and
/// none of them comes twice.
pub proof fn law_guesses(s: Seq<ValueView>)
    ensures
        guesses(s).no_duplicates(),
        forall|t: TypeView| #[trigger]
            guesses(s).contains(t) <==> exists|i: int|
                0 <= i < s.len() && !(s[i] is Null) && #[trigger] guessed(s[i]) == t,
    decreases s.len(),
{
    if s.len() > 0 {
        let head = s.subrange(0, s.len() - 1);
        let last = s[s.len() - 1];
        let before = guesses(head);
        let all = guesses(s);
        law_guesses(head);
        assert forall|t: TypeView| #[trigger] all.contains(t) <==> exists|i: int|
            0 <= i < s.len() && !(s[i] is Null) && #[trigger] guessed(s[i]) == t by {
            if all.contains(t) {
                let k = choose|k: int| 0 <= k < all.len() && all[k] == t;
                if k < before.len() {
                    assert(before[k] == t);
                    assert(before.contains(t));
                    let i = choose|i: int|
                        0 <= i < head.len() && !(head[i] is Null) && #[trigger] guessed(head[i])
                            == t;
                    assert(guessed(s[i]) == t && !(s[i] is Null));
                } else {
                    assert(guessed(s[s.len() - 1]) == t);
                }
            }
            if exists|i: int| 0 <= i < s.len() && !(s[i] is Null) && #[trigger] guessed(s[i]) == t {
                let i = choose|i: int|
                    0 <= i < s.len() && !(s[i] is Null) && #[trigger] guessed(s[i]) == t;
                if i < head.len() {
                    assert(guessed(head[i]) == t && !(head[i] is Null));
                    assert(before.contains(t));
                    let k = choose|k: int| 0 <= k < before.len() && before[k] == t;
                    assert(all[k] == t);
                } else if before.contains(t) {
                    let k = choose|k: int| 0 <= k < before.len() && before[k] == t;
                    assert(all[k] == t);
                } else {
                    assert(all[before.len() as int] == t);
                }
            }
        }
    }
}

/// An array whose values have one type is an array of that type, whatever nulls it holds.
pub proof fn law_homogeneous_array(s: Seq<ValueView>, i: int)
    requires
        0 <= i < s.len(),
        !(s[i] is Null),
        forall|j: int| 0 <= j < s.len() && !(s[j] is Null) ==> #[trigger] guessed(s[j]) == guessed(s[i]),
    ensures
        guessed(ValueView::Array(s)) == TypeView::Array(Box::new(guessed(s[i]))),
{
    law_guesses(s);
    let ts = guesses(s);
    let t = guessed(s[i]);
    assert(ts.contains(t));
    assert forall|k: int| 0 <= k < ts.len() implies ts[k] == t by {
        assert(ts.contains(ts[k]));
    }
    if ts.len() > 1 {
        assert(ts[0] == ts[1]);
    }
}

/// An array whose values have different types is an array of a variant of these types.
pub proof fn law_heterogeneous_array(s: Seq<ValueView>, i: int, j: int)
    requires
        0 <= i < s.len(),
        0 <= j < s.len(),
        !(s[i] is Null),
        !(s[j] is Null),
        guessed(s[i]) != guessed(s[j]),
    ensures
        guessed(ValueView::Array(s)) == TypeView::Array(
            Box::new(TypeView::Variant(sorted_types(guesses(s)))),
        ),
        guesses(s).contains(guessed(s[i])),
        guesses(s).contains(guessed(s[j])),
{
    law_guesses(s);
    let ts = guesses(s);
    assert(ts.contains(guessed(s[i])));
    assert(ts.contains(guessed(s[j])));
    let a = choose|k: int| 0 <= k < ts.len() && ts[k] == guessed(s[i]);
    let b = choose|k: int| 0 <= k < ts.len() && ts[k] == guessed(s[j]);
    assert(a != b);
}

proof fn lemma_null_between(s: Seq<ValueView>, i: int)
    requires
        0 <= i <= s.len(),
    ensures
        guesses(s.insert(i, ValueView::Null)) == guesses(s),
    decreases s.len(),
{
    let u = s.insert(i, ValueView::Null);
    if i == s.len() {
        assert(u.subrange(0, u.len() - 1) =~= s);
        assert(u[u.len() - 1] is Null);
    } else {
        let head = s.subrange(0, s.len() - 1);
        lemma_null_between(head, i);
        assert(u.subrange(0, u.len() - 1) =~= head.insert(i, ValueView::Null));
        assert(u[u.len() - 1] == s[s.len() - 1]);
    }
}

/// A null added to an array does not change its type.
pub proof fn law_nulls_do_not_matter(s: Seq<ValueView>, i: int)
    requires
        0 <= i <= s.len(),
    ensures
        guessed(ValueView::Array(s.insert(i, ValueView::Null))) == guessed(ValueView::Array(s)),
{
    lemma_null_between(s, i);
}

/// An array of nothing but nulls is an array of strings.
pub proof fn law_array_of_nulls(s: Seq<ValueView>)
    requires
        forall|i: int| 0 <= i < s.len() ==> #[trigger] s[i] is Null,
    ensures
        guessed(ValueView::Array(s)) == TypeView::Array(Box::new(TypeView::String)),
{
    law_guesses(s);
    if guesses(s).len() > 0 {
        assert(guesses(s).contains(guesses(s)[0]));
    }
}

} // verus!
