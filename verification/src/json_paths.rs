//! JSON documents as columns: one for each path to a value.
use vstd::prelude::*;
use vstd::utf8::{encode_utf8, valid_utf8};

use crate::coerce::{convert_to_type, fits_as, fitted};
use crate::error::{Error, Result, WriteReason};
use crate::float_bits::{double_of_single, single_to_double};
use crate::json_render::document_text;
use crate::json_text::{
    find_pattern, is_pattern, json_of_text, parse_json, pattern_found, pattern_valid,
};
use crate::json_value::{json_views, member_views, JsonNumber, JsonValue, JsonView};
use crate::text::{eq_chars, string_from_utf8, texts, to_chars};
use crate::types::{field_views, Type, TypeView};
use crate::values::{clone_bytes, value_views, Value, ValueView};

verus! {

// ---------------------------------------------------------------------------
// Leaves
// ---------------------------------------------------------------------------

/// The path of a member of the object at a path.
pub open spec fn member_path(path: Seq<char>, name: Seq<char>) -> Seq<char> {
    if path.len() == 0 {
        name
    } else {
        path + seq!['.'] + name
    }
}

/// The values of a document that are no objects, with their paths.
pub open spec fn leaves(j: JsonView, path: Seq<char>) -> Seq<(Seq<char>, JsonView)>
    decreases j,
{
    match j {
        JsonView::Object(m) => member_leaves(m, path),
        _ => seq![(path, j)],
    }
}

/// The same of the members of an object.
pub open spec fn member_leaves(m: Seq<(Seq<char>, JsonView)>, path: Seq<char>) -> Seq<
    (Seq<char>, JsonView),
>
    decreases m,
{
    if m.len() == 0 {
        Seq::empty()
    } else {
        member_leaves(m.subrange(0, m.len() - 1), path) + leaves(
            m.last().1,
            member_path(path, m.last().0),
        )
    }
}

fn join_path(path: &String, name: &String) -> (r: String)
    ensures
        r@ == member_path(path@, name@),
{
    let head = to_chars(path.as_str());
    let mut out = String::new();
    if head.len() > 0 {
        out.push_str(path.as_str());
        out.push('.');
    }
    out.push_str(name.as_str());
    assert(out@ =~= member_path(path@, name@));
    out
}

fn collect_leaves(j: &JsonValue, path: &String, out: &mut Vec<(String, JsonValue)>)
    ensures
        member_views(final(out)@) == member_views(old(out)@) + leaves(j@, path@),
    decreases j,
{
    let ghost start = member_views(out@);
    proof {
        j.lemma_view();
    }
    match j {
        JsonValue::Object(m) => {
            collect_member_leaves(m, path, out);
        },
        _ => {
            out.push((path.clone(), j.clone()));
            assert(member_views(out@) =~= start + seq![(path@, j@)]);
        },
    }
}

fn collect_member_leaves(
    m: &Vec<(String, JsonValue)>,
    path: &String,
    out: &mut Vec<(String, JsonValue)>,
)
    ensures
        member_views(final(out)@) == member_views(old(out)@) + member_leaves(
            member_views(m@),
            path@,
        ),
    decreases m,
{
    let ghost start = member_views(out@);
    let ghost all = member_views(m@);
    let mut i: usize = 0;
    assert(start + member_leaves(all.subrange(0, 0), path@) =~= start);
    while i < m.len()
        invariant
            i <= m.len(),
            all == member_views(m@),
            member_views(out@) == start + member_leaves(all.subrange(0, i as int), path@),
        decreases m.len() - i,
    {
        let ghost head = member_leaves(all.subrange(0, i as int), path@);
        proof {
            let here = all.subrange(0, i + 1);
            assert(here.subrange(0, here.len() - 1) =~= all.subrange(0, i as int));
            assert(here.last() == (m@[i as int].0@, m@[i as int].1@));
            assert(decreases_to!(m@ => m@[i as int]));
            assert(decreases_to!(m@[i as int] => m@[i as int].1));
        }
        let child = join_path(path, &m[i].0);
        collect_leaves(&m[i].1, &child, out);
        proof {
            let more = leaves(m@[i as int].1@, child@);
            assert(start + head + more =~= start + (head + more));
        }
        i += 1;
    }
    assert(all.subrange(0, all.len() as int) =~= all);
}

// ---------------------------------------------------------------------------
// Values of leaves
// ---------------------------------------------------------------------------

/// The value of a leaf. Truth values become small integers, and an object in an array its
/// text.
pub open spec fn leaf_value(j: JsonView) -> core::result::Result<ValueView, Error>
    decreases j,
{
    match j {
        JsonView::Null => Ok(ValueView::Null),
        JsonView::Bool(b) => Ok(
            ValueView::UInt8(
                if b {
                    1
                } else {
                    0
                },
            ),
        ),
        JsonView::Number(JsonNumber::PosInt(x)) => Ok(
            if x <= i64::MAX {
                ValueView::Int64(x as i64)
            } else {
                ValueView::UInt64(x)
            },
        ),
        JsonView::Number(JsonNumber::NegInt(x)) => Ok(ValueView::Int64(x)),
        JsonView::Number(JsonNumber::Float(x)) => Ok(ValueView::Float64(x)),
        JsonView::Number(JsonNumber::Single(x)) => Ok(
            ValueView::Float64(double_of_single(x) as u64),
        ),
        JsonView::String(s) => Ok(ValueView::String(encode_utf8(s))),
        JsonView::Array(a) => match leaf_values(a) {
            Err(e) => Err(e),
            Ok(x) => Ok(ValueView::Array(x)),
        },
        _ => Ok(ValueView::String(document_text(j))),
    }
}

/// The values of the elements of an array.
pub open spec fn leaf_values(s: Seq<JsonView>) -> core::result::Result<Seq<ValueView>, Error>
    decreases s,
{
    if s.len() == 0 {
        Ok(Seq::empty())
    } else {
        match leaf_values(s.subrange(0, s.len() - 1)) {
            Err(e) => Err(e),
            Ok(head) => match leaf_value(s.last()) {
                Err(e) => Err(e),
                Ok(x) => Ok(head.push(x)),
            },
        }
    }
}

/// The value of a leaf.
pub fn json_value_to_clickhouse_value(j: &JsonValue) -> (r: Result<Value>)
    ensures
        fits_as(r, leaf_value(j@)),
    decreases j,
{
    proof {
        j.lemma_view();
    }
    match j {
        JsonValue::Null => Ok(Value::Null),
        JsonValue::Bool(b) => Ok(
            Value::UInt8(
                if *b {
                    1
                } else {
                    0
                },
            ),
        ),
        JsonValue::Number(JsonNumber::PosInt(x)) => if *x <= i64::MAX as u64 {
            Ok(Value::Int64(*x as i64))
        } else {
            Ok(Value::UInt64(*x))
        },
        JsonValue::Number(JsonNumber::NegInt(x)) => Ok(Value::Int64(*x)),
        JsonValue::Number(JsonNumber::Float(x)) => Ok(Value::Float64(*x)),
        JsonValue::Number(JsonNumber::Single(x)) => Ok(Value::Float64(single_to_double(*x))),
        JsonValue::String(s) => Ok(Value::string(s.as_str())),
        JsonValue::Array(a) => match values_of_items(a) {
            Err(e) => Err(e),
            Ok(x) => {
                let r = Value::Array(x);
                proof {
                    r.lemma_view();
                }
                Ok(r)
            },
        },
        _ => Ok(Value::String(j.to_text())),
    }
}

proof fn lemma_leaf_values_err(s: Seq<JsonView>, n: int, e: Error)
    requires
        0 <= n <= s.len(),
        leaf_values(s.subrange(0, n)) == Err::<Seq<ValueView>, Error>(e),
    ensures
        leaf_values(s) == Err::<Seq<ValueView>, Error>(e),
    decreases s.len() - n,
{
    if n == s.len() {
        assert(s.subrange(0, n) =~= s);
    } else {
        let here = s.subrange(0, n + 1);
        assert(here.subrange(0, here.len() - 1) =~= s.subrange(0, n));
        lemma_leaf_values_err(s, n + 1, e);
    }
}

fn values_of_items(a: &Vec<JsonValue>) -> (r: Result<Vec<Value>>)
    ensures
        match r {
            Ok(v) => leaf_values(json_views(a@)) == Ok::<_, Error>(value_views(v@)),
            Err(e) => leaf_values(json_views(a@)) == Err::<Seq<ValueView>, Error>(e),
        },
    decreases a,
{
    let ghost all = json_views(a@);
    let mut out: Vec<Value> = Vec::new();
    let mut i: usize = 0;
    assert(value_views(out@) =~= Seq::<ValueView>::empty());
    while i < a.len()
        invariant
            i <= a.len(),
            all == json_views(a@),
            leaf_values(all.subrange(0, i as int)) == Ok::<_, Error>(value_views(out@)),
        decreases a.len() - i,
    {
        let ghost head = value_views(out@);
        proof {
            let here = all.subrange(0, i + 1);
            assert(here.subrange(0, here.len() - 1) =~= all.subrange(0, i as int));
            assert(here.last() == a@[i as int]@);
            assert(decreases_to!(a@ => a@[i as int]));
        }
        match json_value_to_clickhouse_value(&a[i]) {
            Err(e) => {
                proof {
                    lemma_leaf_values_err(all, i + 1, e);
                }
                return Err(e);
            },
            Ok(x) => {
                let ghost xv = x@;
                out.push(x);
                assert(value_views(out@) =~= head.push(xv));
            },
        }
        i += 1;
    }
    assert(all.subrange(0, all.len() as int) =~= all);
    Ok(out)
}

// ---------------------------------------------------------------------------
// Cells of a row
// ---------------------------------------------------------------------------

/// What a type tells of the paths of its documents.
pub ghost struct PathRules {
    /// The paths with types of their own.
    pub typed: Seq<(Seq<char>, TypeView)>,
    /// The paths that are left out.
    pub exact: Seq<Seq<char>>,
    /// Patterns of the paths that are left out.
    pub patterns: Seq<Seq<char>>,
}

/// The type of a path, if it has one of its own.
pub open spec fn typed_type(typed: Seq<(Seq<char>, TypeView)>, path: Seq<char>) -> Option<TypeView>
    decreases typed.len(),
{
    if typed.len() == 0 {
        None
    } else if typed[0].0 == path {
        Some(typed[0].1)
    } else {
        typed_type(typed.skip(1), path)
    }
}

/// Whether a path is left out.
pub open spec fn skipped(rules: PathRules, path: Seq<char>) -> bool {
    rules.exact.contains(path) || exists|i: int|
        0 <= i < rules.patterns.len() && pattern_found(#[trigger] rules.patterns[i], path)
}

/// What becomes of a leaf: nothing, a cell, or an error.
pub open spec fn leaf_cell(leaf: (Seq<char>, JsonView), rules: PathRules) -> Option<
    core::result::Result<(Seq<char>, ValueView), Error>,
> {
    match typed_type(rules.typed, leaf.0) {
        Some(t) => Some(
            match leaf_value(leaf.1) {
                Err(e) => Err(e),
                Ok(v) => match fitted(v, t) {
                    Err(e) => Err(e),
                    Ok(x) => Ok((leaf.0, x)),
                },
            },
        ),
        None => if skipped(rules, leaf.0) {
            None
        } else {
            Some(
                match leaf_value(leaf.1) {
                    Err(e) => Err(e),
                    Ok(v) => Ok((leaf.0, v)),
                },
            )
        },
    }
}

/// The cells of a row with their paths.
pub type Cells = Seq<(Seq<char>, ValueView)>;

/// The cells that leaves become.
pub open spec fn leaf_cells(all: Seq<(Seq<char>, JsonView)>, rules: PathRules)
    -> core::result::Result<Cells, Error>
    decreases all.len(),
{
    if all.len() == 0 {
        Ok(Seq::empty())
    } else {
        match leaf_cells(all.drop_last(), rules) {
            Err(e) => Err(e),
            Ok(head) => match leaf_cell(all.last(), rules) {
                None => Ok(head),
                Some(Err(e)) => Err(e),
                Some(Ok(c)) => Ok(head.push(c)),
            },
        }
    }
}

/// The document that a value holds. Null holds none.
pub open spec fn document_of(v: ValueView) -> core::result::Result<Option<JsonView>, Error> {
    match v {
        ValueView::Object(b) => match json_of_text(b) {
            Some(j) => Ok(Some(j)),
            None => Err(Error::SerializeError(WriteReason::InvalidJson)),
        },
        ValueView::Json(j) => Ok(Some(j)),
        ValueView::String(b) => if !valid_utf8(b) {
            Err(Error::SerializeError(WriteReason::InvalidUtf8))
        } else {
            match json_of_text(b) {
                Some(j) => Ok(Some(j)),
                None => Err(Error::SerializeError(WriteReason::InvalidJson)),
            }
        },
        ValueView::Null => Ok(None),
        _ => Err(Error::SerializeError(WriteReason::ExpectedJsonValue)),
    }
}

/// The cells of a document.
pub open spec fn document_cells(d: Option<JsonView>, rules: PathRules) -> core::result::Result<
    Cells,
    Error,
> {
    match d {
        None => Ok(Seq::empty()),
        Some(j) => leaf_cells(leaves(j, Seq::empty()), rules),
    }
}

/// The cells of each row.
pub open spec fn rows_cells(vs: Seq<ValueView>, rules: PathRules) -> core::result::Result<
    Seq<Cells>,
    Error,
>
    decreases vs.len(),
{
    if vs.len() == 0 {
        Ok(Seq::empty())
    } else {
        match rows_cells(vs.drop_last(), rules) {
            Err(e) => Err(e),
            Ok(head) => match document_of(vs.last()) {
                Err(e) => Err(e),
                Ok(d) => match document_cells(d, rules) {
                    Err(e) => Err(e),
                    Ok(c) => Ok(head.push(c)),
                },
            },
        }
    }
}

/// The rules of paths as they are held.
pub struct Rules {
    pub typed: Vec<(String, Type)>,
    pub exact: Vec<String>,
    pub patterns: Vec<String>,
}

impl Rules {
    /// The model of the rules.
    pub open spec fn view(&self) -> PathRules {
        PathRules {
            typed: field_views(self.typed@),
            exact: texts(self.exact@),
            patterns: texts(self.patterns@),
        }
    }

    /// Whether all patterns are patterns.
    pub open spec fn wf(&self) -> bool {
        forall|i: int| 0 <= i < self.patterns@.len() ==> pattern_valid((#[trigger] self.patterns@[i])@)
    }
}

/// Whether all texts are patterns.
pub open spec fn all_patterns(patterns: Seq<Seq<char>>) -> bool {
    forall|i: int| 0 <= i < patterns.len() ==> pattern_valid(#[trigger] patterns[i])
}

/// The views of cells.
pub open spec fn cell_views(v: Seq<(String, Value)>) -> Cells {
    Seq::new(v.len(), |i: int| (v[i].0@, v[i].1@))
}

/// The place of the type of a path.
pub(crate) fn find_typed(typed: &Vec<(String, Type)>, path: &String) -> (r: Option<usize>)
    ensures
        match r {
            Some(i) => i < typed@.len() && typed_type(field_views(typed@), path@) == Some(
                typed@[i as int].1@,
            ),
            None => typed_type(field_views(typed@), path@) is None,
        },
{
    let ghost all = field_views(typed@);
    let chars = to_chars(path.as_str());
    let mut i: usize = 0;
    assert(all.skip(0) =~= all);
    while i < typed.len()
        invariant
            i <= typed.len(),
            all == field_views(typed@),
            chars@ == path@,
            typed_type(all, path@) == typed_type(all.skip(i as int), path@),
        decreases typed.len() - i,
    {
        let other = to_chars(typed[i].0.as_str());
        proof {
            assert(all.skip(i as int)[0] == (typed@[i as int].0@, typed@[i as int].1@));
            assert(all.skip(i as int).skip(1) =~= all.skip(i + 1));
        }
        if eq_chars(&other, &chars) {
            return Some(i);
        }
        i += 1;
    }
    None
}

fn is_skipped(rules: &Rules, path: &String) -> (r: bool)
    requires
        rules.wf(),
    ensures
        r == skipped(rules@, path@),
{
    let chars = to_chars(path.as_str());
    let mut i: usize = 0;
    while i < rules.exact.len()
        invariant
            i <= rules.exact.len(),
            chars@ == path@,
            forall|j: int| 0 <= j < i ==> (#[trigger] texts(rules.exact@)[j]) != path@,
        decreases rules.exact.len() - i,
    {
        let other = to_chars(rules.exact[i].as_str());
        assert(texts(rules.exact@)[i as int] == other@);
        if eq_chars(&other, &chars) {
            assert(rules@.exact.contains(path@));
            return true;
        }
        i += 1;
    }
    assert(!rules@.exact.contains(path@));
    let mut k: usize = 0;
    while k < rules.patterns.len()
        invariant
            rules.wf(),
            k <= rules.patterns.len(),
            forall|j: int|
                0 <= j < k ==> !pattern_found(#[trigger] texts(rules.patterns@)[j], path@),
        decreases rules.patterns.len() - k,
    {
        assert(pattern_valid(rules.patterns@[k as int]@));
        if find_pattern(rules.patterns[k].as_str(), path.as_str()) {
            assert(texts(rules.patterns@)[k as int] == rules.patterns@[k as int]@);
            assert(pattern_found(rules@.patterns[k as int], path@));
            return true;
        }
        k += 1;
    }
    false
}

proof fn lemma_leaf_cells_err(
    all: Seq<(Seq<char>, JsonView)>,
    rules: PathRules,
    n: int,
    e: Error,
)
    requires
        0 <= n <= all.len(),
        leaf_cells(all.take(n), rules) == Err::<Cells, Error>(e),
    ensures
        leaf_cells(all, rules) == Err::<Cells, Error>(e),
    decreases all.len() - n,
{
    if n == all.len() {
        assert(all.take(n) =~= all);
    } else {
        assert(all.take(n + 1).drop_last() =~= all.take(n));
        lemma_leaf_cells_err(all, rules, n + 1, e);
    }
}

/// The cells of a document.
pub fn extract_paths_from_json(j: &JsonValue, rules: &Rules) -> (r: Result<Vec<(String, Value)>>)
    requires
        rules.wf(),
    ensures
        match r {
            Ok(v) => leaf_cells(leaves(j@, Seq::empty()), rules@) == Ok::<_, Error>(
                cell_views(v@),
            ),
            Err(e) => leaf_cells(leaves(j@, Seq::empty()), rules@) == Err::<Cells, Error>(e),
        },
{
    let root = String::new();
    let mut found: Vec<(String, JsonValue)> = Vec::new();
    assert(root@ =~= Seq::<char>::empty());
    collect_leaves(j, &root, &mut found);
    let ghost all = leaves(j@, Seq::empty());
    proof {
        assert(member_views(Seq::<(String, JsonValue)>::empty()) =~= Seq::<
            (Seq<char>, JsonView),
        >::empty());
        assert(member_views(found@) =~= all);
    }
    let mut out: Vec<(String, Value)> = Vec::new();
    let mut i: usize = 0;
    assert(cell_views(out@) =~= Seq::<(Seq<char>, ValueView)>::empty());
    while i < found.len()
        invariant
            i <= found.len(),
            rules.wf(),
            member_views(found@) == all,
            all == leaves(j@, Seq::empty()),
            leaf_cells(all.take(i as int), rules@) == Ok::<_, Error>(cell_views(out@)),
        decreases found.len() - i,
    {
        let ghost head = cell_views(out@);
        proof {
            assert(all.take(i + 1).drop_last() =~= all.take(i as int));
            assert(all.take(i + 1).last() == (found@[i as int].0@, found@[i as int].1@));
        }
        let place = find_typed(&rules.typed, &found[i].0);
        let skip: bool = match place {
            Some(_) => false,
            None => is_skipped(rules, &found[i].0),
        };
        if !skip {
            let value = match json_value_to_clickhouse_value(&found[i].1) {
                Ok(v) => v,
                Err(e) => {
                    proof {
                        lemma_leaf_cells_err(all, rules@, i + 1, e);
                    }
                    return Err(e);
                },
            };
            let cell = match place {
                None => value,
                Some(k) => match convert_to_type(&value, &rules.typed[k].1) {
                    Ok(v) => v,
                    Err(e) => {
                        proof {
                            lemma_leaf_cells_err(all, rules@, i + 1, e);
                        }
                        return Err(e);
                    },
                },
            };
            let ghost entry = (found@[i as int].0@, cell@);
            out.push((found[i].0.clone(), cell));
            assert(cell_views(out@) =~= head.push(entry));
        }
        i += 1;
    }
    assert(all.take(all.len() as int) =~= all);
    Ok(out)
}

/// The document that a value holds.
pub fn parse_json_value(v: &Value) -> (r: Result<Option<JsonValue>>)
    ensures
        match r {
            Ok(Some(j)) => document_of(v@) == Ok::<_, Error>(Some(j@)),
            Ok(None) => document_of(v@) == Ok::<_, Error>(None::<JsonView>),
            Err(e) => document_of(v@) == Err::<Option<JsonView>, Error>(e),
        },
{
    match v {
        Value::Object(b) => match parse_json(b) {
            Some(j) => Ok(Some(j)),
            None => Err(Error::SerializeError(WriteReason::InvalidJson)),
        },
        Value::Json(j) => Ok(Some(j.clone())),
        Value::String(b) => match string_from_utf8(clone_bytes(b)) {
            None => Err(Error::SerializeError(WriteReason::InvalidUtf8)),
            Some(_) => match parse_json(b) {
                Some(j) => Ok(Some(j)),
                None => Err(Error::SerializeError(WriteReason::InvalidJson)),
            },
        },
        Value::Null => Ok(None),
        _ => Err(Error::SerializeError(WriteReason::ExpectedJsonValue)),
    }
}

/// The views of the cells of rows.
pub open spec fn row_views(v: Seq<Vec<(String, Value)>>) -> Seq<Cells> {
    Seq::new(v.len(), |i: int| cell_views(v[i]@))
}

proof fn lemma_rows_cells_err(vs: Seq<ValueView>, rules: PathRules, n: int, e: Error)
    requires
        0 <= n <= vs.len(),
        rows_cells(vs.take(n), rules) == Err::<Seq<Cells>, Error>(e),
    ensures
        rows_cells(vs, rules) == Err::<Seq<Cells>, Error>(e),
    decreases vs.len() - n,
{
    if n == vs.len() {
        assert(vs.take(n) =~= vs);
    } else {
        assert(vs.take(n + 1).drop_last() =~= vs.take(n));
        lemma_rows_cells_err(vs, rules, n + 1, e);
    }
}

/// The cells of each row.
pub fn collect_rows(values: &Vec<Value>, rules: &Rules) -> (r: Result<Vec<Vec<(String, Value)>>>)
    requires
        rules.wf(),
    ensures
        match r {
            Ok(v) => rows_cells(value_views(values@), rules@) == Ok::<_, Error>(row_views(v@)),
            Err(e) => rows_cells(value_views(values@), rules@) == Err::<Seq<Cells>, Error>(e),
        },
{
    let ghost all = value_views(values@);
    let mut out: Vec<Vec<(String, Value)>> = Vec::new();
    let mut i: usize = 0;
    assert(row_views(out@) =~= Seq::<Cells>::empty());
    while i < values.len()
        invariant
            i <= values.len(),
            rules.wf(),
            all == value_views(values@),
            rows_cells(all.take(i as int), rules@) == Ok::<_, Error>(row_views(out@)),
        decreases values.len() - i,
    {
        let ghost head = row_views(out@);
        proof {
            assert(all.take(i + 1).drop_last() =~= all.take(i as int));
            assert(all.take(i + 1).last() == values@[i as int]@);
        }
        let doc = match parse_json_value(&values[i]) {
            Ok(d) => d,
            Err(e) => {
                proof {
                    lemma_rows_cells_err(all, rules@, i + 1, e);
                }
                return Err(e);
            },
        };
        let mut cells: Vec<(String, Value)> = Vec::new();
        assert(cell_views(cells@) =~= Seq::<(Seq<char>, ValueView)>::empty());
        if let Some(j) = &doc {
            cells = match extract_paths_from_json(j, rules) {
                Ok(c) => c,
                Err(e) => {
                    proof {
                        lemma_rows_cells_err(all, rules@, i + 1, e);
                    }
                    return Err(e);
                },
            };
        }
        let ghost cv = cell_views(cells@);
        out.push(cells);
        assert(row_views(out@) =~= head.push(cv));
        i += 1;
    }
    assert(all.take(all.len() as int) =~= all);
    Ok(out)
}

/// Takes the patterns of the paths that are left out, if all of them are patterns.
pub fn compile_skip_matchers(patterns: &Vec<String>) -> (r: bool)
    ensures
        r == all_patterns(texts(patterns@)),
{
    let mut i: usize = 0;
    while i < patterns.len()
        invariant
            i <= patterns.len(),
            forall|j: int| 0 <= j < i ==> pattern_valid(#[trigger] texts(patterns@)[j]),
        decreases patterns.len() - i,
    {
        assert(texts(patterns@)[i as int] == patterns@[i as int]@);
        if !is_pattern(patterns[i].as_str()) {
            assert(!pattern_valid(texts(patterns@)[i as int]));
            return false;
        }
        i += 1;
    }
    true
}

} // verus!
