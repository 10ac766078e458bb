//! What is known of a column of JSON documents before it is written.
use vstd::prelude::*;

use crate::dynamic::{find_name, strictly_ascending, with_name};
use crate::error::{Error, Result, WriteReason};
use crate::guess::default_of;
use crate::json_paths::{
    all_patterns, cell_views, collect_rows, compile_skip_matchers, find_typed, row_views,
    rows_cells, typed_type, Cells, PathRules, Rules,
};
use crate::text::{chars_le, eq_chars, text_le, texts, to_chars};
use crate::types::{clone_strings, field_views, nullable, path_views, Type, TypeView};
use crate::values::{value_views, Value, ValueView};
use crate::variant::NULL_DISCRIMINATOR;

verus! {

/// The oldest version of the format, which tells a limit of the paths.
pub const JSON_OBJECT_VERSION_V1: u64 = 0;

/// The version of the format with paths that share a column.
pub const JSON_OBJECT_VERSION_V2: u64 = 2;

/// The version of the format with a column for each path.
pub const JSON_OBJECT_VERSION_FLATTENED: u64 = 3;

/// How many paths get columns of their own where the type tells no limit.
pub const DEFAULT_MAX_DYNAMIC_PATHS: u32 = 1024;

// ---------------------------------------------------------------------------
// Columns
// ---------------------------------------------------------------------------

/// The value of the last cell at a path.
pub open spec fn last_cell(cells: Cells, path: Seq<char>) -> Option<ValueView>
    decreases cells.len(),
{
    if cells.len() == 0 {
        None
    } else if cells.last().0 == path {
        Some(cells.last().1)
    } else {
        last_cell(cells.drop_last(), path)
    }
}

/// The values of rows at a path.
pub open spec fn path_column(rows: Seq<Cells>, path: Seq<char>, fill: ValueView) -> Seq<ValueView> {
    Seq::new(
        rows.len(),
        |r: int|
            match last_cell(rows[r], path) {
                Some(v) => v,
                None => fill,
            },
    )
}

/// Names, and those of the cells of a row whose paths have no type of their own.
pub open spec fn with_row_names(
    names: Seq<Seq<char>>,
    cells: Cells,
    typed: Seq<(Seq<char>, TypeView)>,
) -> Seq<Seq<char>>
    decreases cells.len(),
{
    if cells.len() == 0 {
        names
    } else {
        let head = with_row_names(names, cells.drop_last(), typed);
        if typed_type(typed, cells.last().0) is Some {
            head
        } else {
            with_name(head, cells.last().0)
        }
    }
}

/// The paths of all rows that have no type of their own, in order.
pub open spec fn dynamic_names(rows: Seq<Cells>, typed: Seq<(Seq<char>, TypeView)>) -> Seq<
    Seq<char>,
>
    decreases rows.len(),
{
    if rows.len() == 0 {
        Seq::empty()
    } else {
        with_row_names(dynamic_names(rows.drop_last(), typed), rows.last(), typed)
    }
}

/// Paths are listed once each, in order.
pub proof fn law_dynamic_names_ascend(rows: Seq<Cells>, typed: Seq<(Seq<char>, TypeView)>)
    ensures
        strictly_ascending(dynamic_names(rows, typed)),
    decreases rows.len(),
{
    if rows.len() > 0 {
        law_dynamic_names_ascend(rows.drop_last(), typed);
        lemma_row_names_ascend(dynamic_names(rows.drop_last(), typed), rows.last(), typed);
    }
}

proof fn lemma_row_names_ascend(
    names: Seq<Seq<char>>,
    cells: Cells,
    typed: Seq<(Seq<char>, TypeView)>,
)
    requires
        strictly_ascending(names),
    ensures
        strictly_ascending(with_row_names(names, cells, typed)),
    decreases cells.len(),
{
    if cells.len() > 0 {
        lemma_row_names_ascend(names, cells.drop_last(), typed);
        crate::dynamic::lemma_with_name(
            with_row_names(names, cells.drop_last(), typed),
            cells.last().0,
        );
    }
}

/// Whether null stands for a value that is not there.
pub open spec fn effectively_nullable(t: TypeView) -> bool {
    match t {
        TypeView::Nullable(_) => true,
        TypeView::LowCardinality(inner) => nullable(*inner),
        _ => false,
    }
}

/// What stands in the column of a type for a value that is not there.
pub open spec fn fill_of(t: TypeView) -> ValueView {
    match t {
        TypeView::Variant(_) => ValueView::Variant(NULL_DISCRIMINATOR, Box::new(ValueView::Null)),
        _ => if effectively_nullable(t) {
            ValueView::Null
        } else {
            default_of(t)
        },
    }
}

/// The last type that is told for a path.
pub open spec fn last_type(typed: Seq<(Seq<char>, TypeView)>, path: Seq<char>) -> Option<TypeView>
    decreases typed.len(),
{
    if typed.len() == 0 {
        None
    } else if typed.last().0 == path {
        Some(typed.last().1)
    } else {
        last_type(typed.drop_last(), path)
    }
}

/// The column of a path with a type of its own.
pub open spec fn typed_column(
    rows: Seq<Cells>,
    typed: Seq<(Seq<char>, TypeView)>,
    i: int,
) -> Seq<ValueView> {
    path_column(rows, typed[i].0, fill_of(last_type(typed, typed[i].0)->0))
}

/// The columns of the paths with types of their own.
pub open spec fn typed_columns(rows: Seq<Cells>, typed: Seq<(Seq<char>, TypeView)>) -> Seq<
    Seq<ValueView>,
> {
    Seq::new(typed.len(), |i: int| typed_column(rows, typed, i))
}

/// How many values are not null.
pub open spec fn frequency(column: Seq<ValueView>) -> nat
    decreases column.len(),
{
    if column.len() == 0 {
        0
    } else {
        frequency(column.drop_last()) + if column.last() is Null {
            0nat
        } else {
            1nat
        }
    }
}

/// How often a path has a value.
pub open spec fn path_frequency(rows: Seq<Cells>, path: Seq<char>) -> nat {
    frequency(path_column(rows, path, ValueView::Null))
}

/// Whether one path goes before another: the more frequent one, and of two that are
/// equally frequent the one whose name stands first.
pub open spec fn goes_before(rows: Seq<Cells>, a: Seq<char>, b: Seq<char>) -> bool {
    let fa = path_frequency(rows, a);
    let fb = path_frequency(rows, b);
    fa > fb || (fa == fb && a != b && text_le(a, b))
}

/// How many paths go before one.
pub open spec fn count_before(names: Seq<Seq<char>>, rows: Seq<Cells>, path: Seq<char>) -> nat
    decreases names.len(),
{
    if names.len() == 0 {
        0
    } else {
        count_before(names.drop_last(), rows, path) + if goes_before(rows, names.last(), path) {
            1nat
        } else {
            0nat
        }
    }
}

/// The paths of which fewer than `limit` go before, or the others.
pub open spec fn chosen_paths(
    names: Seq<Seq<char>>,
    all: Seq<Seq<char>>,
    rows: Seq<Cells>,
    limit: nat,
    keep: bool,
) -> Seq<Seq<char>>
    decreases names.len(),
{
    if names.len() == 0 {
        Seq::empty()
    } else {
        let head = chosen_paths(names.drop_last(), all, rows, limit, keep);
        if (count_before(all, rows, names.last()) < limit) == keep {
            head.push(names.last())
        } else {
            head
        }
    }
}

/// The columns of paths.
pub open spec fn path_columns(names: Seq<Seq<char>>, rows: Seq<Cells>) -> Seq<
    (Seq<char>, Seq<ValueView>),
> {
    Seq::new(names.len(), |i: int| (names[i], path_column(rows, names[i], ValueView::Null)))
}

// ---------------------------------------------------------------------------
// What is known of a column
// ---------------------------------------------------------------------------

/// The model of a [`JsonState`].
pub ghost struct JsonParts {
    pub version: Option<u64>,
    pub typed: Seq<(Seq<char>, TypeView)>,
    pub typed_columns: Seq<Seq<ValueView>>,
    pub dynamic: Seq<(Seq<char>, Seq<ValueView>)>,
    pub shared: Option<Seq<(Seq<char>, Seq<ValueView>)>>,
    pub rows: nat,
    pub taken: bool,
}

/// What is known of a column of documents: the columns of its paths.
#[derive(Debug)]
pub struct JsonState {
    /// The version of the format, if one was asked for.
    pub version: Option<u64>,
    /// The paths with types of their own.
    pub typed_paths: Vec<(String, Type)>,
    /// Their columns.
    pub typed_path_columns: Vec<Vec<Value>>,
    /// The other paths with columns of their own.
    pub dynamic_path_columns: Vec<(String, Vec<Value>)>,
    /// The paths that share a column.
    pub shared_path_columns: Option<Vec<(String, Vec<Value>)>>,
    /// The number of documents.
    pub rows: usize,
    /// Whether the columns were taken out.
    pub taken: bool,
}

/// The views of columns with their paths.
pub open spec fn named_columns(v: Seq<(String, Vec<Value>)>) -> Seq<(Seq<char>, Seq<ValueView>)> {
    Seq::new(v.len(), |i: int| (v[i].0@, value_views(v[i].1@)))
}

impl JsonState {
    /// The model of what is known.
    pub open spec fn view(&self) -> JsonParts {
        JsonParts {
            version: self.version,
            typed: field_views(self.typed_paths@),
            typed_columns: crate::variant::column_views(self.typed_path_columns@),
            dynamic: named_columns(self.dynamic_path_columns@),
            shared: match self.shared_path_columns {
                Some(v) => Some(named_columns(v@)),
                None => None,
            },
            rows: self.rows as nat,
            taken: self.taken,
        }
    }

    /// The paths with columns of their own that have no types of their own.
    pub fn dynamic_paths(&self) -> (r: Vec<String>)
        ensures
            texts(r@) == Seq::new(self@.dynamic.len(), |i: int| self@.dynamic[i].0),
    {
        let mut out: Vec<String> = Vec::new();
        let mut i: usize = 0;
        while i < self.dynamic_path_columns.len()
            invariant
                i <= self.dynamic_path_columns.len(),
                out@.len() == i,
                forall|j: int| 0 <= j < i ==> (#[trigger] out@[j])@ == self@.dynamic[j].0,
            decreases self.dynamic_path_columns.len() - i,
        {
            out.push(self.dynamic_path_columns[i].0.clone());
            i += 1;
        }
        assert(texts(out@) =~= Seq::new(self@.dynamic.len(), |i: int| self@.dynamic[i].0));
        out
    }
}

/// Whether a version has paths that share a column.
pub open spec fn shares_paths(version: Option<u64>) -> bool {
    version == Some(JSON_OBJECT_VERSION_V1) || version == Some(JSON_OBJECT_VERSION_V2)
}

/// What the cells of rows tell of a column.
pub open spec fn parts_of(
    rows: Seq<Cells>,
    typed: Seq<(Seq<char>, TypeView)>,
    max_paths: u32,
    version: Option<u64>,
) -> JsonParts {
    let names = dynamic_names(rows, typed);
    let kept = if shares_paths(version) {
        chosen_paths(names, names, rows, max_paths as nat, true)
    } else {
        names
    };
    let shared = if shares_paths(version) {
        chosen_paths(names, names, rows, max_paths as nat, false)
    } else {
        Seq::empty()
    };
    JsonParts {
        version,
        typed,
        typed_columns: typed_columns(rows, typed),
        dynamic: path_columns(kept, rows),
        shared: if shared.len() == 0 {
            None
        } else {
            Some(path_columns(shared, rows))
        },
        rows: rows.len(),
        taken: false,
    }
}

/// What values tell of a column of documents.
pub open spec fn analyzed(vs: Seq<ValueView>, t: TypeView, version: Option<u64>)
    -> core::result::Result<JsonParts, Error> {
    match t {
        TypeView::JSON {
            max_dynamic_paths,
            max_dynamic_types: _,
            typed_paths,
            skip_exact,
            skip_regex,
        } => if !all_patterns(skip_regex) {
            Err(Error::SerializeError(WriteReason::InvalidSkipPattern))
        } else {
            let rules = PathRules { typed: typed_paths, exact: skip_exact, patterns: skip_regex };
            match rows_cells(vs, rules) {
                Err(e) => Err(e),
                Ok(rows) => Ok(
                    parts_of(
                        rows,
                        typed_paths,
                        match max_dynamic_paths {
                            Some(n) => n,
                            None => DEFAULT_MAX_DYNAMIC_PATHS,
                        },
                        version,
                    ),
                ),
            }
        },
        _ => Err(Error::SerializeError(WriteReason::ExpectedJsonType)),
    }
}

// ---------------------------------------------------------------------------
// Finding it out
// ---------------------------------------------------------------------------

fn find_last(cells: &Vec<(String, Value)>, path: &Vec<char>) -> (r: Option<usize>)
    ensures
        match r {
            Some(i) => i < cells@.len() && last_cell(cell_views(cells@), path@) == Some(
                cells@[i as int].1@,
            ),
            None => last_cell(cell_views(cells@), path@) is None,
        },
{
    let ghost all = cell_views(cells@);
    let mut i: usize = cells.len();
    assert(all.take(i as int) =~= all);
    while i > 0
        invariant
            i <= cells.len(),
            all == cell_views(cells@),
            last_cell(all, path@) == last_cell(all.take(i as int), path@),
        decreases i,
    {
        i -= 1;
        proof {
            let prefix = all.take(i + 1);
            assert(prefix.drop_last() =~= all.take(i as int));
            assert(prefix.last() == (cells@[i as int].0@, cells@[i as int].1@));
        }
        let other = to_chars(cells[i].0.as_str());
        if eq_chars(&other, path) {
            return Some(i);
        }
    }
    None
}

fn make_column(rows: &Vec<Vec<(String, Value)>>, path: &String, fill: &Value) -> (r: Vec<Value>)
    ensures
        value_views(r@) == path_column(row_views(rows@), path@, fill@),
        r@.len() == rows@.len(),
{
    let chars = to_chars(path.as_str());
    let mut out: Vec<Value> = Vec::new();
    let mut i: usize = 0;
    while i < rows.len()
        invariant
            i <= rows.len(),
            chars@ == path@,
            out@.len() == i,
            forall|j: int|
                0 <= j < i ==> (#[trigger] out@[j])@ == path_column(
                    row_views(rows@),
                    path@,
                    fill@,
                )[j],
        decreases rows.len() - i,
    {
        match find_last(&rows[i], &chars) {
            Some(k) => out.push(rows[i][k].1.clone()),
            None => out.push(fill.clone()),
        }
        i += 1;
    }
    assert(value_views(out@) =~= path_column(row_views(rows@), path@, fill@));
    out
}

fn add_name(names: &mut Vec<String>, name: &String)
    ensures
        texts(final(names)@) == with_name(texts(old(names)@), name@),
{
    let ghost before = texts(names@);
    let chars = to_chars(name.as_str());
    let p: usize = find_name(names, &chars);
    if p < names.len() {
        let other = to_chars(names[p].as_str());
        assert(texts(names@)[p as int] == other@);
        if eq_chars(&other, &chars) {
            return;
        }
    }
    names.insert(p, name.clone());
    assert(texts(names@) =~= before.insert(p as int, name@));
}

fn collect_names(rows: &Vec<Vec<(String, Value)>>, typed: &Vec<(String, Type)>) -> (r: Vec<String>)
    ensures
        texts(r@) == dynamic_names(row_views(rows@), field_views(typed@)),
{
    let ghost all = row_views(rows@);
    let ghost tv = field_views(typed@);
    let mut names: Vec<String> = Vec::new();
    let mut i: usize = 0;
    assert(texts(names@) =~= Seq::<Seq<char>>::empty());
    while i < rows.len()
        invariant
            i <= rows.len(),
            all == row_views(rows@),
            tv == field_views(typed@),
            texts(names@) == dynamic_names(all.take(i as int), tv),
        decreases rows.len() - i,
    {
        let ghost start = texts(names@);
        let ghost cells = cell_views(rows@[i as int]@);
        proof {
            assert(all.take(i + 1).drop_last() =~= all.take(i as int));
            assert(all.take(i + 1).last() == cells);
        }
        let mut k: usize = 0;
        while k < rows[i].len()
            invariant
                i < rows.len(),
                k <= rows@[i as int]@.len(),
                cells == cell_views(rows@[i as int]@),
                tv == field_views(typed@),
                texts(names@) == with_row_names(start, cells.take(k as int), tv),
            decreases rows@[i as int]@.len() - k,
        {
            proof {
                assert(cells.take(k + 1).drop_last() =~= cells.take(k as int));
                assert(cells.take(k + 1).last() == (
                    rows@[i as int]@[k as int].0@,
                    rows@[i as int]@[k as int].1@,
                ));
            }
            match find_typed(typed, &rows[i][k].0) {
                Some(_) => {},
                None => add_name(&mut names, &rows[i][k].0),
            }
            k += 1;
        }
        assert(cells.take(cells.len() as int) =~= cells);
        i += 1;
    }
    assert(all.take(all.len() as int) =~= all);
    names
}

fn make_fill(t: &Type) -> (r: Value)
    ensures
        r@ == fill_of(t@),
{
    match t {
        Type::Variant(_) => {
            let inner = Value::Null;
            assert(inner@ is Null);
            Value::Variant(NULL_DISCRIMINATOR, Box::new(inner))
        },
        Type::Nullable(_) => Value::Null,
        Type::LowCardinality(inner) => if inner.is_nullable() {
            Value::Null
        } else {
            t.default_value()
        },
        _ => t.default_value(),
    }
}

fn find_last_type(typed: &Vec<(String, Type)>, path: &String) -> (r: Option<usize>)
    ensures
        match r {
            Some(i) => i < typed@.len() && last_type(field_views(typed@), path@) == Some(
                typed@[i as int].1@,
            ),
            None => last_type(field_views(typed@), path@) is None,
        },
{
    let ghost all = field_views(typed@);
    let chars = to_chars(path.as_str());
    let mut i: usize = typed.len();
    assert(all.take(i as int) =~= all);
    while i > 0
        invariant
            i <= typed.len(),
            all == field_views(typed@),
            chars@ == path@,
            last_type(all, path@) == last_type(all.take(i as int), path@),
        decreases i,
    {
        i -= 1;
        proof {
            let prefix = all.take(i + 1);
            assert(prefix.drop_last() =~= all.take(i as int));
            assert(prefix.last() == (typed@[i as int].0@, typed@[i as int].1@));
        }
        let other = to_chars(typed[i].0.as_str());
        if eq_chars(&other, &chars) {
            return Some(i);
        }
    }
    None
}

proof fn lemma_last_type_found(typed: Seq<(Seq<char>, TypeView)>, i: int)
    requires
        0 <= i < typed.len(),
    ensures
        last_type(typed, typed[i].0) is Some,
    decreases typed.len(),
{
    if i < typed.len() - 1 && typed.last().0 != typed[i].0 {
        lemma_last_type_found(typed.drop_last(), i);
        assert(typed.drop_last()[i] == typed[i]);
    }
}

fn init_typed_columns(rows: &Vec<Vec<(String, Value)>>, typed: &Vec<(String, Type)>) -> (r: Vec<
    Vec<Value>,
>)
    ensures
        crate::variant::column_views(r@) == typed_columns(row_views(rows@), field_views(typed@)),
{
    let ghost tv = field_views(typed@);
    let mut out: Vec<Vec<Value>> = Vec::new();
    let mut i: usize = 0;
    while i < typed.len()
        invariant
            i <= typed.len(),
            tv == field_views(typed@),
            out@.len() == i,
            forall|j: int|
                0 <= j < i ==> value_views((#[trigger] out@[j])@) == typed_column(
                    row_views(rows@),
                    tv,
                    j,
                ),
        decreases typed.len() - i,
    {
        proof {
            lemma_last_type_found(tv, i as int);
            assert(tv[i as int].0 == typed@[i as int].0@);
        }
        let fill = match find_last_type(typed, &typed[i].0) {
            Some(k) => make_fill(&typed[k].1),
            None => {
                assert(false);
                Value::Null
            },
        };
        out.push(make_column(rows, &typed[i].0, &fill));
        i += 1;
    }
    assert(crate::variant::column_views(out@) =~= typed_columns(row_views(rows@), tv));
    out
}

fn count_values(column: &Vec<Value>) -> (r: usize)
    ensures
        r == frequency(value_views(column@)),
{
    let ghost all = value_views(column@);
    let mut n: usize = 0;
    let mut i: usize = 0;
    while i < column.len()
        invariant
            n <= i <= column.len(),
            all == value_views(column@),
            n == frequency(all.take(i as int)),
        decreases column.len() - i,
    {
        proof {
            assert(all.take(i + 1).drop_last() =~= all.take(i as int));
            assert(all.take(i + 1).last() == column@[i as int]@);
        }
        match &column[i] {
            Value::Null => {},
            _ => n += 1,
        }
        i += 1;
    }
    assert(all.take(all.len() as int) =~= all);
    n
}

/// How often each path has a value.
fn compute_frequency(columns: &Vec<(String, Vec<Value>)>) -> (r: Vec<usize>)
    ensures
        r@.len() == columns@.len(),
        forall|i: int|
            0 <= i < r@.len() ==> (#[trigger] r@[i]) == frequency(value_views(columns@[i].1@)),
{
    let mut out: Vec<usize> = Vec::new();
    let mut i: usize = 0;
    while i < columns.len()
        invariant
            i <= columns.len(),
            out@.len() == i,
            forall|j: int|
                0 <= j < i ==> (#[trigger] out@[j]) == frequency(value_views(columns@[j].1@)),
        decreases columns.len() - i,
    {
        out.push(count_values(&columns[i].1));
        i += 1;
    }
    out
}

fn make_columns(names: &Vec<String>, rows: &Vec<Vec<(String, Value)>>) -> (r: Vec<
    (String, Vec<Value>),
>)
    ensures
        named_columns(r@) == path_columns(texts(names@), row_views(rows@)),
        r@.len() == names@.len(),
{
    let mut out: Vec<(String, Vec<Value>)> = Vec::new();
    let mut i: usize = 0;
    let null = Value::Null;
    assert(null@ is Null);
    while i < names.len()
        invariant
            i <= names.len(),
            null@ == ValueView::Null,
            out@.len() == i,
            forall|j: int|
                0 <= j < i ==> (#[trigger] out@[j]).0@ == names@[j]@ && value_views(out@[j].1@)
                    == path_column(row_views(rows@), names@[j]@, ValueView::Null),
        decreases names.len() - i,
    {
        out.push((names[i].clone(), make_column(rows, &names[i], &null)));
        i += 1;
    }
    proof {
        assert forall|j: int| 0 <= j < names@.len() implies named_columns(out@)[j] == (
        #[trigger] path_columns(texts(names@), row_views(rows@))[j]) by {
            assert(out@[j].0@ == names@[j]@);
            assert(texts(names@)[j] == names@[j]@);
        }
        assert(named_columns(out@) =~= path_columns(texts(names@), row_views(rows@)));
    }
    out
}

fn count_paths_before(
    columns: &Vec<(String, Vec<Value>)>,
    counts: &Vec<usize>,
    p: usize,
    Ghost(names): Ghost<Seq<Seq<char>>>,
    Ghost(rows): Ghost<Seq<Cells>>,
) -> (r: usize)
    requires
        p < columns@.len(),
        named_columns(columns@) == path_columns(names, rows),
        counts@.len() == columns@.len(),
        forall|i: int|
            0 <= i < counts@.len() ==> (#[trigger] counts@[i]) == frequency(
                value_views(columns@[i].1@),
            ),
    ensures
        r == count_before(names, rows, names[p as int]),
{
    let ghost all = path_columns(names, rows);
    let name = to_chars(columns[p].0.as_str());
    let mut n: usize = 0;
    let mut i: usize = 0;
    proof {
        assert(named_columns(columns@).len() == names.len());
        assert(named_columns(columns@)[p as int] == all[p as int]);
    }
    while i < columns.len()
        invariant
            n <= i <= columns.len(),
            p < columns@.len(),
            columns@.len() == names.len(),
            all == path_columns(names, rows),
            named_columns(columns@) == all,
            name@ == names[p as int],
            counts@.len() == columns@.len(),
            forall|i: int|
                0 <= i < counts@.len() ==> (#[trigger] counts@[i]) == frequency(
                    value_views(columns@[i].1@),
                ),
            n == count_before(names.take(i as int), rows, names[p as int]),
        decreases columns.len() - i,
    {
        let other = to_chars(columns[i].0.as_str());
        proof {
            assert(names.take(i + 1).drop_last() =~= names.take(i as int));
            assert(names.take(i + 1).last() == names[i as int]);
            assert(named_columns(columns@)[i as int] == all[i as int]);
            assert(named_columns(columns@)[p as int] == all[p as int]);
            assert(counts@[i as int] == path_frequency(rows, names[i as int]));
            assert(counts@[p as int] == path_frequency(rows, names[p as int]));
        }
        let before: bool = counts[i] > counts[p] || (counts[i] == counts[p] && !eq_chars(
            &other,
            &name,
        ) && chars_le(&other, &name));
        if before {
            n += 1;
        }
        i += 1;
    }
    assert(names.take(names.len() as int) =~= names);
    n
}

fn choose_paths(
    columns: &Vec<(String, Vec<Value>)>,
    limit: u32,
    keep: bool,
    Ghost(names): Ghost<Seq<Seq<char>>>,
    Ghost(rows): Ghost<Seq<Cells>>,
) -> (r: Vec<(String, Vec<Value>)>)
    requires
        named_columns(columns@) == path_columns(names, rows),
    ensures
        named_columns(r@) == path_columns(
            chosen_paths(names, names, rows, limit as nat, keep),
            rows,
        ),
{
    let ghost all = path_columns(names, rows);
    let counts = compute_frequency(columns);
    let mut out: Vec<(String, Vec<Value>)> = Vec::new();
    let mut i: usize = 0;
    proof {
        assert(named_columns(columns@).len() == names.len());
        assert(named_columns(out@) =~= path_columns(
            chosen_paths(names.take(0), names, rows, limit as nat, keep),
            rows,
        ));
    }
    while i < columns.len()
        invariant
            i <= columns.len(),
            columns@.len() == names.len(),
            all == path_columns(names, rows),
            named_columns(columns@) == all,
            counts@.len() == columns@.len(),
            forall|i: int|
                0 <= i < counts@.len() ==> (#[trigger] counts@[i]) == frequency(
                    value_views(columns@[i].1@),
                ),
            named_columns(out@) == path_columns(
                chosen_paths(names.take(i as int), names, rows, limit as nat, keep),
                rows,
            ),
        decreases columns.len() - i,
    {
        let ghost head = chosen_paths(names.take(i as int), names, rows, limit as nat, keep);
        proof {
            assert(names.take(i + 1).drop_last() =~= names.take(i as int));
            assert(names.take(i + 1).last() == names[i as int]);
            assert(named_columns(columns@)[i as int] == all[i as int]);
        }
        let n: usize = count_paths_before(columns, &counts, i, Ghost(names), Ghost(rows));
        if ((n as u64) < limit as u64) == keep {
            let ghost before = named_columns(out@);
            out.push((columns[i].0.clone(), crate::values::clone_values(&columns[i].1)));
            proof {
                assert(named_columns(out@) =~= before.push(all[i as int]));
                assert(path_columns(head.push(names[i as int]), rows) =~= before.push(
                    all[i as int],
                ));
            }
        }
        i += 1;
    }
    assert(names.take(names.len() as int) =~= names);
    out
}

fn clone_paths(v: &Vec<(String, Box<Type>)>) -> (r: Vec<(String, Type)>)
    ensures
        field_views(r@) == path_views(v@),
{
    let mut out: Vec<(String, Type)> = Vec::new();
    let mut i: usize = 0;
    while i < v.len()
        invariant
            i <= v.len(),
            out@.len() == i,
            forall|j: int|
                0 <= j < i ==> (#[trigger] out@[j]).0@ == v@[j].0@ && out@[j].1@ == v@[j].1@,
        decreases v.len() - i,
    {
        out.push((v[i].0.clone(), (*v[i].1).clone()));
        i += 1;
    }
    assert(field_views(out@) =~= path_views(v@));
    out
}

/// The rules of paths that a type tells.
pub fn typed_paths_of(t: &Type) -> (r: Vec<(String, Type)>)
    ensures
        field_views(r@) == (match t@ {
            TypeView::JSON {
                max_dynamic_paths: _,
                max_dynamic_types: _,
                typed_paths,
                skip_exact: _,
                skip_regex: _,
            } => typed_paths,
            _ => Seq::empty(),
        }),
{
    proof {
        t.lemma_view();
    }
    match t {
        Type::JSON { typed_paths, .. } => clone_paths(typed_paths),
        _ => {
            let r: Vec<(String, Type)> = Vec::new();
            assert(field_views(r@) =~= Seq::<(Seq<char>, TypeView)>::empty());
            r
        },
    }
}

/// Writes JSON documents.
pub struct JsonSerializer;

impl JsonSerializer {
    /// What values tell of a column of documents, to be written in a version.
    pub fn analyze_values_with_version(values: &Vec<Value>, type_: &Type, version: Option<u64>)
        -> (r: Result<JsonState>)
        ensures
            match r {
                Ok(st) => analyzed(value_views(values@), type_@, version) == Ok::<_, Error>(st@),
                Err(e) => analyzed(value_views(values@), type_@, version) == Err::<
                    JsonParts,
                    Error,
                >(e),
            },
    {
        proof {
            type_.lemma_view();
        }
        match type_ {
            Type::JSON {
                max_dynamic_paths,
                max_dynamic_types: _,
                typed_paths,
                skip_exact,
                skip_regex,
            } => {
                if !compile_skip_matchers(skip_regex) {
                    return Err(Error::SerializeError(WriteReason::InvalidSkipPattern));
                }
                let rules = Rules {
                    typed: clone_paths(typed_paths),
                    exact: clone_strings(skip_exact),
                    patterns: clone_strings(skip_regex),
                };
                proof {
                    assert(texts(rules.patterns@) =~= texts(skip_regex@));
                    assert forall|i: int| 0 <= i < rules.patterns@.len() implies
                        crate::json_text::pattern_valid((#[trigger] rules.patterns@[i])@) by {
                        assert(texts(rules.patterns@)[i] == rules.patterns@[i]@);
                        assert(crate::json_text::pattern_valid(texts(skip_regex@)[i]));
                    }
                }
                let rows = match collect_rows(values, &rules) {
                    Ok(r) => r,
                    Err(e) => return Err(e),
                };
                let max: u32 = match max_dynamic_paths {
                    Some(n) => *n,
                    None => DEFAULT_MAX_DYNAMIC_PATHS,
                };
                Ok(build_state(rows, rules, max, version))
            },
            _ => Err(Error::SerializeError(WriteReason::ExpectedJsonType)),
        }
    }

    /// What values tell of a column of documents.
    pub fn analyze_values(values: &Vec<Value>, type_: &Type) -> (r: Result<JsonState>)
        ensures
            match r {
                Ok(st) => analyzed(value_views(values@), type_@, None) == Ok::<_, Error>(st@),
                Err(e) => analyzed(value_views(values@), type_@, None) == Err::<JsonParts, Error>(
                    e,
                ),
            },
    {
        JsonSerializer::analyze_values_with_version(values, type_, None)
    }
}

fn build_state(
    rows: Vec<Vec<(String, Value)>>,
    rules: Rules,
    max: u32,
    version: Option<u64>,
) -> (r: JsonState)
    ensures
        r@ == parts_of(row_views(rows@), field_views(rules.typed@), max, version),
{
    let ghost rv = row_views(rows@);
    let ghost tv = field_views(rules.typed@);
    let typed_path_columns = init_typed_columns(&rows, &rules.typed);
    let names = collect_names(&rows, &rules.typed);
    let ghost all = texts(names@);
    let columns = make_columns(&names, &rows);
    let shares: bool = match version {
        Some(v) => v == JSON_OBJECT_VERSION_V1 || v == JSON_OBJECT_VERSION_V2,
        None => false,
    };
    let mut shared_path_columns: Option<Vec<(String, Vec<Value>)>> = None;
    let dynamic_path_columns = if shares {
        let shared = choose_paths(&columns, max, false, Ghost(all), Ghost(rv));
        let kept = choose_paths(&columns, max, true, Ghost(all), Ghost(rv));
        proof {
            assert(named_columns(shared@).len() == shared@.len());
            assert(path_columns(chosen_paths(all, all, rv, max as nat, false), rv).len()
                == chosen_paths(all, all, rv, max as nat, false).len());
        }
        if shared.len() > 0 {
            shared_path_columns = Some(shared);
        }
        kept
    } else {
        columns
    };
    let n: usize = rows.len();
    assert(rv.len() == n);
    JsonState {
        version,
        typed_paths: rules.typed,
        typed_path_columns,
        dynamic_path_columns,
        shared_path_columns,
        rows: n,
        taken: false,
    }
}

} // verus!
