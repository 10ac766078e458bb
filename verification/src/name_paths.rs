//! Paths that the names of JSON types tell.
use vstd::prelude::*;

use crate::dynamic::{entries_of, law_registry, registry};
use crate::error::TypeParseReason;
use crate::guess::guessed;
use crate::name_round_trip::{
    law_type_name_reads_back, name_tells, skip_path_reads, typed_path_reads,
};
use crate::name_scan::{
    is_argument, is_quiet, lemma_over_append, lemma_over_quiet, passed_over, within,
};
use crate::text::{
    is_ascii_letter, is_digit, lemma_trimmed_same, same_char, skip_front, trimmed, unquoted,
};
use crate::type_args::scan_start;
use crate::type_display::type_text;
use crate::type_order::names_differ;
use crate::type_parse::{first_space, parsed_type};
use crate::types::TypeView;
use crate::values::ValueView;

verus! {

/// Characters of ordinary paths.
pub open spec fn is_path_char(c: char) -> bool {
    is_ascii_letter(c) || is_digit(c) || c == '_' || c == '.'
}

/// An ordinary path: one that does not begin as another parameter would.
pub open spec fn is_plain_path(path: Seq<char>) -> bool {
    &&& path.len() > 0
    &&& forall|i: int| 0 <= i < path.len() ==> is_path_char(#[trigger] path[i])
    &&& !"max_"@.is_prefix_of(path)
    &&& !"SKIP"@.is_prefix_of(path)
}

proof fn lemma_first_space(s: Seq<char>, i: int, n: int)
    requires
        0 <= i <= n < s.len(),
        s[n] == ' ',
        forall|j: int| i <= j < n ==> (#[trigger] s[j]) != ' ',
    ensures
        first_space(s, i) == n,
    decreases n - i,
{
    if i < n {
        assert(s[i] != ' ');
        lemma_first_space(s, i + 1, n);
    }
}

pub(crate) proof fn lemma_unquoted_same(s: Seq<char>, q: char)
    requires
        s.len() > 0,
        s[0] != q,
        s.last() != q,
    ensures
        unquoted(s, q) == s,
{
    let f = same_char(q);
    assert(!f(s[0]));
    assert(skip_front(s, f) == s);
    assert(!f(s.last()));
}

pub(crate) proof fn lemma_path_ends(path: Seq<char>)
    requires
        is_plain_path(path),
    ensures
        is_path_char(path[0]),
        is_path_char(path.last()),
        trimmed(path) == path,
        unquoted(path, '`') == path,
        unquoted(path, '\'') == path,
        unquoted(path, '"') == path,
        passed_over(path, scan_start()) == Some(scan_start()),
{
    assert(is_path_char(path[0]));
    assert(is_path_char(path[path.len() - 1]));
    lemma_trimmed_same(path);
    lemma_unquoted_same(path, '`');
    lemma_unquoted_same(path, '\'');
    lemma_unquoted_same(path, '"');
    assert forall|i: int| 0 <= i < path.len() implies is_quiet(#[trigger] path[i]) by {
        assert(is_path_char(path[i]));
    }
    lemma_over_quiet(path, 0);
    assert(within(0) == scan_start());
}

proof fn lemma_no_prefix(p: Seq<char>, path: Seq<char>, rest: Seq<char>)
    requires
        !p.is_prefix_of(path),
        forall|i: int| 0 <= i < p.len() ==> (#[trigger] p[i]) != ' ',
    ensures
        !p.is_prefix_of(path + (seq![' '] + rest)),
{
    let s = path + (seq![' '] + rest);
    if p.is_prefix_of(s) {
        if p.len() <= path.len() {
            assert(p =~= path.subrange(0, p.len() as int)) by {
                assert(p == s.subrange(0, p.len() as int));
            }
        } else {
            assert(p[path.len() as int] == s.subrange(0, p.len() as int)[path.len() as int]);
            assert(s[path.len() as int] == ' ');
        }
    }
}

proof fn lemma_longer_prefix(p: Seq<char>, q: Seq<char>, s: Seq<char>)
    requires
        p.is_prefix_of(q),
        !p.is_prefix_of(s),
    ensures
        !q.is_prefix_of(s),
{
    if q.is_prefix_of(s) {
        assert(p =~= s.subrange(0, p.len() as int)) by {
            assert(q == s.subrange(0, q.len() as int));
            assert(p == q.subrange(0, p.len() as int));
        }
    }
}

proof fn lemma_parameter_words()
    ensures
        "max_"@.is_prefix_of("max_dynamic_paths="@),
        "max_"@.is_prefix_of("max_dynamic_types="@),
        "SKIP"@.is_prefix_of("SKIP REGEXP "@),
        "SKIP"@.is_prefix_of("SKIP "@),
        " "@ == seq![' '],
        forall|i: int| 0 <= i < "max_"@.len() ==> (#[trigger] "max_"@[i]) != ' ',
        forall|i: int| 0 <= i < "SKIP"@.len() ==> (#[trigger] "SKIP"@[i]) != ' ',
{
    reveal_strlit("max_");
    reveal_strlit("SKIP");
    reveal_strlit("max_dynamic_paths=");
    reveal_strlit("max_dynamic_types=");
    reveal_strlit("SKIP REGEXP ");
    reveal_strlit("SKIP ");
    reveal_strlit(" ");
    assert(" "@ =~= seq![' ']);
    assert("max_"@ =~= "max_dynamic_paths="@.subrange(0, 4));
    assert("max_"@ =~= "max_dynamic_types="@.subrange(0, 4));
    assert("SKIP"@ =~= "SKIP REGEXP "@.subrange(0, 4));
    assert("SKIP"@ =~= "SKIP "@.subrange(0, 4));
}

/// An ordinary path with a type is told apart from the other parameters of a JSON type.
pub proof fn law_plain_path_with_type(path: Seq<char>, t: TypeView)
    requires
        is_plain_path(path),
        is_argument(type_text(t)),
    ensures
        typed_path_reads(path, t),
{
    let ty = type_text(t);
    let s = path + " "@ + ty;
    lemma_parameter_words();
    lemma_path_ends(path);
    assert(s =~= path + (seq![' '] + ty));
    lemma_no_prefix("max_"@, path, ty);
    lemma_no_prefix("SKIP"@, path, ty);
    lemma_longer_prefix("max_"@, "max_dynamic_paths="@, s);
    lemma_longer_prefix("max_"@, "max_dynamic_types="@, s);
    lemma_longer_prefix("SKIP"@, "SKIP REGEXP "@, s);
    lemma_longer_prefix("SKIP"@, "SKIP "@, s);
    let n = path.len() as int;
    assert(s[n] == ' ');
    assert forall|j: int| 0 <= j < n implies (#[trigger] s[j]) != ' ' by {
        assert(s[j] == path[j]);
        assert(is_path_char(path[j]));
    }
    lemma_first_space(s, 0, n);
    assert(s.take(n) =~= path);
    assert(s.skip(n + 1) =~= ty);
    lemma_trimmed_same(ty);
    assert forall|i: int| 0 <= i < seq![' '].len() implies is_quiet(#[trigger] seq![' '][i]) by {}
    lemma_over_quiet(seq![' '], 0);
    assert(within(0) == scan_start());
    lemma_over_append(path, seq![' '], scan_start());
    lemma_over_append(path + seq![' '], ty, scan_start());
    assert(s =~= path + seq![' '] + ty);
    assert(s[0] == path[0]);
    assert(s.last() == ty.last());
}

/// An ordinary path to leave out is told apart from the other parameters of a JSON type.
pub proof fn law_plain_path_to_skip(path: Seq<char>)
    requires
        is_plain_path(path),
    ensures
        skip_path_reads(path),
{
    let skip = "SKIP "@;
    let s = skip + path;
    reveal_strlit("SKIP ");
    reveal_strlit("SKIP REGEXP ");
    reveal_strlit("max_dynamic_paths=");
    reveal_strlit("max_dynamic_types=");
    lemma_path_ends(path);
    assert(s[0] == 'S');
    assert(!"max_dynamic_paths="@.is_prefix_of(s)) by {
        assert("max_dynamic_paths="@[0] == 'm');
    }
    assert(!"max_dynamic_types="@.is_prefix_of(s)) by {
        assert("max_dynamic_types="@[0] == 'm');
    }
    assert(!"SKIP REGEXP "@.is_prefix_of(s)) by {
        if "SKIP REGEXP "@.is_prefix_of(s) {
            assert("SKIP REGEXP "@[11] == s.subrange(0, 12)[11]);
            assert(s[11] == path[6]);
            assert(is_path_char(path[6]));
        }
    }
    assert(skip =~= s.subrange(0, 5));
    assert(s.skip(5) =~= path);
    assert forall|i: int| 0 <= i < skip.len() implies is_quiet(#[trigger] skip[i]) by {}
    lemma_over_quiet(skip, 0);
    assert(within(0) == scan_start());
    lemma_over_append(skip, path, scan_start());
    assert(s.last() == path.last());
}

/// The names that are registered for values tell their types, where the names of the
/// guessed types do.
pub proof fn law_registered_names_tell(vs: Seq<ValueView>)
    requires
        forall|i: int|
            0 <= i < vs.len() && !(vs[i] is Null) ==> name_tells(guessed(#[trigger] vs[i])),
    ensures
        forall|k: int|
            0 <= k < registry(vs).len() ==> parsed_type(
                (#[trigger] entries_of(registry(vs))[k]).0,
            ) == Ok::<_, TypeParseReason>(entries_of(registry(vs))[k].1),
{
    law_registry(vs);
    let names = registry(vs);
    assert forall|k: int| 0 <= k < names.len() implies parsed_type(
        (#[trigger] entries_of(names)[k]).0,
    ) == Ok::<_, TypeParseReason>(entries_of(names)[k].1) by {
        let name = names[k];
        assert(names.contains(name));
        let i = choose|i: int|
            0 <= i < vs.len() && !(vs[i] is Null) && #[trigger] type_text(guessed(vs[i])) == name;
        law_type_name_reads_back(guessed(vs[i]));
    }
}

/// Types that their names tell are told apart by their names.
pub proof fn law_names_differ(ts: Seq<TypeView>)
    requires
        forall|i: int| 0 <= i < ts.len() ==> name_tells(#[trigger] ts[i]),
    ensures
        names_differ(ts),
{
    assert forall|i: int, j: int|
        0 <= i < ts.len() && 0 <= j < ts.len() && type_text(ts[i]) == type_text(
            ts[j],
        ) implies ts[i] == ts[j] by {
        law_type_name_reads_back(ts[i]);
        law_type_name_reads_back(ts[j]);
    }
}

} // verus!
