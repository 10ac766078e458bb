//! How the names of types with named fields are read.
use vstd::prelude::*;

use crate::error::TypeParseReason;
use crate::name_scan::{
    is_argument, is_word, lemma_ident_run, lemma_list, lemma_over_append, lemma_over_one,
    lemma_over_quiet, lemma_trimmed_space, lemma_word, within,
};
use crate::name_words::lemma_read_call;
use crate::text::is_ascii_letter;
use crate::type_args::{ident_end, is_ident_char, scan_start};
use crate::type_display::joined;
use crate::type_parse::{field_type_text, nested_types, parsed_type, tuple_types};
use crate::types::TypeView;

verus! {

/// Names of fields, each with a space and the name of its type behind it.
pub open spec fn fields_of(names: Seq<Seq<char>>, texts: Seq<Seq<char>>) -> Seq<Seq<char>> {
    Seq::new(names.len(), |i: int| names[i] + seq![' '] + texts[i])
}

/// Whether the names are words, and the texts behind them name the types.
pub open spec fn are_fields(names: Seq<Seq<char>>, texts: Seq<Seq<char>>, ts: Seq<TypeView>) -> bool {
    &&& names.len() == texts.len() == ts.len()
    &&& forall|i: int|
        0 <= i < names.len() ==> is_word(#[trigger] names[i]) && is_argument(texts[i])
            && parsed_type(texts[i]) == Ok::<_, TypeParseReason>(ts[i])
}

proof fn lemma_field(name: Seq<char>, text: Seq<char>)
    requires
        is_word(name),
        is_argument(text),
        parsed_type(text) is Ok,
    ensures
        is_argument(name + seq![' '] + text),
        field_type_text(name + seq![' '] + text) == Some(text),
        parsed_type(name + seq![' '] + text) is Err,
{
    let s = name + seq![' '] + text;
    let n = name.len() as int;
    lemma_word(name, Seq::empty());
    assert(name + Seq::<char>::empty() =~= name);
    assert(!is_ident_char(' ', false));
    assert(s[n] == ' ');
    lemma_name_chars(name);
    assert forall|j: int| 0 <= j < n implies is_ident_char(#[trigger] s[j], j == 0) by {
        assert(s[j] == name[j]);
    }
    lemma_ident_run(s, 0, n);
    assert(s.skip(n) =~= seq![' '] + text);
    lemma_trimmed_space(text);
    lemma_over_quiet(name, 0);
    lemma_over_one(' ', within(0));
    assert(within(0) == scan_start());
    lemma_over_append(name, seq![' '], within(0));
    lemma_over_append(name + seq![' '], text, within(0));
    assert(s[0] == name[0]);
    assert(s.last() == text.last());
    assert(ident_end(text, 0) != 0);
    assert(is_ident_char(text[0], true));
    assert(text[0] != '(');
}

proof fn lemma_name_chars(name: Seq<char>)
    requires
        is_word(name),
    ensures
        forall|j: int| 0 <= j < name.len() ==> is_ident_char(#[trigger] name[j], j == 0),
{
    crate::name_scan::lemma_word_from(name, 0);
    assert(is_ascii_letter(name[0]));
}

proof fn lemma_types_of_fields(
    names: Seq<Seq<char>>,
    texts: Seq<Seq<char>>,
    ts: Seq<TypeView>,
    len: nat,
)
    requires
        are_fields(names, texts, ts),
        forall|i: int| 0 <= i < names.len() ==> #[trigger] fields_of(names, texts)[i].len() < len,
    ensures
        nested_types(fields_of(names, texts), len) == Ok::<_, TypeParseReason>(ts),
        tuple_types(fields_of(names, texts), len) == Ok::<_, TypeParseReason>(ts),
    decreases names.len(),
{
    let args = fields_of(names, texts);
    if names.len() == 0 {
        assert(ts =~= Seq::<TypeView>::empty());
    } else {
        let names1 = names.skip(1);
        let texts1 = texts.skip(1);
        let ts1 = ts.skip(1);
        assert(is_word(names[0]));
        lemma_field(names[0], texts[0]);
        assert(args[0] == names[0] + seq![' '] + texts[0]);
        assert(args.skip(1) =~= fields_of(names1, texts1));
        assert forall|i: int| 0 <= i < names1.len() implies is_word(#[trigger] names1[i])
            && is_argument(texts1[i]) && parsed_type(texts1[i]) == Ok::<_, TypeParseReason>(
            ts1[i],
        ) by {
            assert(names1[i] == names[i + 1]);
        }
        assert forall|i: int| 0 <= i < names1.len() implies #[trigger] fields_of(
            names1,
            texts1,
        )[i].len() < len by {
            assert(fields_of(names1, texts1)[i] == args[i + 1]);
        }
        lemma_types_of_fields(names1, texts1, ts1, len);
        assert(seq![ts[0]] + ts1 =~= ts);
    }
}

proof fn lemma_joined_len(parts: Seq<Seq<char>>)
    ensures
        forall|i: int| 0 <= i < parts.len() ==> #[trigger] parts[i].len() <= joined(parts).len(),
    decreases parts.len(),
{
    if parts.len() > 1 {
        let front = parts.drop_last();
        lemma_joined_len(front);
        assert forall|i: int| 0 <= i < parts.len() implies #[trigger] parts[i].len() <= joined(
            parts,
        ).len() by {
            if i < front.len() {
                assert(parts[i] == front[i]);
            }
        }
    }
}

/// Columns that are nested are read as an array of tuples, which have the types of the columns in
/// their order. A tuple whose fields have names is read as the tuple of their types.
pub proof fn law_types_with_named_fields(
    names: Seq<Seq<char>>,
    texts: Seq<Seq<char>>,
    ts: Seq<TypeView>,
)
    requires
        names.len() > 0,
        are_fields(names, texts, ts),
    ensures
        parsed_type("Nested("@ + joined(fields_of(names, texts)) + ")"@) == Ok::<
            _,
            TypeParseReason,
        >(TypeView::Array(Box::new(TypeView::Tuple(ts)))),
        parsed_type("Tuple("@ + joined(fields_of(names, texts)) + ")"@) == Ok::<
            _,
            TypeParseReason,
        >(TypeView::Tuple(ts)),
{
    let args = fields_of(names, texts);
    let inner = joined(args);
    assert forall|i: int| 0 <= i < args.len() implies is_argument(#[trigger] args[i]) by {
        assert(is_word(names[i]));
        lemma_field(names[i], texts[i]);
    }
    lemma_list(args);
    lemma_joined_len(args);
    let rest = seq!['('] + inner + seq![')'];
    lemma_field_words();
    reveal_strlit(")");
    assert("Nested("@ + inner + ")"@ =~= "Nested"@ + rest);
    assert("Tuple("@ + inner + ")"@ =~= "Tuple"@ + rest);
    lemma_read_call("Nested"@, inner);
    lemma_read_call("Tuple"@, inner);
    let a: nat = ("Nested"@ + rest).len();
    let b: nat = ("Tuple"@ + rest).len();
    assert forall|i: int| 0 <= i < names.len() implies #[trigger] args[i].len() < a && args[i].len()
        < b by {
        assert(args[i].len() <= inner.len());
    }
    lemma_types_of_fields(names, texts, ts, a);
    lemma_types_of_fields(names, texts, ts, b);
    lemma_with_fields(rest, a, b);
}

proof fn lemma_field_words()
    ensures
        is_word("Nested"@),
        is_word("Tuple"@),
        "Nested("@ == "Nested"@ + seq!['('],
        "Tuple("@ == "Tuple"@ + seq!['('],
{
    reveal_with_fuel(crate::name_scan::word_from, 8);
    reveal_strlit("Nested");
    reveal_strlit("Nested(");
    reveal_strlit("Tuple");
    reveal_strlit("Tuple(");
    assert("Nested("@ =~= "Nested"@ + seq!['(']);
    assert("Tuple("@ =~= "Tuple"@ + seq!['(']);
}

#[verifier::spinoff_prover]
#[verifier::rlimit(50)]
proof fn lemma_with_fields(rest: Seq<char>, a: nat, b: nat)
    ensures
        crate::type_args::variable_args(rest) matches Ok(args) ==> args.len() > 0 ==> {
            &&& nested_types(args, a) matches Ok(ts) ==> crate::type_parse::type_with_args(
                "Nested"@,
                rest,
                a,
            ) == Ok::<_, TypeParseReason>(TypeView::Array(Box::new(TypeView::Tuple(ts))))
            &&& tuple_types(args, b) matches Ok(ts) ==> crate::type_parse::type_with_args(
                "Tuple"@,
                rest,
                b,
            ) == Ok::<_, TypeParseReason>(TypeView::Tuple(ts))
        },
{
    reveal_strlit("Nested");
    reveal_strlit("Tuple");
    reveal_strlit("Object");
    reveal_strlit("Decimal");
    reveal_strlit("Decimal32");
    reveal_strlit("Decimal64");
    reveal_strlit("Decimal128");
    reveal_strlit("Decimal256");
    reveal_strlit("FixedString");
    reveal_strlit("DateTime");
    reveal_strlit("DateTime64");
    reveal_strlit("Enum8");
    reveal_strlit("Enum16");
    reveal_strlit("LowCardinality");
    reveal_strlit("Array");
    reveal_strlit("Nullable");
    reveal_strlit("Map");
    reveal_strlit("Variant");
    reveal_strlit("Dynamic");
    reveal_strlit("JSON");
    assert("Tuple"@[0] == 'T');
    assert("Nested"@[0] == 'N');
    assert("Nested"@[1] == 'e');
    assert("Nullable"@[1] == 'u');
    assert("Object"@[0] == 'O' && "Decimal"@[0] == 'D' && "Decimal32"@[0] == 'D');
    assert("Decimal64"@[0] == 'D' && "Decimal128"@[0] == 'D' && "Decimal256"@[0] == 'D');
    assert("FixedString"@[0] == 'F' && "DateTime"@[0] == 'D' && "DateTime64"@[0] == 'D');
    assert("Enum8"@[0] == 'E' && "Enum16"@[0] == 'E' && "LowCardinality"@[0] == 'L');
    assert("Array"@[0] == 'A' && "Nullable"@[0] == 'N' && "Map"@[0] == 'M');
    assert("Variant"@[0] == 'V' && "Dynamic"@[0] == 'D' && "JSON"@[0] == 'J');
}

/// An identifier begins with a letter, an underscore or a dollar sign, has those and digits behind
/// it, and ends before anything else: a blank, a point, a comma, a quote or a parenthesis.
pub proof fn law_identifiers(name: Seq<char>, rest: Seq<char>)
    requires
        forall|i: int|
            0 <= i < name.len() ==> 'a' <= (#[trigger] name[i]) <= 'z' || 'A' <= name[i] <= 'Z'
                || name[i] == '_' || name[i] == '$' || ('0' <= name[i] <= '9' && i > 0),
        rest.len() > 0 ==> rest[0] == ' ' || rest[0] == '.' || rest[0] == ',' || rest[0] == '\''
            || rest[0] == '(' || rest[0] == ')' || rest[0] == '-' || rest[0] == '=' || (name.len()
            == 0 && '0' <= rest[0] <= '9'),
    ensures
        ident_end(name + rest, 0) == name.len(),
{
    let s = name + rest;
    let n = name.len() as int;
    assert forall|j: int| 0 <= j < n implies is_ident_char(#[trigger] s[j], j == 0) by {
        assert(s[j] == name[j]);
    }
    if rest.len() > 0 {
        assert(s[n] == rest[0]);
    }
    lemma_ident_run(s, 0, n);
}

} // verus!
