//! The words that the names of types begin with.
use vstd::prelude::*;

use crate::error::TypeParseReason;
use crate::name_scan::{is_argument, is_word, lemma_word, lemma_word_argument, word_from};
use crate::text::{is_white, lemma_trimmed_same};
use crate::type_display::type_text;
use crate::type_parse::{parsed_type, plain_type, type_with_args};
use crate::types::TypeView;

verus! {

/// How long a word is, and its first and its last letter.
pub open spec fn marks(s: Seq<char>) -> (nat, char, char) {
    (s.len(), s[0], s.last())
}

/// The words that name types alone.
pub(crate) proof fn lemma_plain_marks()
    ensures
        marks("Int8"@) == (4nat, 'I', '8'),
        marks("Int16"@) == (5nat, 'I', '6'),
        marks("Int32"@) == (5nat, 'I', '2'),
        marks("Int64"@) == (5nat, 'I', '4'),
        marks("Int128"@) == (6nat, 'I', '8'),
        marks("Int256"@) == (6nat, 'I', '6'),
        marks("Bool"@) == (4nat, 'B', 'l'),
        marks("UInt8"@) == (5nat, 'U', '8'),
        marks("UInt16"@) == (6nat, 'U', '6'),
        marks("UInt32"@) == (6nat, 'U', '2'),
        marks("UInt64"@) == (6nat, 'U', '4'),
        marks("UInt128"@) == (7nat, 'U', '8'),
        marks("UInt256"@) == (7nat, 'U', '6'),
        marks("Float32"@) == (7nat, 'F', '2'),
        marks("Float64"@) == (7nat, 'F', '4'),
        marks("String"@) == (6nat, 'S', 'g'),
        marks("UUID"@) == (4nat, 'U', 'D'),
        marks("Uuid"@) == (4nat, 'U', 'd'),
        marks("uuid"@) == (4nat, 'u', 'd'),
        marks("Date"@) == (4nat, 'D', 'e'),
        marks("Date32"@) == (6nat, 'D', '2'),
        marks("IPv4"@) == (4nat, 'I', '4'),
        marks("IPv6"@) == (4nat, 'I', '6'),
        marks("Point"@) == (5nat, 'P', 't'),
        marks("Ring"@) == (4nat, 'R', 'g'),
        marks("Polygon"@) == (7nat, 'P', 'n'),
        marks("MultiPolygon"@) == (12nat, 'M', 'n'),
        marks("Object"@) == (6nat, 'O', 't'),
        marks("Json"@) == (4nat, 'J', 'n'),
        marks("OBJECT"@) == (6nat, 'O', 'T'),
        marks("DateTime"@) == (8nat, 'D', 'e'),
        marks("JSON"@) == (4nat, 'J', 'N'),
        marks("Dynamic"@) == (7nat, 'D', 'c'),
{
    reveal_strlit("Int8");
    reveal_strlit("Int16");
    reveal_strlit("Int32");
    reveal_strlit("Int64");
    reveal_strlit("Int128");
    reveal_strlit("Int256");
    reveal_strlit("Bool");
    reveal_strlit("UInt8");
    reveal_strlit("UInt16");
    reveal_strlit("UInt32");
    reveal_strlit("UInt64");
    reveal_strlit("UInt128");
    reveal_strlit("UInt256");
    reveal_strlit("Float32");
    reveal_strlit("Float64");
    reveal_strlit("String");
    reveal_strlit("UUID");
    reveal_strlit("Uuid");
    reveal_strlit("uuid");
    reveal_strlit("Date");
    reveal_strlit("Date32");
    reveal_strlit("IPv4");
    reveal_strlit("IPv6");
    reveal_strlit("Point");
    reveal_strlit("Ring");
    reveal_strlit("Polygon");
    reveal_strlit("MultiPolygon");
    reveal_strlit("Object");
    reveal_strlit("Json");
    reveal_strlit("OBJECT");
    reveal_strlit("DateTime");
    reveal_strlit("JSON");
    reveal_strlit("Dynamic");
}

/// The words that name types with arguments.
pub(crate) proof fn lemma_call_marks()
    ensures
        marks("Object"@) == (6nat, 'O', 't'),
        marks("Decimal"@) == (7nat, 'D', 'l'),
        marks("Decimal32"@) == (9nat, 'D', '2'),
        marks("Decimal64"@) == (9nat, 'D', '4'),
        marks("Decimal128"@) == (10nat, 'D', '8'),
        marks("Decimal256"@) == (10nat, 'D', '6'),
        marks("FixedString"@) == (11nat, 'F', 'g'),
        marks("DateTime"@) == (8nat, 'D', 'e'),
        marks("DateTime64"@) == (10nat, 'D', '4'),
        marks("Enum8"@) == (5nat, 'E', '8'),
        marks("Enum16"@) == (6nat, 'E', '6'),
        marks("LowCardinality"@) == (14nat, 'L', 'y'),
        marks("Array"@) == (5nat, 'A', 'y'),
        marks("Nullable"@) == (8nat, 'N', 'e'),
        marks("Tuple"@) == (5nat, 'T', 'e'),
        marks("Map"@) == (3nat, 'M', 'p'),
        marks("Variant"@) == (7nat, 'V', 't'),
        marks("Dynamic"@) == (7nat, 'D', 'c'),
        marks("JSON"@) == (4nat, 'J', 'N'),
        marks("Nested"@) == (6nat, 'N', 'd'),
{
    reveal_strlit("Object");
    reveal_strlit("Decimal");
    reveal_strlit("Decimal32");
    reveal_strlit("Decimal64");
    reveal_strlit("Decimal128");
    reveal_strlit("Decimal256");
    reveal_strlit("FixedString");
    reveal_strlit("DateTime");
    reveal_strlit("DateTime64");
    reveal_strlit("Enum8");
    reveal_strlit("Enum16");
    reveal_strlit("LowCardinality");
    reveal_strlit("Array");
    reveal_strlit("Nullable");
    reveal_strlit("Tuple");
    reveal_strlit("Map");
    reveal_strlit("Variant");
    reveal_strlit("Dynamic");
    reveal_strlit("JSON");
    reveal_strlit("Nested");
}

/// Names of types of numbers.
pub(crate) proof fn lemma_number_words()
    ensures
        is_word("Int8"@),
        is_word("Int16"@),
        is_word("Int32"@),
        is_word("Int64"@),
        is_word("Int128"@),
        is_word("Int256"@),
        is_word("UInt8"@),
        is_word("UInt16"@),
        is_word("UInt32"@),
        is_word("UInt64"@),
        is_word("UInt128"@),
        is_word("UInt256"@),
        is_word("Float32"@),
        is_word("Float64"@),
{
    reveal_with_fuel(word_from, 16);
    reveal_strlit("Int8");
    reveal_strlit("Int16");
    reveal_strlit("Int32");
    reveal_strlit("Int64");
    reveal_strlit("Int128");
    reveal_strlit("Int256");
    reveal_strlit("UInt8");
    reveal_strlit("UInt16");
    reveal_strlit("UInt32");
    reveal_strlit("UInt64");
    reveal_strlit("UInt128");
    reveal_strlit("UInt256");
    reveal_strlit("Float32");
    reveal_strlit("Float64");
}

/// Names of other types without arguments.
pub(crate) proof fn lemma_other_words()
    ensures
        is_word("String"@),
        is_word("UUID"@),
        is_word("Date"@),
        is_word("Date32"@),
        is_word("IPv4"@),
        is_word("IPv6"@),
        is_word("Point"@),
        is_word("Ring"@),
        is_word("Polygon"@),
        is_word("MultiPolygon"@),
        is_word("Object"@),
        is_word("JSON"@),
        is_word("Dynamic"@),
{
    reveal_with_fuel(word_from, 16);
    reveal_strlit("String");
    reveal_strlit("UUID");
    reveal_strlit("Date");
    reveal_strlit("Date32");
    reveal_strlit("IPv4");
    reveal_strlit("IPv6");
    reveal_strlit("Point");
    reveal_strlit("Ring");
    reveal_strlit("Polygon");
    reveal_strlit("MultiPolygon");
    reveal_strlit("Object");
    reveal_strlit("JSON");
    reveal_strlit("Dynamic");
}

/// Names of types of numbers, texts and times before their arguments.
pub(crate) proof fn lemma_call_words_a()
    ensures
        is_word("Decimal32"@),
        "Decimal32("@ == "Decimal32"@ + seq!['('],
        is_word("Decimal64"@),
        "Decimal64("@ == "Decimal64"@ + seq!['('],
        is_word("Decimal128"@),
        "Decimal128("@ == "Decimal128"@ + seq!['('],
        is_word("Decimal256"@),
        "Decimal256("@ == "Decimal256"@ + seq!['('],
        is_word("FixedString"@),
        "FixedString("@ == "FixedString"@ + seq!['('],
        is_word("DateTime"@),
        "DateTime("@ == "DateTime"@ + seq!['('],
        is_word("DateTime64"@),
        "DateTime64("@ == "DateTime64"@ + seq!['('],
        is_word("Enum8"@),
        "Enum8("@ == "Enum8"@ + seq!['('],
        is_word("Enum16"@),
        "Enum16("@ == "Enum16"@ + seq!['('],
{
    reveal_with_fuel(word_from, 16);
    reveal_strlit("Decimal32");
    reveal_strlit("Decimal32(");
    assert("Decimal32("@ =~= "Decimal32"@ + seq!['(']);
    reveal_strlit("Decimal64");
    reveal_strlit("Decimal64(");
    assert("Decimal64("@ =~= "Decimal64"@ + seq!['(']);
    reveal_strlit("Decimal128");
    reveal_strlit("Decimal128(");
    assert("Decimal128("@ =~= "Decimal128"@ + seq!['(']);
    reveal_strlit("Decimal256");
    reveal_strlit("Decimal256(");
    assert("Decimal256("@ =~= "Decimal256"@ + seq!['(']);
    reveal_strlit("FixedString");
    reveal_strlit("FixedString(");
    assert("FixedString("@ =~= "FixedString"@ + seq!['(']);
    reveal_strlit("DateTime");
    reveal_strlit("DateTime(");
    assert("DateTime("@ =~= "DateTime"@ + seq!['(']);
    reveal_strlit("DateTime64");
    reveal_strlit("DateTime64(");
    assert("DateTime64("@ =~= "DateTime64"@ + seq!['(']);
    reveal_strlit("Enum8");
    reveal_strlit("Enum8(");
    assert("Enum8("@ =~= "Enum8"@ + seq!['(']);
    reveal_strlit("Enum16");
    reveal_strlit("Enum16(");
    assert("Enum16("@ =~= "Enum16"@ + seq!['(']);
}

/// Names of types that are made of others before their arguments.
pub(crate) proof fn lemma_call_words_b()
    ensures
        is_word("LowCardinality"@),
        "LowCardinality("@ == "LowCardinality"@ + seq!['('],
        is_word("Array"@),
        "Array("@ == "Array"@ + seq!['('],
        is_word("Nullable"@),
        "Nullable("@ == "Nullable"@ + seq!['('],
        is_word("Tuple"@),
        "Tuple("@ == "Tuple"@ + seq!['('],
        is_word("Map"@),
        "Map("@ == "Map"@ + seq!['('],
        is_word("Variant"@),
        "Variant("@ == "Variant"@ + seq!['('],
        is_word("Dynamic"@),
        "Dynamic("@ == "Dynamic"@ + seq!['('],
        is_word("JSON"@),
        "JSON("@ == "JSON"@ + seq!['('],
{
    reveal_with_fuel(word_from, 16);
    reveal_strlit("LowCardinality");
    reveal_strlit("LowCardinality(");
    assert("LowCardinality("@ =~= "LowCardinality"@ + seq!['(']);
    reveal_strlit("Array");
    reveal_strlit("Array(");
    assert("Array("@ =~= "Array"@ + seq!['(']);
    reveal_strlit("Nullable");
    reveal_strlit("Nullable(");
    assert("Nullable("@ =~= "Nullable"@ + seq!['(']);
    reveal_strlit("Tuple");
    reveal_strlit("Tuple(");
    assert("Tuple("@ =~= "Tuple"@ + seq!['(']);
    reveal_strlit("Map");
    reveal_strlit("Map(");
    assert("Map("@ =~= "Map"@ + seq!['(']);
    reveal_strlit("Variant");
    reveal_strlit("Variant(");
    assert("Variant("@ =~= "Variant"@ + seq!['(']);
    reveal_strlit("Dynamic");
    reveal_strlit("Dynamic(");
    assert("Dynamic("@ =~= "Dynamic"@ + seq!['(']);
    reveal_strlit("JSON");
    reveal_strlit("JSON(");
    assert("JSON("@ =~= "JSON"@ + seq!['(']);
}

/// Types whose names are words.
pub open spec fn is_plain(t: TypeView) -> bool {
    match t {
        TypeView::Int8 => true,
        TypeView::Int16 => true,
        TypeView::Int32 => true,
        TypeView::Int64 => true,
        TypeView::Int128 => true,
        TypeView::Int256 => true,
        TypeView::UInt8 => true,
        TypeView::UInt16 => true,
        TypeView::UInt32 => true,
        TypeView::UInt64 => true,
        TypeView::UInt128 => true,
        TypeView::UInt256 => true,
        TypeView::Float32 => true,
        TypeView::Float64 => true,
        TypeView::String => true,
        TypeView::Uuid => true,
        TypeView::Date => true,
        TypeView::Date32 => true,
        TypeView::Ipv4 => true,
        TypeView::Ipv6 => true,
        TypeView::Point => true,
        TypeView::Ring => true,
        TypeView::Polygon => true,
        TypeView::MultiPolygon => true,
        TypeView::Object => true,
        _ => false,
    }
}

/// A word is read as the type that it names.
pub(crate) proof fn lemma_read_word(id: Seq<char>)
    requires
        is_word(id),
    ensures
        parsed_type(id) == plain_type(id),
{
    lemma_word(id, Seq::empty());
    assert(id + Seq::<char>::empty() =~= id);
    lemma_trimmed_same(Seq::empty());
}

/// A word with an argument list is read as the type that it names with the arguments.
pub(crate) proof fn lemma_read_call(id: Seq<char>, inner: Seq<char>)
    requires
        is_word(id),
    ensures
        parsed_type(id + (seq!['('] + inner + seq![')'])) == type_with_args(
            id,
            seq!['('] + inner + seq![')'],
            (id + (seq!['('] + inner + seq![')'])).len(),
        ),
{
    let rest = seq!['('] + inner + seq![')'];
    lemma_word(id, rest);
    assert(!is_white('(') && !is_white(')'));
    assert(rest[0] == '(' && rest.last() == ')');
    lemma_trimmed_same(rest);
}

/// The names of plain types are read back.
pub(crate) proof fn lemma_plain_reads_back(t: TypeView)
    requires
        is_plain(t),
    ensures
        parsed_type(type_text(t)) == Ok::<_, TypeParseReason>(t),
        is_argument(type_text(t)),
{
    lemma_number_words();
    lemma_other_words();
    lemma_plain_marks();
    let id = type_text(t);
    lemma_read_word(id);
    lemma_word_argument(id);
}

} // verus!
