//! Reading types from their names.
use vstd::prelude::*;
use vstd::slice::slice_subrange;

use crate::error::{Error, Result, TypeParseReason};
use crate::text::{
    after_prefix, eq_str, from_chars, is_white, is_white_char, parse_int, parse_uint, parsed_int,
    parsed_uint, strip_prefix, texts, to_chars, trim, trimmed, unquote, unquoted,
};
use crate::type_args::{
    args_inner, fixed_args, fixed_slices, ident_end, ident_len, in_parens, lemma_args_shorter,
    slices, variable_args, variable_slices,
};
use crate::types::{
    options16, options8, parse_zone, path_views, type_views, utc, utc_zone, zone_of_name, Type,
    TypeView,
};

verus! {

// ---------------------------------------------------------------------------
// Options of enumerations
// ---------------------------------------------------------------------------

/// What is expected next among the options of an enumeration.
#[derive(Clone, Copy, PartialEq, Eq, Structural)]
pub enum EnumParseState {
    ExpectQuote,
    InName,
    ExpectEqual,
    InValue,
}

/// A scan of the options of an enumeration.
pub ghost struct EnumScan {
    pub state: EnumParseState,
    pub name: Seq<char>,
    pub value: Seq<char>,
    pub escaped: bool,
    pub options: Seq<(Seq<char>, int)>,
}

/// The scan before the first option.
pub open spec fn enum_start() -> EnumScan {
    EnumScan {
        state: EnumParseState::ExpectQuote,
        name: Seq::empty(),
        value: Seq::empty(),
        escaped: false,
        options: Seq::empty(),
    }
}

/// The scan behind one more character, for numbers between `min` and `max`.
pub open spec fn enum_step(st: EnumScan, c: char, min: int, max: int) -> core::result::Result<
    EnumScan,
    TypeParseReason,
> {
    match st.state {
        EnumParseState::ExpectQuote => if c == '\'' {
            Ok(EnumScan { state: EnumParseState::InName, ..st })
        } else if is_white(c) {
            Ok(st)
        } else {
            Err(TypeParseReason::EnumExpectedQuote)
        },
        EnumParseState::InName => if st.escaped {
            Ok(EnumScan { name: st.name.push(c), escaped: false, ..st })
        } else if c == '\\' {
            Ok(EnumScan { escaped: true, ..st })
        } else if c == '\'' {
            Ok(EnumScan { state: EnumParseState::ExpectEqual, ..st })
        } else {
            Ok(EnumScan { name: st.name.push(c), ..st })
        },
        EnumParseState::ExpectEqual => if c == '=' {
            Ok(EnumScan { state: EnumParseState::InValue, ..st })
        } else if is_white(c) {
            Ok(st)
        } else {
            Err(TypeParseReason::EnumExpectedEquals)
        },
        EnumParseState::InValue => if c == ',' {
            match parsed_int(st.value, min, max) {
                Some(v) => Ok(
                    EnumScan {
                        state: EnumParseState::ExpectQuote,
                        name: Seq::empty(),
                        value: Seq::empty(),
                        options: st.options.push((st.name, v)),
                        ..st
                    },
                ),
                None => Err(TypeParseReason::EnumInvalidValue),
            }
        } else if is_white(c) {
            Ok(st)
        } else {
            Ok(EnumScan { value: st.value.push(c), ..st })
        },
    }
}

/// The scan behind the last character, from `i` on.
pub open spec fn enum_run(s: Seq<char>, i: int, st: EnumScan, min: int, max: int)
    -> core::result::Result<EnumScan, TypeParseReason>
    decreases s.len() - i,
{
    if i < 0 || i >= s.len() {
        Ok(st)
    } else {
        match enum_step(st, s[i], min, max) {
            Err(e) => Err(e),
            Ok(next) => enum_run(s, i + 1, next, min, max),
        }
    }
}

/// The options that a finished scan has found.
pub open spec fn enum_finish(st: EnumScan, min: int, max: int) -> core::result::Result<
    Seq<(Seq<char>, int)>,
    TypeParseReason,
> {
    match st.state {
        EnumParseState::InValue => if st.value.len() == 0 {
            Ok(st.options)
        } else {
            match parsed_int(st.value, min, max) {
                Some(v) => Ok(st.options.push((st.name, v))),
                None => Err(TypeParseReason::EnumInvalidValue),
            }
        },
        EnumParseState::ExpectQuote => Err(TypeParseReason::EnumUnexpectedEnd),
        _ => Err(TypeParseReason::EnumIncomplete),
    }
}

/// The options of an enumeration, in parentheses.
pub open spec fn enum_options(input: Seq<char>, min: int, max: int) -> core::result::Result<
    Seq<(Seq<char>, int)>,
    TypeParseReason,
> {
    if !in_parens(input) {
        Err(TypeParseReason::EnumNotParenthesized)
    } else if args_inner(input).len() == 0 {
        Ok(Seq::empty())
    } else {
        match enum_run(args_inner(input), 0, enum_start(), min, max) {
            Err(e) => Err(e),
            Ok(st) => enum_finish(st, min, max),
        }
    }
}

/// The views of options.
pub open spec fn option_views(v: Seq<(String, i64)>) -> Seq<(Seq<char>, int)> {
    Seq::new(v.len(), |i: int| (v[i].0@, v[i].1 as int))
}

/// Reads the options of an enumeration whose numbers lie between `min` and `max`.
fn parse_enum_options(input: &[char], min: i64, max: i64) -> (r: core::result::Result<
    Vec<(String, i64)>,
    TypeParseReason,
>)
    requires
        min < 0 <= max,
    ensures
        match r {
            Ok(v) => enum_options(input@, min as int, max as int) == Ok::<_, TypeParseReason>(
                option_views(v@),
            ) && forall|i: int| 0 <= i < v@.len() ==> min <= (#[trigger] v@[i]).1 <= max,
            Err(e) => enum_options(input@, min as int, max as int) == Err::<
                Seq<(Seq<char>, int)>,
                _,
            >(e),
        },
{
    if input.len() < 2 || input[0] != '(' || input[input.len() - 1] != ')' {
        return Err(TypeParseReason::EnumNotParenthesized);
    }
    let inner = trim(slice_subrange(input, 1, input.len() - 1));
    let mut options: Vec<(String, i64)> = Vec::new();
    if inner.len() == 0 {
        assert(option_views(options@) =~= Seq::empty());
        return Ok(options);
    }
    let mut name: String = String::new();
    let mut value: Vec<char> = Vec::new();
    let mut state: EnumParseState = EnumParseState::ExpectQuote;
    let mut escaped: bool = false;
    let mut i: usize = 0;
    assert(option_views(options@) =~= Seq::empty());
    while i < inner.len()
        invariant
            i <= inner.len(),
            min < 0 <= max,
            in_parens(input@),
            inner@ == args_inner(input@),
            inner@.len() > 0,
            forall|j: int| 0 <= j < options@.len() ==> min <= (#[trigger] options@[j]).1 <= max,
            enum_run(inner@, 0, enum_start(), min as int, max as int) == enum_run(
                inner@,
                i as int,
                (EnumScan {
                    state,
                    name: name@,
                    value: value@,
                    escaped,
                    options: option_views(options@),
                }),
                min as int,
                max as int,
            ),
        decreases inner.len() - i,
    {
        let c = inner[i];
        match state {
            EnumParseState::ExpectQuote => {
                if c == '\'' {
                    state = EnumParseState::InName;
                } else if !is_white_char(c) {
                    return Err(TypeParseReason::EnumExpectedQuote);
                }
            },
            EnumParseState::InName => {
                if escaped {
                    name.push(c);
                    escaped = false;
                } else if c == '\\' {
                    escaped = true;
                } else if c == '\'' {
                    state = EnumParseState::ExpectEqual;
                } else {
                    name.push(c);
                }
            },
            EnumParseState::ExpectEqual => {
                if c == '=' {
                    state = EnumParseState::InValue;
                } else if !is_white_char(c) {
                    return Err(TypeParseReason::EnumExpectedEquals);
                }
            },
            EnumParseState::InValue => {
                if c == ',' {
                    match parse_int(&value, min, max) {
                        Some(v) => {
                            let ghost before = options@;
                            let ghost pair = (name@, v as int);
                            options.push((name, v));
                            name = String::new();
                            value = Vec::new();
                            state = EnumParseState::ExpectQuote;
                            assert(option_views(options@) =~= option_views(before).push(pair));
                            assert(name@ =~= Seq::empty());
                            assert(value@ =~= Seq::empty());
                        },
                        None => {
                            return Err(TypeParseReason::EnumInvalidValue);
                        },
                    }
                } else if !is_white_char(c) {
                    value.push(c);
                }
            },
        }
        i += 1;
    }
    match state {
        EnumParseState::InValue => {
            if value.len() == 0 {
                Ok(options)
            } else {
                match parse_int(&value, min, max) {
                    Some(v) => {
                        let ghost before = options@;
                        let ghost pair = (name@, v as int);
                        options.push((name, v));
                        assert(option_views(options@) =~= option_views(before).push(pair));
                        Ok(options)
                    },
                    None => Err(TypeParseReason::EnumInvalidValue),
                }
            }
        },
        EnumParseState::ExpectQuote => Err(TypeParseReason::EnumUnexpectedEnd),
        EnumParseState::InName => Err(TypeParseReason::EnumIncomplete),
        EnumParseState::ExpectEqual => Err(TypeParseReason::EnumIncomplete),
    }
}

/// Options with numbers of eight bits.
pub open spec fn narrow8(v: Seq<(Seq<char>, int)>) -> Seq<(Seq<char>, i8)> {
    Seq::new(v.len(), |i: int| (v[i].0, v[i].1 as i8))
}

/// Options with numbers of sixteen bits.
pub open spec fn narrow16(v: Seq<(Seq<char>, int)>) -> Seq<(Seq<char>, i16)> {
    Seq::new(v.len(), |i: int| (v[i].0, v[i].1 as i16))
}

fn parse_enum8(input: &[char]) -> (r: core::result::Result<Vec<(String, i8)>, TypeParseReason>)
    ensures
        match r {
            Ok(v) => enum_options(input@, -128, 127) is Ok && options8(v@) == narrow8(
                enum_options(input@, -128, 127)->Ok_0,
            ),
            Err(e) => enum_options(input@, -128, 127) == Err::<Seq<(Seq<char>, int)>, _>(e),
        },
{
    let wide = match parse_enum_options(input, -128, 127) {
        Ok(v) => v,
        Err(e) => return Err(e),
    };
    let mut out: Vec<(String, i8)> = Vec::new();
    let mut i: usize = 0;
    while i < wide.len()
        invariant
            i <= wide.len(),
            out.len() == i,
            forall|j: int| 0 <= j < wide@.len() ==> -128 <= (#[trigger] wide@[j]).1 <= 127,
            forall|j: int| 0 <= j < i ==> out@[j].0@ == wide@[j].0@ && out@[j].1 == wide@[j].1,
        decreases wide.len() - i,
    {
        out.push((wide[i].0.clone(), wide[i].1 as i8));
        i += 1;
    }
    assert(options8(out@) =~= narrow8(option_views(wide@)));
    Ok(out)
}

fn parse_enum16(input: &[char]) -> (r: core::result::Result<Vec<(String, i16)>, TypeParseReason>)
    ensures
        match r {
            Ok(v) => enum_options(input@, -32768, 32767) is Ok && options16(v@) == narrow16(
                enum_options(input@, -32768, 32767)->Ok_0,
            ),
            Err(e) => enum_options(input@, -32768, 32767) == Err::<Seq<(Seq<char>, int)>, _>(e),
        },
{
    let wide = match parse_enum_options(input, -32768, 32767) {
        Ok(v) => v,
        Err(e) => return Err(e),
    };
    let mut out: Vec<(String, i16)> = Vec::new();
    let mut i: usize = 0;
    while i < wide.len()
        invariant
            i <= wide.len(),
            out.len() == i,
            forall|j: int| 0 <= j < wide@.len() ==> -32768 <= (#[trigger] wide@[j]).1 <= 32767,
            forall|j: int| 0 <= j < i ==> out@[j].0@ == wide@[j].0@ && out@[j].1 == wide@[j].1,
        decreases wide.len() - i,
    {
        out.push((wide[i].0.clone(), wide[i].1 as i16));
        i += 1;
    }
    assert(options16(out@) =~= narrow16(option_views(wide@)));
    Ok(out)
}

// ---------------------------------------------------------------------------
// Numbers and time zones
// ---------------------------------------------------------------------------

/// The number that an argument holds.
pub open spec fn usize_arg(s: Seq<char>) -> Option<nat> {
    parsed_uint(s, usize::MAX as nat)
}

/// Reads the scale of a decimal, or the size of a string.
pub fn parse_scale(from: &[char]) -> (r: core::result::Result<usize, TypeParseReason>)
    ensures
        match r {
            Ok(n) => usize_arg(from@) == Some(n as nat),
            Err(e) => usize_arg(from@) is None && e == TypeParseReason::BadScale,
        },
{
    match parse_uint(from, usize::MAX as u64) {
        Some(n) => Ok(n as usize),
        None => Err(TypeParseReason::BadScale),
    }
}

/// Reads the precision of a decimal or of a time.
pub fn parse_precision(from: &[char]) -> (r: core::result::Result<usize, TypeParseReason>)
    ensures
        match r {
            Ok(n) => usize_arg(from@) == Some(n as nat),
            Err(e) => usize_arg(from@) is None && e == TypeParseReason::BadPrecision,
        },
{
    match parse_uint(from, usize::MAX as u64) {
        Some(n) => Ok(n as usize),
        None => Err(TypeParseReason::BadPrecision),
    }
}

/// The type that a decimal of a precision and a scale is stored as.
pub open spec fn decimal_type(p: nat, s: nat) -> core::result::Result<TypeView, TypeParseReason> {
    if s == 0 || (p <= 9 && s > 9) || (p <= 18 && s > 18) || (p <= 38 && s > 38) || (p <= 76 && s
        > 76) {
        Err(TypeParseReason::InvalidScale)
    } else if p <= 9 {
        Ok(TypeView::Decimal32(s as usize))
    } else if p <= 18 {
        Ok(TypeView::Decimal64(s as usize))
    } else if p <= 38 {
        Ok(TypeView::Decimal128(s as usize))
    } else if p <= 76 {
        Ok(TypeView::Decimal256(s as usize))
    } else {
        Err(TypeParseReason::PrecisionTooLarge)
    }
}

/// `Decimal(precision, scale)`.
pub open spec fn parsed_decimal(rest: Seq<char>) -> core::result::Result<TypeView, TypeParseReason> {
    match fixed_args(rest, 2) {
        Err(e) => Err(e),
        Ok(args) => if args.len() != 2 {
            Err(TypeParseReason::ArgumentCount)
        } else {
            match (usize_arg(args[0]), usize_arg(args[1])) {
                (None, _) => Err(TypeParseReason::BadPrecision),
                (Some(_), None) => Err(TypeParseReason::BadScale),
                (Some(p), Some(s)) => decimal_type(p, s),
            }
        },
    }
}

fn parse_decimal(rest: &[char]) -> (r: core::result::Result<Type, TypeParseReason>)
    ensures
        match r {
            Ok(t) => parsed_decimal(rest@) == Ok::<_, TypeParseReason>(t@),
            Err(e) => parsed_decimal(rest@) == Err::<TypeView, _>(e),
        },
{
    let args = match fixed_slices(rest, 2) {
        Ok(args) => args,
        Err(e) => return Err(e),
    };
    assert(slices(args@).len() == args@.len());
    if args.len() != 2 {
        return Err(TypeParseReason::ArgumentCount);
    }
    assert(slices(args@)[0] == args@[0]@ && slices(args@)[1] == args@[1]@);
    let p: usize = match parse_precision(args[0]) {
        Ok(p) => p,
        Err(e) => return Err(e),
    };
    let s: usize = match parse_scale(args[1]) {
        Ok(s) => s,
        Err(e) => return Err(e),
    };
    if s == 0 || (p <= 9 && s > 9) || (p <= 18 && s > 18) || (p <= 38 && s > 38) || (p <= 76 && s
        > 76) {
        return Err(TypeParseReason::InvalidScale);
    }
    if p <= 9 {
        Ok(Type::Decimal32(s))
    } else if p <= 18 {
        Ok(Type::Decimal64(s))
    } else if p <= 38 {
        Ok(Type::Decimal128(s))
    } else if p <= 76 {
        Ok(Type::Decimal256(s))
    } else {
        Err(TypeParseReason::PrecisionTooLarge)
    }
}

/// The one number in an argument list, between one and `max`.
pub open spec fn size_in_parens(rest: Seq<char>, max: nat, too_large: TypeParseReason)
    -> core::result::Result<nat, TypeParseReason> {
    match fixed_args(rest, 1) {
        Err(e) => Err(e),
        Ok(args) => if args.len() != 1 {
            Err(TypeParseReason::ArgumentCount)
        } else {
            match usize_arg(args[0]) {
                None => Err(TypeParseReason::BadScale),
                Some(s) => if s == 0 || s > max {
                    Err(too_large)
                } else {
                    Ok(s)
                },
            }
        },
    }
}

fn parse_size_in_parens(rest: &[char], max: usize, too_large: TypeParseReason)
    -> (r: core::result::Result<usize, TypeParseReason>)
    ensures
        match r {
            Ok(n) => size_in_parens(rest@, max as nat, too_large) == Ok::<_, TypeParseReason>(
                n as nat,
            ),
            Err(e) => size_in_parens(rest@, max as nat, too_large) == Err::<nat, _>(e),
        },
{
    let args = match fixed_slices(rest, 1) {
        Ok(args) => args,
        Err(e) => return Err(e),
    };
    assert(slices(args@).len() == args@.len());
    if args.len() != 1 {
        return Err(TypeParseReason::ArgumentCount);
    }
    assert(slices(args@)[0] == args@[0]@);
    let s: usize = match parse_scale(args[0]) {
        Ok(s) => s,
        Err(e) => return Err(e),
    };
    if s == 0 || s > max {
        return Err(too_large);
    }
    Ok(s)
}

/// The time zone in an argument, in quotes.
pub open spec fn zone_arg(s: Seq<char>) -> core::result::Result<chrono_tz::Tz, TypeParseReason> {
    if s.len() < 2 || s[0] != '\'' || s.last() != '\'' {
        Err(TypeParseReason::UnquotedTimezone)
    } else {
        match zone_of_name(s.subrange(1, s.len() - 1)) {
            Some(tz) => Ok(tz),
            None => Err(TypeParseReason::UnknownTimezone),
        }
    }
}

fn parse_zone_arg(s: &[char]) -> (r: core::result::Result<chrono_tz::Tz, TypeParseReason>)
    ensures
        r == zone_arg(s@),
{
    if s.len() < 2 || s[0] != '\'' || s[s.len() - 1] != '\'' {
        return Err(TypeParseReason::UnquotedTimezone);
    }
    let name = from_chars(slice_subrange(s, 1, s.len() - 1));
    match parse_zone(name.as_str()) {
        Some(tz) => Ok(tz),
        None => Err(TypeParseReason::UnknownTimezone),
    }
}

/// `DateTime()` or `DateTime('zone')`.
pub open spec fn parsed_datetime(rest: Seq<char>) -> core::result::Result<
    TypeView,
    TypeParseReason,
> {
    match fixed_args(rest, 1) {
        Err(e) => Err(e),
        Ok(args) => if args.len() == 0 {
            Ok(TypeView::DateTime(utc()))
        } else {
            match zone_arg(args[0]) {
                Err(e) => Err(e),
                Ok(tz) => Ok(TypeView::DateTime(tz)),
            }
        },
    }
}

fn parse_datetime(rest: &[char]) -> (r: core::result::Result<Type, TypeParseReason>)
    ensures
        match r {
            Ok(t) => parsed_datetime(rest@) == Ok::<_, TypeParseReason>(t@),
            Err(e) => parsed_datetime(rest@) == Err::<TypeView, _>(e),
        },
{
    let args = match fixed_slices(rest, 1) {
        Ok(args) => args,
        Err(e) => return Err(e),
    };
    assert(slices(args@).len() == args@.len());
    if args.len() == 0 {
        return Ok(Type::DateTime(utc_zone()));
    }
    assert(slices(args@)[0] == args@[0]@);
    match parse_zone_arg(args[0]) {
        Ok(tz) => Ok(Type::DateTime(tz)),
        Err(e) => Err(e),
    }
}

/// `DateTime64(precision)` or `DateTime64(precision, 'zone')`.
pub open spec fn parsed_datetime64(rest: Seq<char>) -> core::result::Result<
    TypeView,
    TypeParseReason,
> {
    match fixed_args(rest, 2) {
        Err(e) => Err(e),
        Ok(args) => if args.len() == 0 {
            Err(TypeParseReason::ArgumentCount)
        } else {
            match usize_arg(args[0]) {
                None => Err(TypeParseReason::BadPrecision),
                Some(p) => if args.len() == 1 {
                    Ok(TypeView::DateTime64(p as usize, utc()))
                } else {
                    match zone_arg(args[1]) {
                        Err(e) => Err(e),
                        Ok(tz) => Ok(TypeView::DateTime64(p as usize, tz)),
                    }
                },
            }
        },
    }
}

fn parse_datetime64(rest: &[char]) -> (r: core::result::Result<Type, TypeParseReason>)
    ensures
        match r {
            Ok(t) => parsed_datetime64(rest@) == Ok::<_, TypeParseReason>(t@),
            Err(e) => parsed_datetime64(rest@) == Err::<TypeView, _>(e),
        },
{
    let args = match fixed_slices(rest, 2) {
        Ok(args) => args,
        Err(e) => return Err(e),
    };
    assert(slices(args@).len() == args@.len());
    if args.len() == 0 {
        return Err(TypeParseReason::ArgumentCount);
    }
    assert(slices(args@)[0] == args@[0]@);
    let p: usize = match parse_precision(args[0]) {
        Ok(p) => p,
        Err(e) => return Err(e),
    };
    if args.len() == 1 {
        return Ok(Type::DateTime64(p, utc_zone()));
    }
    assert(slices(args@)[1] == args@[1]@);
    match parse_zone_arg(args[1]) {
        Ok(tz) => Ok(Type::DateTime64(p, tz)),
        Err(e) => Err(e),
    }
}

// ---------------------------------------------------------------------------
// Dynamic
// ---------------------------------------------------------------------------

/// The parameters of `Dynamic`, behind those that have set `max_types` already.
pub open spec fn dynamic_params(args: Seq<Seq<char>>, max_types: Option<u32>)
    -> core::result::Result<Option<u32>, TypeParseReason>
    decreases args.len(),
{
    if args.len() == 0 {
        Ok(max_types)
    } else {
        match after_prefix(trimmed(args[0]), "max_types="@) {
            None => Err(TypeParseReason::UnknownDynamicParameter),
            Some(value) => match parsed_uint(value, u32::MAX as nat) {
                None => Err(TypeParseReason::InvalidMaxTypes),
                Some(n) => dynamic_params(args.skip(1), Some(n as u32)),
            },
        }
    }
}

/// Reads the parameters of `Dynamic`.
fn parse_dynamic_parameters(args: &Vec<&[char]>) -> (r: core::result::Result<
    Option<u32>,
    TypeParseReason,
>)
    ensures
        r == dynamic_params(slices(args@), None),
{
    let mut max_types: Option<u32> = None;
    let mut i: usize = 0;
    let ghost all = slices(args@);
    assert(all.skip(0) =~= all);
    while i < args.len()
        invariant
            i <= args.len(),
            all == slices(args@),
            dynamic_params(all, None) == dynamic_params(all.skip(i as int), max_types),
        decreases args.len() - i,
    {
        let arg = trim(args[i]);
        proof {
            assert(all.skip(i as int)[0] == args@[i as int]@);
            assert(all.skip(i as int).skip(1) =~= all.skip(i + 1));
        }
        match strip_prefix(arg, "max_types=") {
            Some(value) => match parse_uint(value, u32::MAX as u64) {
                Some(n) => {
                    max_types = Some(n as u32);
                },
                None => return Err(TypeParseReason::InvalidMaxTypes),
            },
            None => return Err(TypeParseReason::UnknownDynamicParameter),
        }
        i += 1;
    }
    Ok(max_types)
}

// ---------------------------------------------------------------------------
// Types
// ---------------------------------------------------------------------------

/// A type that stands without arguments.
pub open spec fn plain_type(id: Seq<char>) -> core::result::Result<TypeView, TypeParseReason> {
    if id == "Int8"@ {
        Ok(TypeView::Int8)
    } else if id == "Int16"@ {
        Ok(TypeView::Int16)
    } else if id == "Int32"@ {
        Ok(TypeView::Int32)
    } else if id == "Int64"@ {
        Ok(TypeView::Int64)
    } else if id == "Int128"@ {
        Ok(TypeView::Int128)
    } else if id == "Int256"@ {
        Ok(TypeView::Int256)
    } else if id == "Bool"@ {
        Ok(TypeView::UInt8)
    } else if id == "UInt8"@ {
        Ok(TypeView::UInt8)
    } else if id == "UInt16"@ {
        Ok(TypeView::UInt16)
    } else if id == "UInt32"@ {
        Ok(TypeView::UInt32)
    } else if id == "UInt64"@ {
        Ok(TypeView::UInt64)
    } else if id == "UInt128"@ {
        Ok(TypeView::UInt128)
    } else if id == "UInt256"@ {
        Ok(TypeView::UInt256)
    } else if id == "Float32"@ {
        Ok(TypeView::Float32)
    } else if id == "Float64"@ {
        Ok(TypeView::Float64)
    } else if id == "String"@ {
        Ok(TypeView::String)
    } else if id == "UUID"@ {
        Ok(TypeView::Uuid)
    } else if id == "Uuid"@ {
        Ok(TypeView::Uuid)
    } else if id == "uuid"@ {
        Ok(TypeView::Uuid)
    } else if id == "Date"@ {
        Ok(TypeView::Date)
    } else if id == "Date32"@ {
        Ok(TypeView::Date32)
    } else if id == "IPv4"@ {
        Ok(TypeView::Ipv4)
    } else if id == "IPv6"@ {
        Ok(TypeView::Ipv6)
    } else if id == "Point"@ {
        Ok(TypeView::Point)
    } else if id == "Ring"@ {
        Ok(TypeView::Ring)
    } else if id == "Polygon"@ {
        Ok(TypeView::Polygon)
    } else if id == "MultiPolygon"@ {
        Ok(TypeView::MultiPolygon)
    } else if id == "Object"@ {
        Ok(TypeView::Object)
    } else if id == "Json"@ {
        Ok(TypeView::Object)
    } else if id == "OBJECT"@ {
        Ok(TypeView::Object)
    } else if id == "DateTime"@ {
        Ok(TypeView::DateTime(utc()))
    } else if id == "JSON"@ {
        Ok(
            TypeView::JSON {
                max_dynamic_paths: None,
                max_dynamic_types: None,
                typed_paths: Seq::empty(),
                skip_exact: Seq::empty(),
                skip_regex: Seq::empty(),
            },
        )
    } else if id == "Dynamic"@ {
        Ok(TypeView::Dynamic { max_types: None })
    } else {
        Err(TypeParseReason::UnknownType)
    }
}

fn parse_plain(id: &[char]) -> (r: core::result::Result<Type, TypeParseReason>)
    ensures
        match r {
            Ok(t) => plain_type(id@) == Ok::<_, TypeParseReason>(t@),
            Err(e) => plain_type(id@) == Err::<TypeView, _>(e),
        },
{
    if eq_str(id, "Int8") {
        Ok(Type::Int8)
    } else if eq_str(id, "Int16") {
        Ok(Type::Int16)
    } else if eq_str(id, "Int32") {
        Ok(Type::Int32)
    } else if eq_str(id, "Int64") {
        Ok(Type::Int64)
    } else if eq_str(id, "Int128") {
        Ok(Type::Int128)
    } else if eq_str(id, "Int256") {
        Ok(Type::Int256)
    } else if eq_str(id, "Bool") {
        Ok(Type::UInt8)
    } else if eq_str(id, "UInt8") {
        Ok(Type::UInt8)
    } else if eq_str(id, "UInt16") {
        Ok(Type::UInt16)
    } else if eq_str(id, "UInt32") {
        Ok(Type::UInt32)
    } else if eq_str(id, "UInt64") {
        Ok(Type::UInt64)
    } else if eq_str(id, "UInt128") {
        Ok(Type::UInt128)
    } else if eq_str(id, "UInt256") {
        Ok(Type::UInt256)
    } else if eq_str(id, "Float32") {
        Ok(Type::Float32)
    } else if eq_str(id, "Float64") {
        Ok(Type::Float64)
    } else if eq_str(id, "String") {
        Ok(Type::String)
    } else if eq_str(id, "UUID") {
        Ok(Type::Uuid)
    } else if eq_str(id, "Uuid") {
        Ok(Type::Uuid)
    } else if eq_str(id, "uuid") {
        Ok(Type::Uuid)
    } else if eq_str(id, "Date") {
        Ok(Type::Date)
    } else if eq_str(id, "Date32") {
        Ok(Type::Date32)
    } else if eq_str(id, "IPv4") {
        Ok(Type::Ipv4)
    } else if eq_str(id, "IPv6") {
        Ok(Type::Ipv6)
    } else if eq_str(id, "Point") {
        Ok(Type::Point)
    } else if eq_str(id, "Ring") {
        Ok(Type::Ring)
    } else if eq_str(id, "Polygon") {
        Ok(Type::Polygon)
    } else if eq_str(id, "MultiPolygon") {
        Ok(Type::MultiPolygon)
    } else if eq_str(id, "Object") {
        Ok(Type::Object)
    } else if eq_str(id, "Json") {
        Ok(Type::Object)
    } else if eq_str(id, "OBJECT") {
        Ok(Type::Object)
    } else if eq_str(id, "DateTime") {
        Ok(Type::DateTime(utc_zone()))
    } else if eq_str(id, "JSON") {
        let t = Type::JSON {
            max_dynamic_paths: None,
            max_dynamic_types: None,
            typed_paths: Vec::new(),
            skip_exact: Vec::new(),
            skip_regex: Vec::new(),
        };
        proof {
            t.lemma_view();
            assert(t@->typed_paths =~= Seq::empty());
            assert(t@->skip_exact =~= Seq::empty());
            assert(t@->skip_regex =~= Seq::empty());
        }
        Ok(t)
    } else if eq_str(id, "Dynamic") {
        Ok(Type::Dynamic { max_types: None })
    } else {
        Err(TypeParseReason::UnknownType)
    }
}

/// The type that a name stands for, or why it stands for none.
pub open spec fn parsed_type(s: Seq<char>) -> core::result::Result<TypeView, TypeParseReason>
    decreases s.len(), 3nat, 0nat,
{
    let n = ident_end(s, 0);
    let rest = trimmed(s.skip(n));
    if n == 0 {
        Err(TypeParseReason::EmptyIdentifier)
    } else if rest.len() == 0 {
        plain_type(s.take(n))
    } else {
        type_with_args(s.take(n), rest, s.len())
    }
}

/// A type that stands with arguments, each of them shorter than `len`.
pub open spec fn type_with_args(id: Seq<char>, rest: Seq<char>, len: nat) -> core::result::Result<
    TypeView,
    TypeParseReason,
>
    decreases len, 2nat, 0nat,
{
    if id == "Object"@ {
        match variable_args(rest) {
            Err(e) => Err(e),
            Ok(_) => Ok(TypeView::Object),
        }
    } else if id == "Decimal"@ {
        parsed_decimal(rest)
    } else if id == "Decimal32"@ {
        match size_in_parens(rest, 9, TypeParseReason::InvalidScale) {
            Err(e) => Err(e),
            Ok(s) => Ok(TypeView::Decimal32(s as usize)),
        }
    } else if id == "Decimal64"@ {
        match size_in_parens(rest, 18, TypeParseReason::InvalidScale) {
            Err(e) => Err(e),
            Ok(s) => Ok(TypeView::Decimal64(s as usize)),
        }
    } else if id == "Decimal128"@ {
        match size_in_parens(rest, 38, TypeParseReason::InvalidScale) {
            Err(e) => Err(e),
            Ok(s) => Ok(TypeView::Decimal128(s as usize)),
        }
    } else if id == "Decimal256"@ {
        match size_in_parens(rest, 76, TypeParseReason::InvalidScale) {
            Err(e) => Err(e),
            Ok(s) => Ok(TypeView::Decimal256(s as usize)),
        }
    } else if id == "FixedString"@ {
        match size_in_parens(rest, usize::MAX as nat, TypeParseReason::EmptyFixedString) {
            Err(e) => Err(e),
            Ok(s) => Ok(TypeView::FixedSizedString(s as usize)),
        }
    } else if id == "DateTime"@ {
        parsed_datetime(rest)
    } else if id == "DateTime64"@ {
        parsed_datetime64(rest)
    } else if id == "Enum8"@ {
        match enum_options(rest, -128, 127) {
            Err(e) => Err(e),
            Ok(v) => Ok(TypeView::Enum8(narrow8(v))),
        }
    } else if id == "Enum16"@ {
        match enum_options(rest, -32768, 32767) {
            Err(e) => Err(e),
            Ok(v) => Ok(TypeView::Enum16(narrow16(v))),
        }
    } else if id == "LowCardinality"@ {
        match one_type(rest, len) {
            Err(e) => Err(e),
            Ok(t) => Ok(TypeView::LowCardinality(Box::new(t))),
        }
    } else if id == "Array"@ {
        match one_type(rest, len) {
            Err(e) => Err(e),
            Ok(t) => Ok(TypeView::Array(Box::new(t))),
        }
    } else if id == "Nullable"@ {
        match one_type(rest, len) {
            Err(e) => Err(e),
            Ok(t) => Ok(TypeView::Nullable(Box::new(t))),
        }
    } else if id == "Tuple"@ {
        match variable_args(rest) {
            Err(e) => Err(e),
            Ok(args) => match tuple_types(args, len) {
                Err(e) => Err(e),
                Ok(ts) => Ok(TypeView::Tuple(ts)),
            },
        }
    } else if id == "Map"@ {
        match fixed_args(rest, 2) {
            Err(e) => Err(e),
            Ok(args) => if args.len() != 2 {
                Err(TypeParseReason::ArgumentCount)
            } else {
                match types_of(args, len) {
                    Err(e) => Err(e),
                    Ok(ts) => Ok(TypeView::MapOf(Box::new(ts[0]), Box::new(ts[1]))),
                }
            },
        }
    } else if id == "Variant"@ {
        match variable_args(rest) {
            Err(e) => Err(e),
            Ok(args) => if args.len() == 0 {
                Err(TypeParseReason::EmptyVariant)
            } else {
                match types_of(args, len) {
                    Err(e) => Err(e),
                    Ok(ts) => Ok(TypeView::Variant(ts)),
                }
            },
        }
    } else if id == "Dynamic"@ {
        match variable_args(rest) {
            Err(e) => Err(e),
            Ok(args) => match dynamic_params(args, None) {
                Err(e) => Err(e),
                Ok(max_types) => Ok(TypeView::Dynamic { max_types }),
            },
        }
    } else if id == "JSON"@ {
        match variable_args(rest) {
            Err(e) => Err(e),
            Ok(args) => match json_params(args, no_json_params(), len) {
                Err(e) => Err(e),
                Ok(p) => Ok(
                    TypeView::JSON {
                        max_dynamic_paths: p.max_dynamic_paths,
                        max_dynamic_types: p.max_dynamic_types,
                        typed_paths: p.typed_paths,
                        skip_exact: p.skip_exact,
                        skip_regex: p.skip_regex,
                    },
                ),
            },
        }
    } else if id == "Nested"@ {
        match variable_args(rest) {
            Err(e) => Err(e),
            Ok(args) => if args.len() == 0 {
                Err(TypeParseReason::UnsupportedNested)
            } else {
                match nested_types(args, len) {
                    Err(e) => Err(e),
                    Ok(ts) => Ok(TypeView::Array(Box::new(TypeView::Tuple(ts)))),
                }
            },
        }
    } else {
        Err(TypeParseReason::NotParameterized)
    }
}

/// The one type in an argument list.
pub open spec fn one_type(rest: Seq<char>, len: nat) -> core::result::Result<
    TypeView,
    TypeParseReason,
>
    decreases len, 1nat, 0nat,
{
    match fixed_args(rest, 1) {
        Err(e) => Err(e),
        Ok(args) => if args.len() != 1 {
            Err(TypeParseReason::ArgumentCount)
        } else {
            match types_of(args, len) {
                Err(e) => Err(e),
                Ok(ts) => Ok(ts[0]),
            }
        },
    }
}

/// The types that arguments stand for, all of them shorter than `len`.
pub open spec fn types_of(args: Seq<Seq<char>>, len: nat) -> core::result::Result<
    Seq<TypeView>,
    TypeParseReason,
>
    decreases len, 0nat, args.len(),
{
    if args.len() == 0 {
        Ok(Seq::empty())
    } else if args[0].len() >= len {
        arbitrary()
    } else {
        match parsed_type(args[0]) {
            Err(e) => Err(e),
            Ok(t) => match types_of(args.skip(1), len) {
                Err(e) => Err(e),
                Ok(ts) => Ok(seq![t] + ts),
            },
        }
    }
}

/// The type of a named field: an identifier and a type behind it.
pub open spec fn field_type_text(arg: Seq<char>) -> Option<Seq<char>> {
    let n = ident_end(arg, 0);
    let rest = trimmed(arg.skip(n));
    if n > 0 && rest.len() > 0 {
        Some(rest)
    } else {
        None
    }
}

/// The types of tuple fields, each of them a type, or a name with a type.
pub open spec fn tuple_types(args: Seq<Seq<char>>, len: nat) -> core::result::Result<
    Seq<TypeView>,
    TypeParseReason,
>
    decreases len, 0nat, args.len(),
{
    if args.len() == 0 {
        Ok(Seq::empty())
    } else if args[0].len() >= len {
        arbitrary()
    } else {
        let field = match parsed_type(args[0]) {
            Ok(t) => Ok(t),
            Err(_) => match field_type_text(args[0]) {
                None => Err(TypeParseReason::InvalidTupleElement),
                Some(rest) => if rest.len() >= len {
                    arbitrary()
                } else {
                    parsed_type(rest)
                },
            },
        };
        match field {
            Err(e) => Err(e),
            Ok(t) => match tuple_types(args.skip(1), len) {
                Err(e) => Err(e),
                Ok(ts) => Ok(seq![t] + ts),
            },
        }
    }
}

/// The types of the columns of a nested table, each of them a name with a type.
pub open spec fn nested_types(args: Seq<Seq<char>>, len: nat) -> core::result::Result<
    Seq<TypeView>,
    TypeParseReason,
>
    decreases len, 0nat, args.len(),
{
    if args.len() == 0 {
        Ok(Seq::empty())
    } else {
        match field_type_text(args[0]) {
            None => Err(TypeParseReason::UnsupportedNested),
            Some(rest) => if rest.len() >= len {
                arbitrary()
            } else {
                match parsed_type(rest) {
                    Err(e) => Err(e),
                    Ok(t) => match nested_types(args.skip(1), len) {
                        Err(e) => Err(e),
                        Ok(ts) => Ok(seq![t] + ts),
                    },
                }
            },
        }
    }
}

/// The parameters of a JSON type.
pub ghost struct JsonParams {
    pub max_dynamic_paths: Option<u32>,
    pub max_dynamic_types: Option<u32>,
    pub typed_paths: Seq<(Seq<char>, TypeView)>,
    pub skip_exact: Seq<Seq<char>>,
    pub skip_regex: Seq<Seq<char>>,
}

/// No parameters.
pub open spec fn no_json_params() -> JsonParams {
    JsonParams {
        max_dynamic_paths: None,
        max_dynamic_types: None,
        typed_paths: Seq::empty(),
        skip_exact: Seq::empty(),
        skip_regex: Seq::empty(),
    }
}

/// What one argument says of a JSON type.
pub ghost enum JsonArg {
    MaxPaths(Seq<char>),
    MaxTypes(Seq<char>),
    SkipPattern(Seq<char>),
    SkipPath(Seq<char>),
    TypedPath(Seq<char>, Seq<char>),
    Unknown,
}

/// The position of the first space.
pub open spec fn first_space(s: Seq<char>, i: int) -> int
    decreases s.len() - i,
{
    if 0 <= i < s.len() && s[i] != ' ' {
        first_space(s, i + 1)
    } else {
        i
    }
}

/// Sorts an argument of a JSON type. What is not recognized is left aside.
pub open spec fn json_arg(arg: Seq<char>) -> JsonArg {
    let k = first_space(arg, 0);
    if let Some(v) = after_prefix(arg, "max_dynamic_paths="@) {
        JsonArg::MaxPaths(v)
    } else if let Some(v) = after_prefix(arg, "max_dynamic_types="@) {
        JsonArg::MaxTypes(v)
    } else if let Some(v) = after_prefix(arg, "SKIP REGEXP "@) {
        JsonArg::SkipPattern(unquoted(unquoted(trimmed(v), '\''), '"'))
    } else if let Some(v) = after_prefix(arg, "SKIP "@) {
        JsonArg::SkipPath(unquoted(unquoted(unquoted(trimmed(v), '`'), '\''), '"'))
    } else if k < arg.len() && !"max_"@.is_prefix_of(arg) && !"SKIP"@.is_prefix_of(arg) {
        JsonArg::TypedPath(unquoted(trimmed(arg.take(k)), '`'), trimmed(arg.skip(k + 1)))
    } else {
        JsonArg::Unknown
    }
}

/// The parameters of a JSON type, behind those that were read already. A typed path
/// whose type cannot be read is left aside.
pub open spec fn json_params(args: Seq<Seq<char>>, p: JsonParams, len: nat) -> core::result::Result<
    JsonParams,
    TypeParseReason,
>
    decreases len, 0nat, args.len(),
{
    if args.len() == 0 {
        Ok(p)
    } else {
        match json_arg(trimmed(args[0])) {
            JsonArg::MaxPaths(v) => match parsed_uint(v, u32::MAX as nat) {
                None => Err(TypeParseReason::InvalidMaxDynamicPaths),
                Some(n) => json_params(
                    args.skip(1),
                    JsonParams { max_dynamic_paths: Some(n as u32), ..p },
                    len,
                ),
            },
            JsonArg::MaxTypes(v) => match parsed_uint(v, u32::MAX as nat) {
                None => Err(TypeParseReason::InvalidMaxDynamicTypes),
                Some(n) => json_params(
                    args.skip(1),
                    JsonParams { max_dynamic_types: Some(n as u32), ..p },
                    len,
                ),
            },
            JsonArg::SkipPattern(v) => json_params(
                args.skip(1),
                JsonParams { skip_regex: p.skip_regex.push(v), ..p },
                len,
            ),
            JsonArg::SkipPath(v) => json_params(
                args.skip(1),
                JsonParams { skip_exact: p.skip_exact.push(v), ..p },
                len,
            ),
            JsonArg::TypedPath(path, ty) => if ty.len() >= len {
                arbitrary()
            } else {
                match parsed_type(ty) {
                    Ok(t) => json_params(
                        args.skip(1),
                        JsonParams { typed_paths: p.typed_paths.push((path, t)), ..p },
                        len,
                    ),
                    Err(_) => json_params(args.skip(1), p, len),
                }
            },
            JsonArg::Unknown => json_params(args.skip(1), p, len),
        }
    }
}

/// What is put before the rest of a list that was read.
pub open spec fn before(head: Seq<TypeView>, rest: core::result::Result<
    Seq<TypeView>,
    TypeParseReason,
>) -> core::result::Result<Seq<TypeView>, TypeParseReason> {
    match rest {
        Err(e) => Err(e),
        Ok(ts) => Ok(head + ts),
    }
}

fn parse_types(args: &Vec<&[char]>, Ghost(len): Ghost<nat>) -> (r: core::result::Result<
    Vec<Type>,
    TypeParseReason,
>)
    requires
        forall|i: int| 0 <= i < args@.len() ==> (#[trigger] slices(args@)[i]).len() < len,
    ensures
        match r {
            Ok(v) => types_of(slices(args@), len) == Ok::<_, TypeParseReason>(type_views(v@))
                && v@.len() == args@.len(),
            Err(e) => types_of(slices(args@), len) == Err::<Seq<TypeView>, _>(e),
        },
    decreases len, 0nat, args.len(),
{
    let ghost all = slices(args@);
    let mut out: Vec<Type> = Vec::new();
    let mut i: usize = 0;
    proof {
        assert(all.skip(0) =~= all);
        assert(before(type_views(out@), types_of(all, len)) =~~= types_of(all, len)) by {
            if let Ok(ts) = types_of(all, len) {
                assert(type_views(out@) + ts =~= ts);
            }
        }
    }
    while i < args.len()
        invariant
            i <= args.len(),
            out.len() == i,
            all == slices(args@),
            forall|j: int| 0 <= j < args@.len() ==> (#[trigger] all[j]).len() < len,
            types_of(all, len) == before(type_views(out@), types_of(all.skip(i as int), len)),
        decreases args.len() - i,
    {
        let ghost head = type_views(out@);
        proof {
            assert(all.skip(i as int)[0] == all[i as int]);
            assert(all[i as int] == args@[i as int]@);
            assert(all.skip(i as int).skip(1) =~= all.skip(i + 1));
        }
        match parse_chars(args[i]) {
            Err(e) => return Err(e),
            Ok(t) => {
                let ghost tv = t@;
                out.push(t);
                proof {
                    assert(type_views(out@) =~= head.push(tv));
                    if let Ok(ts) = types_of(all.skip(i + 1), len) {
                        assert(head + (seq![tv] + ts) =~= type_views(out@) + ts);
                    }
                }
            },
        }
        i += 1;
    }
    assert(type_views(out@) + Seq::<TypeView>::empty() =~= type_views(out@));
    Ok(out)
}

fn parse_one_type(rest: &[char], Ghost(len): Ghost<nat>) -> (r: core::result::Result<
    Type,
    TypeParseReason,
>)
    requires
        rest@.len() <= len,
    ensures
        match r {
            Ok(t) => one_type(rest@, len) == Ok::<_, TypeParseReason>(t@),
            Err(e) => one_type(rest@, len) == Err::<TypeView, _>(e),
        },
    decreases len, 1nat, 0nat,
{
    let args = match fixed_slices(rest, 1) {
        Ok(args) => args,
        Err(e) => return Err(e),
    };
    proof {
        assert(slices(args@).len() == args@.len());
        lemma_args_shorter(rest@, 1);
    }
    if args.len() != 1 {
        return Err(TypeParseReason::ArgumentCount);
    }
    match parse_types(&args, Ghost(len)) {
        Err(e) => Err(e),
        Ok(mut ts) => {
            let ghost all = type_views(ts@);
            match ts.pop() {
                Some(t) => {
                    assert(all[0] == t@);
                    Ok(t)
                },
                None => Err(TypeParseReason::ArgumentCount),
            }
        },
    }
}

fn field_type_chars<'a>(arg: &'a [char]) -> (r: Option<&'a [char]>)
    ensures
        match r {
            Some(rest) => field_type_text(arg@) == Some(rest@) && rest@.len() < arg@.len(),
            None => field_type_text(arg@) is None,
        },
{
    let n = ident_len(arg);
    let behind = slice_subrange(arg, n, arg.len());
    assert(behind@ =~= arg@.skip(n as int));
    let rest = trim(behind);
    if n > 0 && rest.len() > 0 {
        Some(rest)
    } else {
        None
    }
}

fn parse_tuple_types(args: &Vec<&[char]>, Ghost(len): Ghost<nat>) -> (r: core::result::Result<
    Vec<Type>,
    TypeParseReason,
>)
    requires
        forall|i: int| 0 <= i < args@.len() ==> (#[trigger] slices(args@)[i]).len() < len,
    ensures
        match r {
            Ok(v) => tuple_types(slices(args@), len) == Ok::<_, TypeParseReason>(type_views(v@)),
            Err(e) => tuple_types(slices(args@), len) == Err::<Seq<TypeView>, _>(e),
        },
    decreases len, 0nat, args.len(),
{
    let ghost all = slices(args@);
    let mut out: Vec<Type> = Vec::new();
    let mut i: usize = 0;
    proof {
        assert(all.skip(0) =~= all);
        assert(before(type_views(out@), tuple_types(all, len)) =~~= tuple_types(all, len)) by {
            if let Ok(ts) = tuple_types(all, len) {
                assert(type_views(out@) + ts =~= ts);
            }
        }
    }
    while i < args.len()
        invariant
            i <= args.len(),
            all == slices(args@),
            forall|j: int| 0 <= j < args@.len() ==> (#[trigger] all[j]).len() < len,
            tuple_types(all, len) == before(type_views(out@), tuple_types(all.skip(i as int), len)),
        decreases args.len() - i,
    {
        let ghost head = type_views(out@);
        proof {
            assert(all.skip(i as int)[0] == all[i as int]);
            assert(all[i as int] == args@[i as int]@);
            assert(all.skip(i as int).skip(1) =~= all.skip(i + 1));
        }
        let t: Type = match parse_chars(args[i]) {
            Ok(t) => t,
            Err(_) => match field_type_chars(args[i]) {
                None => return Err(TypeParseReason::InvalidTupleElement),
                Some(rest) => match parse_chars(rest) {
                    Ok(t) => t,
                    Err(e) => return Err(e),
                },
            },
        };
        let ghost tv = t@;
        out.push(t);
        proof {
            assert(type_views(out@) =~= head.push(tv));
            if let Ok(ts) = tuple_types(all.skip(i + 1), len) {
                assert(head + (seq![tv] + ts) =~= type_views(out@) + ts);
            }
        }
        i += 1;
    }
    assert(type_views(out@) + Seq::<TypeView>::empty() =~= type_views(out@));
    Ok(out)
}

fn parse_nested_types(args: &Vec<&[char]>, Ghost(len): Ghost<nat>) -> (r: core::result::Result<
    Vec<Type>,
    TypeParseReason,
>)
    requires
        forall|i: int| 0 <= i < args@.len() ==> (#[trigger] slices(args@)[i]).len() < len,
    ensures
        match r {
            Ok(v) => nested_types(slices(args@), len) == Ok::<_, TypeParseReason>(type_views(v@)),
            Err(e) => nested_types(slices(args@), len) == Err::<Seq<TypeView>, _>(e),
        },
    decreases len, 0nat, args.len(),
{
    let ghost all = slices(args@);
    let mut out: Vec<Type> = Vec::new();
    let mut i: usize = 0;
    proof {
        assert(all.skip(0) =~= all);
        assert(before(type_views(out@), nested_types(all, len)) =~~= nested_types(all, len)) by {
            if let Ok(ts) = nested_types(all, len) {
                assert(type_views(out@) + ts =~= ts);
            }
        }
    }
    while i < args.len()
        invariant
            i <= args.len(),
            all == slices(args@),
            forall|j: int| 0 <= j < args@.len() ==> (#[trigger] all[j]).len() < len,
            nested_types(all, len) == before(
                type_views(out@),
                nested_types(all.skip(i as int), len),
            ),
        decreases args.len() - i,
    {
        let ghost head = type_views(out@);
        proof {
            assert(all.skip(i as int)[0] == all[i as int]);
            assert(all[i as int] == args@[i as int]@);
            assert(all.skip(i as int).skip(1) =~= all.skip(i + 1));
        }
        let t: Type = match field_type_chars(args[i]) {
            None => return Err(TypeParseReason::UnsupportedNested),
            Some(rest) => match parse_chars(rest) {
                Ok(t) => t,
                Err(e) => return Err(e),
            },
        };
        let ghost tv = t@;
        out.push(t);
        proof {
            assert(type_views(out@) =~= head.push(tv));
            if let Ok(ts) = nested_types(all.skip(i + 1), len) {
                assert(head + (seq![tv] + ts) =~= type_views(out@) + ts);
            }
        }
        i += 1;
    }
    assert(type_views(out@) + Seq::<TypeView>::empty() =~= type_views(out@));
    Ok(out)
}

/// The parameters of a JSON type, as they are read.
struct JsonParameters {
    max_dynamic_paths: Option<u32>,
    max_dynamic_types: Option<u32>,
    typed_paths: Vec<(String, Box<Type>)>,
    skip_exact: Vec<String>,
    skip_regex: Vec<String>,
}

impl JsonParameters {
    spec fn view(&self) -> JsonParams {
        JsonParams {
            max_dynamic_paths: self.max_dynamic_paths,
            max_dynamic_types: self.max_dynamic_types,
            typed_paths: path_views(self.typed_paths@),
            skip_exact: texts(self.skip_exact@),
            skip_regex: texts(self.skip_regex@),
        }
    }
}

/// The position of the first space, or the length.
fn find_space(s: &[char]) -> (r: usize)
    ensures
        r == first_space(s@, 0),
        r <= s@.len(),
{
    let mut i: usize = 0;
    while i < s.len() && s[i] != ' '
        invariant
            i <= s.len(),
            first_space(s@, 0) == first_space(s@, i as int),
        decreases s.len() - i,
    {
        i += 1;
    }
    i
}

/// Reads one parameter of a JSON type.
fn parse_json_parameter(arg: &[char], p: &mut JsonParameters, Ghost(len): Ghost<nat>)
    -> (r: core::result::Result<(), TypeParseReason>)
    requires
        arg@.len() < len,
    ensures
        forall|args: Seq<Seq<char>>|
            #![trigger json_params(args, old(p)@, len)]
            args.len() > 0 && args[0] == arg@ ==> json_params(args, old(p)@, len) == match r {
                Ok(()) => json_params(args.skip(1), final(p)@, len),
                Err(e) => Err(e),
            },
    decreases len, 0nat, 0nat,
{
    let arg = trim(arg);
    let ghost start = p@;
    if let Some(v) = strip_prefix(arg, "max_dynamic_paths=") {
        return match parse_uint(v, u32::MAX as u64) {
            Some(n) => {
                p.max_dynamic_paths = Some(n as u32);
                assert(p@ =~= (JsonParams { max_dynamic_paths: Some(n as u32), ..start }));
                Ok(())
            },
            None => Err(TypeParseReason::InvalidMaxDynamicPaths),
        };
    }
    if let Some(v) = strip_prefix(arg, "max_dynamic_types=") {
        return match parse_uint(v, u32::MAX as u64) {
            Some(n) => {
                p.max_dynamic_types = Some(n as u32);
                assert(p@ =~= (JsonParams { max_dynamic_types: Some(n as u32), ..start }));
                Ok(())
            },
            None => Err(TypeParseReason::InvalidMaxDynamicTypes),
        };
    }
    if let Some(v) = strip_prefix(arg, "SKIP REGEXP ") {
        let pattern = unquote(unquote(trim(v), '\''), '"');
        p.skip_regex.push(from_chars(pattern));
        assert(p@.skip_regex =~= start.skip_regex.push(pattern@));
        return Ok(());
    }
    if let Some(v) = strip_prefix(arg, "SKIP ") {
        let field = unquote(unquote(unquote(trim(v), '`'), '\''), '"');
        p.skip_exact.push(from_chars(field));
        assert(p@.skip_exact =~= start.skip_exact.push(field@));
        return Ok(());
    }
    let k = find_space(arg);
    if k < arg.len() && strip_prefix(arg, "max_").is_none() && strip_prefix(arg, "SKIP").is_none() {
        let name = slice_subrange(arg, 0, k);
        assert(name@ =~= arg@.take(k as int));
        let path = unquote(trim(name), '`');
        let behind = slice_subrange(arg, k + 1, arg.len());
        assert(behind@ =~= arg@.skip(k + 1));
        let ty = trim(behind);
        if let Ok(t) = parse_chars(ty) {
            let ghost pair = (path@, t@);
            p.typed_paths.push((from_chars(path), Box::new(t)));
            assert(p@.typed_paths =~= start.typed_paths.push(pair));
        }
    }
    Ok(())
}

/// Reads the parameters of a JSON type.
fn parse_json_parameters(args: &Vec<&[char]>, Ghost(len): Ghost<nat>) -> (r: core::result::Result<
    JsonParameters,
    TypeParseReason,
>)
    requires
        forall|i: int| 0 <= i < args@.len() ==> (#[trigger] slices(args@)[i]).len() < len,
    ensures
        match r {
            Ok(p) => json_params(slices(args@), no_json_params(), len) == Ok::<_, TypeParseReason>(
                p@,
            ),
            Err(e) => json_params(slices(args@), no_json_params(), len) == Err::<JsonParams, _>(e),
        },
    decreases len, 0nat, 1 + args.len(),
{
    let ghost all = slices(args@);
    let mut p = JsonParameters {
        max_dynamic_paths: None,
        max_dynamic_types: None,
        typed_paths: Vec::new(),
        skip_exact: Vec::new(),
        skip_regex: Vec::new(),
    };
    let mut i: usize = 0;
    proof {
        assert(all.skip(0) =~= all);
        assert(p@.typed_paths =~= Seq::empty());
        assert(p@.skip_exact =~= Seq::empty());
        assert(p@.skip_regex =~= Seq::empty());
    }
    while i < args.len()
        invariant
            i <= args.len(),
            all == slices(args@),
            forall|j: int| 0 <= j < args@.len() ==> (#[trigger] all[j]).len() < len,
            json_params(all, no_json_params(), len) == json_params(all.skip(i as int), p@, len),
        decreases args.len() - i,
    {
        proof {
            assert(all.skip(i as int)[0] == all[i as int]);
            assert(all[i as int] == args@[i as int]@);
            assert(all.skip(i as int).skip(1) =~= all.skip(i + 1));
        }
        match parse_json_parameter(args[i], &mut p, Ghost(len)) {
            Ok(()) => {},
            Err(e) => return Err(e),
        }
        i += 1;
    }
    Ok(p)
}

fn parse_with_args(id: &[char], rest: &[char], Ghost(len): Ghost<nat>) -> (r: core::result::Result<
    Type,
    TypeParseReason,
>)
    requires
        rest@.len() <= len,
    ensures
        match r {
            Ok(t) => type_with_args(id@, rest@, len) == Ok::<_, TypeParseReason>(t@),
            Err(e) => type_with_args(id@, rest@, len) == Err::<TypeView, _>(e),
        },
    decreases len, 2nat, 0nat,
{
    proof {
        lemma_args_shorter(rest@, 2);
    }
    if eq_str(id, "Object") {
        return match variable_slices(rest) {
            Ok(_) => Ok(Type::Object),
            Err(e) => Err(e),
        };
    }
    if eq_str(id, "Decimal") {
        return parse_decimal(rest);
    }
    if eq_str(id, "Decimal32") {
        return match parse_size_in_parens(rest, 9, TypeParseReason::InvalidScale) {
            Ok(s) => Ok(Type::Decimal32(s)),
            Err(e) => Err(e),
        };
    }
    if eq_str(id, "Decimal64") {
        return match parse_size_in_parens(rest, 18, TypeParseReason::InvalidScale) {
            Ok(s) => Ok(Type::Decimal64(s)),
            Err(e) => Err(e),
        };
    }
    if eq_str(id, "Decimal128") {
        return match parse_size_in_parens(rest, 38, TypeParseReason::InvalidScale) {
            Ok(s) => Ok(Type::Decimal128(s)),
            Err(e) => Err(e),
        };
    }
    if eq_str(id, "Decimal256") {
        return match parse_size_in_parens(rest, 76, TypeParseReason::InvalidScale) {
            Ok(s) => Ok(Type::Decimal256(s)),
            Err(e) => Err(e),
        };
    }
    if eq_str(id, "FixedString") {
        return match parse_size_in_parens(rest, usize::MAX, TypeParseReason::EmptyFixedString) {
            Ok(s) => Ok(Type::FixedSizedString(s)),
            Err(e) => Err(e),
        };
    }
    if eq_str(id, "DateTime") {
        return parse_datetime(rest);
    }
    if eq_str(id, "DateTime64") {
        return parse_datetime64(rest);
    }
    if eq_str(id, "Enum8") {
        return match parse_enum8(rest) {
            Ok(v) => Ok(Type::Enum8(v)),
            Err(e) => Err(e),
        };
    }
    if eq_str(id, "Enum16") {
        return match parse_enum16(rest) {
            Ok(v) => Ok(Type::Enum16(v)),
            Err(e) => Err(e),
        };
    }
    if eq_str(id, "LowCardinality") {
        return match parse_one_type(rest, Ghost(len)) {
            Ok(t) => Ok(Type::LowCardinality(Box::new(t))),
            Err(e) => Err(e),
        };
    }
    if eq_str(id, "Array") {
        return match parse_one_type(rest, Ghost(len)) {
            Ok(t) => Ok(Type::Array(Box::new(t))),
            Err(e) => Err(e),
        };
    }
    if eq_str(id, "Nullable") {
        return match parse_one_type(rest, Ghost(len)) {
            Ok(t) => Ok(Type::Nullable(Box::new(t))),
            Err(e) => Err(e),
        };
    }
    if eq_str(id, "Tuple") {
        let args = match variable_slices(rest) {
            Ok(args) => args,
            Err(e) => return Err(e),
        };
        return match parse_tuple_types(&args, Ghost(len)) {
            Ok(ts) => {
                let t = Type::Tuple(ts);
                proof {
                    t.lemma_view();
                }
                Ok(t)
            },
            Err(e) => Err(e),
        };
    }
    if eq_str(id, "Map") {
        let args = match fixed_slices(rest, 2) {
            Ok(args) => args,
            Err(e) => return Err(e),
        };
        assert(slices(args@).len() == args@.len());
        if args.len() != 2 {
            return Err(TypeParseReason::ArgumentCount);
        }
        return match parse_types(&args, Ghost(len)) {
            Ok(mut ts) => {
                let ghost all = type_views(ts@);
                match (ts.pop(), ts.pop()) {
                    (Some(v), Some(k)) => {
                        assert(all[0] == k@ && all[1] == v@);
                        Ok(Type::MapOf(Box::new(k), Box::new(v)))
                    },
                    _ => Err(TypeParseReason::ArgumentCount),
                }
            },
            Err(e) => Err(e),
        };
    }
    if eq_str(id, "Variant") {
        let args = match variable_slices(rest) {
            Ok(args) => args,
            Err(e) => return Err(e),
        };
        assert(slices(args@).len() == args@.len());
        if args.len() == 0 {
            return Err(TypeParseReason::EmptyVariant);
        }
        return match parse_types(&args, Ghost(len)) {
            Ok(ts) => {
                let t = Type::Variant(ts);
                proof {
                    t.lemma_view();
                }
                Ok(t)
            },
            Err(e) => Err(e),
        };
    }
    if eq_str(id, "Dynamic") {
        let args = match variable_slices(rest) {
            Ok(args) => args,
            Err(e) => return Err(e),
        };
        return match parse_dynamic_parameters(&args) {
            Ok(max_types) => Ok(Type::Dynamic { max_types }),
            Err(e) => Err(e),
        };
    }
    if eq_str(id, "JSON") {
        let args = match variable_slices(rest) {
            Ok(args) => args,
            Err(e) => return Err(e),
        };
        return match parse_json_parameters(&args, Ghost(len)) {
            Ok(p) => {
                let t = Type::JSON {
                    max_dynamic_paths: p.max_dynamic_paths,
                    max_dynamic_types: p.max_dynamic_types,
                    typed_paths: p.typed_paths,
                    skip_exact: p.skip_exact,
                    skip_regex: p.skip_regex,
                };
                proof {
                    t.lemma_view();
                }
                Ok(t)
            },
            Err(e) => Err(e),
        };
    }
    if eq_str(id, "Nested") {
        let args = match variable_slices(rest) {
            Ok(args) => args,
            Err(e) => return Err(e),
        };
        assert(slices(args@).len() == args@.len());
        if args.len() == 0 {
            return Err(TypeParseReason::UnsupportedNested);
        }
        return match parse_nested_types(&args, Ghost(len)) {
            Ok(ts) => {
                let row = Type::Tuple(ts);
                proof {
                    row.lemma_view();
                }
                Ok(Type::Array(Box::new(row)))
            },
            Err(e) => Err(e),
        };
    }
    Err(TypeParseReason::NotParameterized)
}

fn parse_chars(s: &[char]) -> (r: core::result::Result<Type, TypeParseReason>)
    ensures
        match r {
            Ok(t) => parsed_type(s@) == Ok::<_, TypeParseReason>(t@),
            Err(e) => parsed_type(s@) == Err::<TypeView, _>(e),
        },
    decreases s@.len(), 3nat, 0nat,
{
    let n = ident_len(s);
    if n == 0 {
        return Err(TypeParseReason::EmptyIdentifier);
    }
    let id = slice_subrange(s, 0, n);
    let behind = slice_subrange(s, n, s.len());
    proof {
        assert(id@ =~= s@.take(n as int));
        assert(behind@ =~= s@.skip(n as int));
    }
    let rest = trim(behind);
    if rest.len() == 0 {
        parse_plain(id)
    } else {
        parse_with_args(id, rest, Ghost(s@.len()))
    }
}

impl Type {
    /// Reads a type from its name.
    pub fn from_str(s: &str) -> (r: Result<Type>)
        ensures
            match r {
                Ok(t) => parsed_type(s@) == Ok::<_, TypeParseReason>(t@),
                Err(e) => parsed_type(s@) is Err && e == Error::TypeParseError(
                    parsed_type(s@)->Err_0,
                ),
            },
    {
        let chars = to_chars(s);
        match parse_chars(&chars) {
            Ok(t) => Ok(t),
            Err(e) => Err(Error::TypeParseError(e)),
        }
    }
}

} // verus!
