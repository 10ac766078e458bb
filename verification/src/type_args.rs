//! Identifiers and argument lists in the names of types.
use vstd::prelude::*;
use vstd::slice::slice_subrange;

use crate::error::{Error, Result, TypeParseReason};
use crate::text::{
    alphabetic, from_chars, is_alphabetic, is_ascii_letter, is_digit, is_numeric, lemma_trimmed_len,
    numeric, texts, to_chars, trim, trimmed,
};

verus! {

// ---------------------------------------------------------------------------
// Identifiers
// ---------------------------------------------------------------------------

/// Characters of an identifier. It does not begin with a number.
pub open spec fn is_ident_char(c: char, first: bool) -> bool {
    ||| (if c as u32 <= 127 {
        is_ascii_letter(c)
    } else {
        alphabetic(c)
    })
    ||| c == '_'
    ||| c == '$'
    ||| !first && (if c as u32 <= 127 {
        is_digit(c)
    } else {
        numeric(c)
    })
}

/// Where the identifier ends that `s` begins with, seen from position `i` in it.
pub open spec fn ident_end(s: Seq<char>, i: int) -> int
    decreases s.len() - i,
{
    if 0 <= i < s.len() && is_ident_char(s[i], i == 0) {
        ident_end(s, i + 1)
    } else {
        i
    }
}

pub proof fn lemma_ident_end(s: Seq<char>, i: int)
    requires
        0 <= i <= s.len(),
    ensures
        i <= ident_end(s, i) <= s.len(),
    decreases s.len() - i,
{
    if i < s.len() && is_ident_char(s[i], i == 0) {
        lemma_ident_end(s, i + 1);
    }
}

/// The length of the identifier that `s` begins with.
pub(crate) fn ident_len(s: &[char]) -> (r: usize)
    ensures
        r == ident_end(s@, 0),
        r <= s@.len(),
{
    let mut i: usize = 0;
    while i < s.len()
        invariant
            i <= s.len(),
            ident_end(s@, 0) == ident_end(s@, i as int),
        decreases s.len() - i,
    {
        let c = s[i];
        if !(is_alphabetic(c) || c == '_' || c == '$' || (i > 0 && is_numeric(c))) {
            return i;
        }
        i += 1;
    }
    i
}

/// Splits off the identifier that a type name begins with.
pub fn eat_identifier<'a>(input: &'a str) -> (r: (&'a str, &'a str))
    ensures
        r.0@ == input@.take(ident_end(input@, 0)),
        r.1@ == input@.skip(ident_end(input@, 0)),
{
    let chars = to_chars(input);
    let n = ident_len(&chars);
    (input.substring_char(0, n), input.substring_char(n, chars.len()))
}

// ---------------------------------------------------------------------------
// Argument lists
// ---------------------------------------------------------------------------

/// Where a scan of an argument list stands: how many parentheses are open, and
/// whether the scan is within quotes, behind a backslash.
pub ghost struct Scan {
    pub depth: int,
    pub quoted: bool,
    pub escaped: bool,
}

/// The scan before the first character.
pub open spec fn scan_start() -> Scan {
    Scan { depth: 0, quoted: false, escaped: false }
}

/// The scan behind one more character.
pub open spec fn scan_step(st: Scan, c: char) -> Scan {
    if st.quoted {
        if c == '\\' {
            Scan { escaped: true, ..st }
        } else if c == '\'' && !st.escaped {
            Scan { quoted: false, escaped: false, ..st }
        } else {
            Scan { escaped: false, ..st }
        }
    } else if c == '\'' {
        Scan { quoted: true, escaped: false, ..st }
    } else if c == '(' {
        Scan { depth: st.depth + 1, escaped: false, ..st }
    } else if c == ')' {
        Scan { depth: st.depth - 1, escaped: false, ..st }
    } else {
        Scan { escaped: false, ..st }
    }
}

/// Whether a comma at this point separates arguments.
pub open spec fn splits_here(st: Scan) -> bool {
    !st.quoted && st.depth == 0
}

/// The position of the first comma from `i` on that separates arguments.
pub open spec fn find_comma(s: Seq<char>, i: int, st: Scan) -> Option<int>
    decreases s.len() - i,
{
    if i < 0 || i >= s.len() {
        None
    } else if s[i] == ',' && splits_here(st) {
        Some(i)
    } else {
        find_comma(s, i + 1, scan_step(st, s[i]))
    }
}

/// The scan behind the last character, from `i` on.
pub open spec fn scan_end(s: Seq<char>, i: int, st: Scan) -> Scan
    decreases s.len() - i,
{
    if i < 0 || i >= s.len() {
        st
    } else {
        scan_end(s, i + 1, scan_step(st, s[i]))
    }
}

pub proof fn lemma_find_comma(s: Seq<char>, i: int, st: Scan)
    requires
        0 <= i,
    ensures
        find_comma(s, i, st) matches Some(k) ==> i <= k < s.len() && s[k] == ',',
    decreases s.len() - i,
{
    if i < s.len() && !(s[i] == ',' && splits_here(st)) {
        lemma_find_comma(s, i + 1, scan_step(st, s[i]));
    }
}

/// The arguments in `s`, up to the first that is malformed.
pub open spec fn args_from(s: Seq<char>) -> Seq<core::result::Result<Seq<char>, TypeParseReason>>
    decreases s.len(),
{
    match find_comma(s, 0, scan_start()) {
        Some(i) => {
            let arg = trimmed(s.take(i));
            if arg.len() == 0 {
                seq![Err(TypeParseReason::EmptyArgument)]
            } else {
                proof {
                    lemma_find_comma(s, 0, scan_start());
                }
                seq![Ok(arg)] + args_from(s.skip(i + 1))
            }
        },
        None => {
            let arg = trimmed(s);
            if scan_end(s, 0, scan_start()).depth != 0 {
                seq![Err(TypeParseReason::MismatchedParentheses)]
            } else if arg.len() == 0 {
                Seq::empty()
            } else {
                seq![Ok(arg)]
            }
        },
    }
}

/// What stands between the parentheses of an argument list.
pub open spec fn args_inner(input: Seq<char>) -> Seq<char> {
    trimmed(input.subrange(1, input.len() - 1))
}

/// Whether text is enclosed in parentheses.
pub open spec fn in_parens(input: Seq<char>) -> bool {
    input.len() >= 2 && input[0] == '(' && input.last() == ')'
}

/// The arguments of a list, or what is wrong with the list as a whole.
pub open spec fn arg_items(input: Seq<char>) -> core::result::Result<
    Seq<core::result::Result<Seq<char>, TypeParseReason>>,
    TypeParseReason,
> {
    if !in_parens(input) {
        Err(TypeParseReason::MalformedArguments)
    } else if args_inner(input).len() > 0 && args_inner(input).last() == ',' {
        Err(TypeParseReason::TrailingComma)
    } else {
        Ok(args_from(args_inner(input)))
    }
}

/// The arguments of a list that holds any number of them.
pub open spec fn variable_args(input: Seq<char>) -> core::result::Result<
    Seq<Seq<char>>,
    TypeParseReason,
> {
    match arg_items(input) {
        Err(e) => Err(e),
        Ok(items) => if items.len() > 0 && items.last() is Err {
            Err(items.last()->Err_0)
        } else {
            Ok(Seq::new(items.len(), |i: int| items[i]->Ok_0))
        },
    }
}

/// The arguments of a list that holds at most `n` of them.
pub open spec fn fixed_args(input: Seq<char>, n: nat) -> core::result::Result<
    Seq<Seq<char>>,
    TypeParseReason,
> {
    match arg_items(input) {
        Err(e) => Err(e),
        Ok(items) => if 0 < items.len() <= n && items.last() is Err {
            Err(items.last()->Err_0)
        } else if items.len() > n {
            Err(TypeParseReason::TooManyArguments)
        } else {
            Ok(Seq::new(items.len(), |i: int| items[i]->Ok_0))
        },
    }
}

/// Only the last argument can be malformed, and none is longer than the list.
pub proof fn lemma_args_from(s: Seq<char>)
    ensures
        forall|i: int|
            #![trigger args_from(s)[i]]
            0 <= i < args_from(s).len() - 1 ==> args_from(s)[i] is Ok,
        forall|i: int|
            #![trigger args_from(s)[i]]
            0 <= i < args_from(s).len() ==> (args_from(s)[i] matches Ok(a) ==> a.len() <= s.len()),
    decreases s.len(),
{
    match find_comma(s, 0, scan_start()) {
        Some(i) => {
            lemma_find_comma(s, 0, scan_start());
            lemma_trimmed_len(s.take(i));
            lemma_args_from(s.skip(i + 1));
        },
        None => {
            lemma_trimmed_len(s);
        },
    }
}

/// An argument is shorter than the list with its parentheses.
pub proof fn lemma_args_shorter(input: Seq<char>, n: nat)
    ensures
        variable_args(input) matches Ok(args) ==> forall|i: int|
            0 <= i < args.len() ==> (#[trigger] args[i]).len() < input.len(),
        fixed_args(input, n) matches Ok(args) ==> forall|i: int|
            0 <= i < args.len() ==> (#[trigger] args[i]).len() < input.len(),
{
    if in_parens(input) {
        lemma_trimmed_len(input.subrange(1, input.len() - 1));
        lemma_args_from(args_inner(input));
    }
}

/// The views of a list of character slices.
pub open spec fn slices(v: Seq<&[char]>) -> Seq<Seq<char>> {
    Seq::new(v.len(), |i: int| v[i]@)
}

/// The arguments, each one an item, with the error that ends them, where there is one.
pub open spec fn as_items(
    args: Seq<Seq<char>>,
    failure: Option<TypeParseReason>,
) -> Seq<core::result::Result<Seq<char>, TypeParseReason>> {
    let oks = Seq::new(args.len(), |i: int| Ok(args[i]));
    match failure {
        Some(e) => oks.push(Err(e)),
        None => oks,
    }
}

/// Splits the text between the parentheses into arguments.
fn split_args<'a>(s: &'a [char]) -> (r: (Vec<&'a [char]>, Option<TypeParseReason>))
    ensures
        args_from(s@) == as_items(slices(r.0@), r.1),
{
    let mut out: Vec<&'a [char]> = Vec::new();
    let mut start: usize = 0;
    let mut i: usize = 0;
    let mut depth: i128 = 0;
    let mut quoted: bool = false;
    let mut escaped: bool = false;
    proof {
        assert(s@.skip(0) =~= s@);
        assert(as_items(slices(out@), None) + args_from(s@) =~= args_from(s@));
    }
    while i < s.len()
        invariant
            start <= i <= s.len(),
            -(i as int) <= depth <= i,
            args_from(s@) == as_items(slices(out@), None) + args_from(s@.skip(start as int)),
            find_comma(s@.skip(start as int), 0, scan_start()) == find_comma(
                s@.skip(start as int),
                i - start,
                (Scan { depth: depth as int, quoted, escaped }),
            ),
            scan_end(s@.skip(start as int), 0, scan_start()) == scan_end(
                s@.skip(start as int),
                i - start,
                (Scan { depth: depth as int, quoted, escaped }),
            ),
            !quoted ==> !escaped,
        decreases s.len() - i,
    {
        let c = s[i];
        let ghost rest = s@.skip(start as int);
        assert(rest[i - start] == c);
        if c == ',' && !quoted && depth == 0 {
            let piece = slice_subrange(s, start, i);
            let arg = trim(piece);
            proof {
                assert(piece@ =~= rest.take(i - start));
                assert(rest.skip(i - start + 1) =~= s@.skip(i + 1));
            }
            if arg.len() == 0 {
                proof {
                    assert(args_from(rest) == seq![Err::<Seq<char>, TypeParseReason>(TypeParseReason::EmptyArgument)]);
                    assert(as_items(slices(out@), None) + args_from(rest) =~= as_items(
                        slices(out@),
                        Some(TypeParseReason::EmptyArgument),
                    ));
                }
                return (out, Some(TypeParseReason::EmptyArgument));
            }
            let ghost before = out@;
            out.push(arg);
            proof {
                assert(args_from(rest) == seq![Ok::<Seq<char>, TypeParseReason>(arg@)] + args_from(s@.skip(i + 1)));
                assert(as_items(slices(before), None) + args_from(rest) =~= as_items(
                    slices(out@),
                    None,
                ) + args_from(s@.skip(i + 1)));
            }
            start = i + 1;
        } else if quoted {
            if c == '\\' {
                escaped = true;
            } else {
                if c == '\'' && !escaped {
                    quoted = false;
                }
                escaped = false;
            }
        } else if c == '\'' {
            quoted = true;
        } else if c == '(' {
            depth = depth + 1;
        } else if c == ')' {
            depth = depth - 1;
        }
        i += 1;
    }
    let piece = slice_subrange(s, start, s.len());
    assert(piece@ =~= s@.skip(start as int));
    if depth != 0 {
        proof {
            assert(as_items(slices(out@), None) + args_from(piece@) =~= as_items(
                slices(out@),
                Some(TypeParseReason::MismatchedParentheses),
            ));
        }
        return (out, Some(TypeParseReason::MismatchedParentheses));
    }
    let arg = trim(piece);
    let ghost before = out@;
    if arg.len() > 0 {
        out.push(arg);
        assert(as_items(slices(before), None) + args_from(piece@) =~= as_items(slices(out@), None));
    } else {
        assert(as_items(slices(before), None) + args_from(piece@) =~= as_items(slices(out@), None));
    }
    (out, None)
}

/// The arguments of a list in parentheses, with the error that ends them.
fn parse_args_iter<'a>(input: &'a [char]) -> (r: core::result::Result<
    (Vec<&'a [char]>, Option<TypeParseReason>),
    TypeParseReason,
>)
    ensures
        match r {
            Ok((args, failure)) => arg_items(input@) == Ok::<_, TypeParseReason>(
                as_items(slices(args@), failure),
            ),
            Err(e) => arg_items(input@) == Err::<
                Seq<core::result::Result<Seq<char>, TypeParseReason>>,
                _,
            >(e),
        },
{
    if input.len() < 2 || input[0] != '(' || input[input.len() - 1] != ')' {
        return Err(TypeParseReason::MalformedArguments);
    }
    let inner = trim(slice_subrange(input, 1, input.len() - 1));
    if inner.len() > 0 && inner[inner.len() - 1] == ',' {
        return Err(TypeParseReason::TrailingComma);
    }
    Ok(split_args(inner))
}

pub(crate) fn variable_slices<'a>(input: &'a [char]) -> (r: core::result::Result<
    Vec<&'a [char]>,
    TypeParseReason,
>)
    ensures
        match r {
            Ok(args) => variable_args(input@) == Ok::<_, TypeParseReason>(slices(args@)),
            Err(e) => variable_args(input@) == Err::<Seq<Seq<char>>, _>(e),
        },
{
    let (args, failure) = match parse_args_iter(input) {
        Ok(x) => x,
        Err(e) => return Err(e),
    };
    match failure {
        Some(e) => Err(e),
        None => {
            assert(slices(args@) =~= variable_args(input@)->Ok_0);
            Ok(args)
        },
    }
}

pub(crate) fn fixed_slices<'a>(input: &'a [char], n: usize) -> (r: core::result::Result<
    Vec<&'a [char]>,
    TypeParseReason,
>)
    ensures
        match r {
            Ok(args) => fixed_args(input@, n as nat) == Ok::<_, TypeParseReason>(slices(args@)),
            Err(e) => fixed_args(input@, n as nat) == Err::<Seq<Seq<char>>, _>(e),
        },
{
    let (args, failure) = match parse_args_iter(input) {
        Ok(x) => x,
        Err(e) => return Err(e),
    };
    match failure {
        Some(e) => {
            if args.len() >= n {
                Err(TypeParseReason::TooManyArguments)
            } else {
                Err(e)
            }
        },
        None => {
            if args.len() > n {
                Err(TypeParseReason::TooManyArguments)
            } else {
                assert(slices(args@) =~= fixed_args(input@, n as nat)->Ok_0);
                Ok(args)
            }
        },
    }
}

/// Splits an argument list that holds any number of arguments.
pub fn parse_variable_args(input: &str) -> (r: Result<Vec<String>>)
    ensures
        match r {
            Ok(args) => variable_args(input@) == Ok::<_, TypeParseReason>(texts(args@)),
            Err(e) => variable_args(input@) is Err && e == Error::TypeParseError(
                variable_args(input@)->Err_0,
            ),
        },
{
    let chars = to_chars(input);
    match variable_slices(&chars) {
        Ok(args) => Ok(to_strings(&args)),
        Err(e) => Err(Error::TypeParseError(e)),
    }
}

/// Splits an argument list that holds at most `N` arguments. The strings behind the
/// ones that are there are empty.
pub fn parse_fixed_args<const N: usize>(input: &str) -> (r: Result<(Vec<String>, usize)>)
    ensures
        match r {
            Ok((args, count)) => {
                &&& args@.len() == N
                &&& count <= N
                &&& fixed_args(input@, N as nat) == Ok::<_, TypeParseReason>(
                    texts(args@).take(count as int),
                )
                &&& forall|i: int| count <= i < N ==> (#[trigger] args@[i])@.len() == 0
            },
            Err(e) => fixed_args(input@, N as nat) is Err && e == Error::TypeParseError(
                fixed_args(input@, N as nat)->Err_0,
            ),
        },
{
    let chars = to_chars(input);
    match fixed_slices(&chars, N) {
        Ok(args) => {
            let count: usize = args.len();
            let mut out = to_strings(&args);
            let ghost found = out@;
            proof {
                assert(texts(out@).len() == slices(args@).len());
                assert(out@.take(count as int) =~= found);
            }
            while out.len() < N
                invariant
                    found.len() == count <= out.len() <= N,
                    out@.take(count as int) == found,
                    forall|i: int| count <= i < out@.len() ==> (#[trigger] out@[i])@.len() == 0,
                decreases N - out.len(),
            {
                let ghost before = out@;
                out.push(String::new());
                assert(out@.take(count as int) =~= before.take(count as int));
            }
            assert(texts(out@).take(count as int) =~= texts(found));
            Ok((out, count))
        },
        Err(e) => Err(Error::TypeParseError(e)),
    }
}

fn to_strings(args: &Vec<&[char]>) -> (r: Vec<String>)
    ensures
        texts(r@) == slices(args@),
{
    let mut out: Vec<String> = Vec::new();
    let mut i: usize = 0;
    while i < args.len()
        invariant
            i <= args.len(),
            out.len() == i,
            forall|j: int| 0 <= j < i ==> out@[j]@ == args@[j]@,
        decreases args.len() - i,
    {
        out.push(from_chars(args[i]));
        i += 1;
    }
    assert(texts(out@) =~= slices(args@));
    out
}

} // verus!
