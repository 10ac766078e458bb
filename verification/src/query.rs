//! Queries: their identifiers, parameters and texts.
use vstd::prelude::*;
use vstd::utf8::encode_utf8;

use crate::text::{
    from_chars, is_white, lemma_trimmed_same, skip_back, skip_front, to_chars, trim, trimmed,
};
use crate::value_text::hex_text;
use crate::wire::{put_string, string_bytes};

verus! {

/// Whether an identifier is one of those made by chance: the bits that tell so are set.
pub open spec fn is_random_id(n: u128) -> bool {
    &&& n as nat / 0x1000_0000_0000_0000_0000 % 16 == 4
    &&& n as nat / 0x4000_0000_0000_0000 % 4 == 2
}

/// Calls `uuid::Uuid::new_v4`, which makes an identifier by chance. All but the bits that
/// tell so is left to chance.
#[verifier::external_body]
fn random_id() -> (r: u128)
    ensures
        is_random_id(r),
{
    uuid::Uuid::new_v4().as_u128()
}

/// Calls `uuid::Uuid::as_simple` and `to_string` on the result: 32 hexadecimal digits in
/// lower case.
#[verifier::external_body]
fn simple_id(n: u128) -> (r: String)
    ensures
        r@ == hex_text(n as nat, 32),
{
    uuid::Uuid::from_u128(n).as_simple().to_string()
}

/// The identifier of a query.
#[derive(Clone, Copy, Debug, PartialEq, Eq, Structural, Hash)]
pub struct Qid(u128);

/// The sum of the last `k` bytes of a number.
pub open spec fn byte_sum(n: nat, k: nat) -> nat
    decreases k,
{
    if k == 0 {
        0
    } else {
        n % 256 + byte_sum(n / 256, (k - 1) as nat)
    }
}

impl Qid {
    /// The number of the identifier.
    pub closed spec fn view(&self) -> u128 {
        self.0
    }

    /// A new identifier.
    pub fn new() -> (r: Qid)
        ensures
            is_random_id(r@),
    {
        Qid(random_id())
    }

    /// The identifier with a number.
    pub fn from_u128(id: u128) -> (r: Qid)
        ensures
            r@ == id,
    {
        Qid(id)
    }

    /// The identifier with a number, or a new one.
    pub fn from_option(id: Option<u128>) -> (r: Qid)
        ensures
            match id {
                Some(n) => r@ == n,
                None => is_random_id(r@),
            },
    {
        match id {
            Some(n) => Qid(n),
            None => Qid::new(),
        }
    }

    /// The number of the identifier.
    pub fn into_inner(self) -> (r: u128)
        ensures
            r == self@,
    {
        self.0
    }

    /// A small number that the identifier always has: the sum of its bytes.
    pub fn key(self) -> (r: usize)
        ensures
            r == byte_sum(self@ as nat, 16),
    {
        let mut left: u128 = self.0;
        let mut sum: usize = 0;
        let mut i: usize = 0;
        while i < 16
            invariant
                i <= 16,
                sum <= 255 * i,
                sum + byte_sum(left as nat, (16 - i) as nat) == byte_sum(self@ as nat, 16),
            decreases 16 - i,
        {
            sum = sum + (left % 256) as usize;
            left = left / 256;
            i += 1;
        }
        sum
    }

    /// The text of the identifier.
    pub fn to_string(&self) -> (r: String)
        ensures
            r@ == hex_text(self@ as nat, 32),
    {
        simple_id(self.0)
    }

    /// Appends the text of the identifier behind its length.
    pub fn write_id(&self, writer: &mut Vec<u8>)
        ensures
            final(writer)@ == old(writer)@ + string_bytes(
                encode_utf8(hex_text(self@ as nat, 32)),
            ),
    {
        let s = simple_id(self.0);
        put_string(writer, s.as_str().as_bytes());
    }
}

impl Default for Qid {
    fn default() -> (r: Qid)
        ensures
            is_random_id(r@),
    {
        Qid::new()
    }
}

/// The value of a parameter. Numbers of floating point are held as their bits.
#[derive(Debug, Clone, PartialEq, Eq)]
pub enum ParamValue {
    Int(i64),
    Bool(bool),
    Float(u64),
    Text(String),
}

/// Values that a query refers to by names.
#[derive(Debug, Clone, PartialEq, Eq)]
pub struct QueryParams(pub Vec<(String, ParamValue)>);

impl QueryParams {
    /// Parameters in the order in which they were given.
    pub fn new(params: Vec<(String, ParamValue)>) -> (r: QueryParams)
        ensures
            r.0 == params,
    {
        QueryParams(params)
    }

    /// The settings that the parameters are sent as: the same names and values in the
    /// same order.
    pub fn into_settings(self) -> (r: Vec<(String, ParamValue)>)
        ensures
            r == self.0,
    {
        self.0
    }
}

/// The text of a query.
#[derive(Debug, Clone, PartialEq, Eq)]
pub struct ParsedQuery(String);

impl ParsedQuery {
    /// The text.
    pub closed spec fn view(&self) -> Seq<char> {
        self.0@
    }

    /// A query of the given text, without white space around it.
    pub fn new(q: &str) -> (r: ParsedQuery)
        ensures
            r@ == trimmed(q@),
    {
        let chars = to_chars(q);
        ParsedQuery(from_chars(trim(&chars)))
    }

    /// The text.
    pub fn as_str(&self) -> (r: &str)
        ensures
            r@ == self@,
    {
        self.0.as_str()
    }
}

/// Taking white space away a second time changes nothing.
pub proof fn law_query_is_trimmed_once(q: Seq<char>)
    ensures
        trimmed(trimmed(q)) == trimmed(q),
{
    let f = |c: char| is_white(c);
    lemma_front(q, f);
    lemma_back(skip_front(q, f), f);
    let t = trimmed(q);
    if t.len() > 0 {
        assert(t[0] == skip_front(q, f)[0]);
    }
    lemma_trimmed_same(t);
}

proof fn lemma_front(s: Seq<char>, f: spec_fn(char) -> bool)
    ensures
        skip_front(s, f).len() > 0 ==> !f(skip_front(s, f)[0]),
    decreases s.len(),
{
    if s.len() > 0 && f(s[0]) {
        lemma_front(s.skip(1), f);
    }
}

proof fn lemma_back(s: Seq<char>, f: spec_fn(char) -> bool)
    ensures
        skip_back(s, f).len() <= s.len(),
        skip_back(s, f) == s.take(skip_back(s, f).len() as int),
        skip_back(s, f).len() > 0 ==> !f(skip_back(s, f).last()),
    decreases s.len(),
{
    if s.len() > 0 && f(s.last()) {
        lemma_back(s.drop_last(), f);
        let r = skip_back(s, f);
        assert(s.drop_last().take(r.len() as int) =~= s.take(r.len() as int));
    } else {
        assert(s.take(s.len() as int) =~= s);
    }
}

} // verus!
