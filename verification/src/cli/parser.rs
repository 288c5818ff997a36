//! The command grammar: an operation is one of the words `create` or
//! `delete` at the start of the input; whatever follows is left over.

use vstd::prelude::*;

use crate::cli::operation::Opperation;

verus! {

/// Why parsing failed: no alternative matched at `input`.
#[derive(Debug, Clone, Copy, PartialEq, Eq)]
pub struct ParseError<'a> {
    pub input: &'a str,
}

/// What a parser gives back: what is left of the input and the value
/// parsed, or where it failed.
pub type ParseResult<'a> = Result<(&'a str, Opperation), ParseError<'a>>;

/// `input` starts with `word`; then `rest` is what follows it.
pub open spec fn after_word(input: Seq<char>, word: Seq<char>, rest: Seq<char>) -> bool {
    &&& word.len() <= input.len()
    &&& input.subrange(0, word.len() as int) == word
    &&& rest == input.subrange(word.len() as int, input.len() as int)
}

/// Whether `input` starts with `word`.
pub open spec fn starts_with(input: Seq<char>, word: Seq<char>) -> bool {
    word.len() <= input.len() && input.subrange(0, word.len() as int) == word
}

/// Match `word` at the start of `input`, giving back what follows it.
fn tag<'a>(input: &'a str, word: &str) -> (r: Option<&'a str>)
    ensures
        r is Some <==> starts_with(input@, word@),
        r matches Some(rest) ==> after_word(input@, word@, rest@),
{
    let n = input.unicode_len();
    let m = word.unicode_len();
    if m > n {
        return None;
    }
    let mut i: usize = 0;
    while i < m
        invariant
            m == word@.len(),
            n == input@.len(),
            m <= n,
            i <= m,
            forall|k: int| 0 <= k < i ==> input@[k] == word@[k],
        decreases m - i,
    {
        if input.get_char(i) != word.get_char(i) {
            proof {
                assert(input@.subrange(0, m as int)[i as int] != word@[i as int]);
            }
            return None;
        }
        i = i + 1;
    }
    proof {
        assert(input@.subrange(0, m as int) =~= word@);
    }
    Some(input.substring_char(m, n))
}

/// `create`, at the start of `input`.
pub fn parse_create_opperation<'a>(input: &'a str) -> (r: ParseResult<'a>)
    ensures
        match r {
            Ok((rest, op)) => op == Opperation::Create && after_word(input@, "create"@, rest@),
            Err(e) => !starts_with(input@, "create"@) && e.input@ == input@,
        },
{
    match tag(input, "create") {
        Some(rest) => Ok((rest, Opperation::Create)),
        None => Err(ParseError { input }),
    }
}

/// `delete`, at the start of `input`.
pub fn parse_delete_opperation<'a>(input: &'a str) -> (r: ParseResult<'a>)
    ensures
        match r {
            Ok((rest, op)) => op == (Opperation::Delete {}) && after_word(input@, "delete"@, rest@),
            Err(e) => !starts_with(input@, "delete"@) && e.input@ == input@,
        },
{
    match tag(input, "delete") {
        Some(rest) => Ok((rest, Opperation::Delete {})),
        None => Err(ParseError { input }),
    }
}

/// An operation at the start of `input`: `create` is tried first, then
/// `delete`.
pub fn parse_opperation<'a>(input: &'a str) -> (r: ParseResult<'a>)
    ensures
        match r {
            Ok((rest, op)) => if starts_with(input@, "create"@) {
                op == Opperation::Create && after_word(input@, "create"@, rest@)
            } else {
                op == (Opperation::Delete {}) && after_word(input@, "delete"@, rest@)
            },
            Err(e) => !starts_with(input@, "create"@) && !starts_with(input@, "delete"@) && e.input@ == input@,
        },
{
    match parse_create_opperation(input) {
        Ok(found) => Ok(found),
        Err(_) => parse_delete_opperation(input),
    }
}

} // verus!
