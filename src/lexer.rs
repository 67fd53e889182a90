use vstd::prelude::*;
use vstd::string::*;

verus! {

broadcast use vstd::seq_lib::group_seq_properties;

/// A lexical unit of the language.
#[derive(Debug, PartialEq, Eq)]
pub enum Token {
    LeftParen,
    RightParen,
    Integer(i64),
    String(String),
    Symbol(String),
}

/// The mathematical value of a `Token`.
pub enum Tok {
    LeftParen,
    RightParen,
    Integer(i64),
    Text(Seq<char>),
    Symbol(Seq<char>),
}

impl View for Token {
    type V = Tok;

    open spec fn view(&self) -> Tok {
        match self {
            Token::LeftParen => Tok::LeftParen,
            Token::RightParen => Tok::RightParen,
            Token::Integer(v) => Tok::Integer(*v),
            Token::String(s) => Tok::Text(s@),
            Token::Symbol(s) => Tok::Symbol(s@),
        }
    }
}

/// Why lexing stopped. Positions count characters from 1.
#[derive(Debug, PartialEq, Eq)]
pub enum LexError {
    UnterminatedString { partial_content: String, position: usize },
    InvalidNumber { text: String, position: usize },
    UnexpectedCharacter { character: char, position: usize },
}

/// The value of a `LexError`.
pub enum LexErr {
    UnterminatedString { partial_content: Seq<char>, position: int },
    InvalidNumber { text: Seq<char>, position: int },
    UnexpectedCharacter { character: char, position: int },
}

impl View for LexError {
    type V = LexErr;

    open spec fn view(&self) -> LexErr {
        match self {
            LexError::UnterminatedString { partial_content, position } => LexErr::UnterminatedString {
                partial_content: partial_content@,
                position: *position as int,
            },
            LexError::InvalidNumber { text, position } => LexErr::InvalidNumber {
                text: text@,
                position: *position as int,
            },
            LexError::UnexpectedCharacter { character, position } => LexErr::UnexpectedCharacter {
                character: *character,
                position: *position as int,
            },
        }
    }
}

/// The model of a token sequence.
pub open spec fn toks(v: Seq<Token>) -> Seq<Tok> {
    v.map_values(|t: Token| t@)
}

/// The value of what `tokenizer` returns.
pub open spec fn lex_result(r: Result<Vec<Token>, LexError>) -> Result<Seq<Tok>, LexErr> {
    match r {
        Ok(v) => Ok(toks(v@)),
        Err(e) => Err(e@),
    }
}

/// Whether `char::is_alphabetic` holds of `c`.
pub uninterp spec fn alphabetic(c: char) -> bool;

/// Whether `char::is_alphanumeric` holds of `c`.
pub uninterp spec fn alphanumeric(c: char) -> bool;

/// Whether `char::is_whitespace` holds of `c`.
pub uninterp spec fn whitespace(c: char) -> bool;

/// Whether `c` is one of the decimal digits `0` to `9`.
pub open spec fn is_ascii_digit(c: char) -> bool {
    '0' <= c && c <= '9'
}

/// Relies on `char::is_alphabetic`: the Unicode Alphabetic property of `c`.
#[verifier::external_body]
fn is_alphabetic(c: char) -> (r: bool)
    ensures
        r == alphabetic(c),
{
    c.is_alphabetic()
}

/// Relies on `char::is_alphanumeric`: whether `c` is alphabetic or numeric.
#[verifier::external_body]
fn is_alphanumeric(c: char) -> (r: bool)
    ensures
        r == alphanumeric(c),
{
    c.is_alphanumeric()
}

/// Relies on `char::is_whitespace`: the Unicode White_Space property of `c`.
#[verifier::external_body]
fn is_whitespace(c: char) -> (r: bool)
    ensures
        r == whitespace(c),
{
    c.is_whitespace()
}

/// The value of a run of decimal digits.
pub open spec fn digits_value(s: Seq<char>) -> nat
    decreases s.len(),
{
    if s.len() == 0 {
        0
    } else {
        10 * digits_value(s.drop_last()) + (s.last() as nat - '0' as nat) as nat
    }
}

/// The end of the run of characters from `j` on that `p` accepts.
pub open spec fn run_end(s: Seq<char>, j: int, p: spec_fn(char) -> bool) -> int
    decreases s.len() - j,
{
    if 0 <= j < s.len() && p(s[j]) {
        run_end(s, j + 1, p)
    } else {
        j
    }
}

proof fn lemma_after_cons(p: Seq<Tok>, t: Tok, r: Result<Seq<Tok>, LexErr>)
    ensures
        after(p, cons(t, r)) == after(p.push(t), r),
{
    if let Ok(ts) = r {
        assert(p + (seq![t] + ts) =~= p.push(t) + ts);
    }
}

/// The index of the first `"` at or after `j`, or the length of `s`.
pub open spec fn quote_end(s: Seq<char>, j: int) -> int {
    run_end(s, j, |c: char| c != '"')
}

/// The end of the run of alphanumeric characters from `j` on.
pub open spec fn symbol_end(s: Seq<char>, j: int) -> int {
    run_end(s, j, |c: char| alphanumeric(c))
}

/// The end of the run of decimal digits from `j` on.
pub open spec fn number_end(s: Seq<char>, j: int) -> int {
    run_end(s, j, |c: char| is_ascii_digit(c))
}

/// `t` followed by what `r` holds, or the error of `r`.
pub open spec fn cons(t: Tok, r: Result<Seq<Tok>, LexErr>) -> Result<Seq<Tok>, LexErr> {
    match r {
        Ok(ts) => Ok(seq![t] + ts),
        Err(e) => Err(e),
    }
}

/// What lexing `s` from index `i` on gives. Each step reads a parenthesis, a
/// text between `"`s (no escapes), a run of decimal digits, a symbol (a letter,
/// then letters and digits), or skips whitespace; any other character stops
/// lexing with an error. Positions count characters from 1.
pub open spec fn lex_from(s: Seq<char>, i: int) -> Result<Seq<Tok>, LexErr>
    decreases s.len() - i,
    when 0 <= i
    via lex_from_decreases
{
    if i >= s.len() {
        Ok(seq![])
    } else {
        let c = s[i];
        if c == '(' {
            cons(Tok::LeftParen, lex_from(s, i + 1))
        } else if c == ')' {
            cons(Tok::RightParen, lex_from(s, i + 1))
        } else if c == '"' {
            let j = quote_end(s, i + 1);
            if j >= s.len() {
                Err(
                    LexErr::UnterminatedString {
                        partial_content: s.subrange(i + 1, s.len() as int),
                        position: s.len() as int,
                    },
                )
            } else {
                cons(Tok::Text(s.subrange(i + 1, j)), lex_from(s, j + 1))
            }
        } else if is_ascii_digit(c) {
            let j = number_end(s, i + 1);
            let v = digits_value(s.subrange(i, j));
            if v <= i64::MAX {
                cons(Tok::Integer(v as i64), lex_from(s, j))
            } else {
                Err(LexErr::InvalidNumber { text: s.subrange(i, j), position: j })
            }
        } else if alphabetic(c) {
            let j = symbol_end(s, i + 1);
            cons(Tok::Symbol(s.subrange(i, j)), lex_from(s, j))
        } else if whitespace(c) {
            lex_from(s, i + 1)
        } else {
            Err(LexErr::UnexpectedCharacter { character: c, position: i + 1 })
        }
    }
}

/// A run lies within `s`, all of it accepted, and ends before a character
/// that is not.
pub proof fn lemma_run_end_bounds(s: Seq<char>, j: int, p: spec_fn(char) -> bool)
    requires
        0 <= j <= s.len(),
    ensures
        j <= run_end(s, j, p) <= s.len(),
        forall|k: int| j <= k < run_end(s, j, p) ==> p(#[trigger] s[k]),
        run_end(s, j, p) < s.len() ==> !p(s[run_end(s, j, p)]),
    decreases s.len() - j,
{
    if j < s.len() && p(s[j]) {
        lemma_run_end_bounds(s, j + 1, p);
    }
}

#[via_fn]
proof fn lex_from_decreases(s: Seq<char>, i: int) {
    if 0 <= i < s.len() {
        lemma_run_end_bounds(s, i + 1, |c: char| c != '"');
        lemma_run_end_bounds(s, i + 1, |c: char| alphanumeric(c));
        lemma_run_end_bounds(s, i + 1, |c: char| is_ascii_digit(c));
    }
}

/// `p` followed by what `r` holds, or the error of `r`.
pub open spec fn after(p: Seq<Tok>, r: Result<Seq<Tok>, LexErr>) -> Result<Seq<Tok>, LexErr> {
    match r {
        Ok(ts) => Ok(p + ts),
        Err(e) => Err(e),
    }
}

proof fn lemma_digits_value_grows(s: Seq<char>, i: int, k: int, m: int)
    requires
        0 <= i <= k <= m <= s.len(),
    ensures
        digits_value(s.subrange(i, k)) <= digits_value(s.subrange(i, m)),
    decreases m - k,
{
    if k < m {
        lemma_digits_value_grows(s, i, k, m - 1);
        assert(s.subrange(i, m).drop_last() =~= s.subrange(i, m - 1));
    }
}

/// The index of the first `"` in `input` at or after `j`, or its length.
fn scan_quote(input: &str, n: usize, j: usize) -> (k: usize)
    requires
        n == input@.len(),
        j <= n,
    ensures
        k == quote_end(input@, j as int),
{
    let mut k = j;
    while k < n
        invariant
            n == input@.len(),
            j <= k <= n,
            quote_end(input@, j as int) == quote_end(input@, k as int),
        decreases n - k,
    {
        if input.get_char(k) == '"' {
            return k;
        }
        k = k + 1;
    }
    k
}

/// The end of the run of alphanumeric characters of `input` from `j` on.
fn scan_symbol(input: &str, n: usize, j: usize) -> (k: usize)
    requires
        n == input@.len(),
        j <= n,
    ensures
        k == symbol_end(input@, j as int),
{
    let mut k = j;
    while k < n
        invariant
            n == input@.len(),
            j <= k <= n,
            symbol_end(input@, j as int) == symbol_end(input@, k as int),
        decreases n - k,
    {
        if !is_alphanumeric(input.get_char(k)) {
            return k;
        }
        k = k + 1;
    }
    k
}

/// The end of the run of decimal digits of `input` from `j` on.
fn scan_number(input: &str, n: usize, j: usize) -> (k: usize)
    requires
        n == input@.len(),
        j <= n,
    ensures
        k == number_end(input@, j as int),
{
    let mut k = j;
    while k < n
        invariant
            n == input@.len(),
            j <= k <= n,
            number_end(input@, j as int) == number_end(input@, k as int),
        decreases n - k,
    {
        let c = input.get_char(k);
        if !('0' <= c && c <= '9') {
            return k;
        }
        k = k + 1;
    }
    k
}

/// The value of the digits of `input` in `[i, j)`, if it fits in an `i64`.
fn number_value(input: &str, i: usize, j: usize) -> (r: Option<i64>)
    requires
        i <= j <= input@.len(),
        forall|k: int| i <= k < j ==> is_ascii_digit(#[trigger] input@[k]),
    ensures
        match r {
            Some(v) => v as int == digits_value(input@.subrange(i as int, j as int)),
            None => digits_value(input@.subrange(i as int, j as int)) > i64::MAX,
        },
{
    let mut v: i64 = 0;
    let mut k = i;
    assert(input@.subrange(i as int, i as int).len() == 0);
    while k < j
        invariant
            i <= k <= j <= input@.len(),
            forall|k: int| i <= k < j ==> is_ascii_digit(#[trigger] input@[k]),
            v as int == digits_value(input@.subrange(i as int, k as int)),
            v >= 0,
        decreases j - k,
    {
        let c = input.get_char(k);
        let d = (c as u32 - '0' as u32) as i64;
        assert(input@.subrange(i as int, k + 1).drop_last() =~= input@.subrange(i as int, k as int));
        let next = match v.checked_mul(10) {
            Some(t) => t.checked_add(d),
            None => None,
        };
        match next {
            Some(t) => {
                v = t;
            },
            None => {
                proof {
                    lemma_digits_value_grows(input@, i as int, k + 1, j as int);
                }
                return None;
            },
        }
        k = k + 1;
    }
    Some(v)
}

/// Splits `input` into tokens, or reports the first character at which that fails.
pub fn tokenizer(input: &str) -> (r: Result<Vec<Token>, LexError>)
    ensures
        lex_result(r) == lex_from(input@, 0),
{
    let ghost s = input@;
    let n = input.unicode_len();
    let mut tokens: Vec<Token> = Vec::new();
    let mut i: usize = 0;
    while i < n
        invariant
            s == input@,
            n == s.len(),
            i <= n,
            after(toks(tokens@), lex_from(s, i as int)) == lex_from(s, 0),
        decreases n - i,
    {
        let ghost before = toks(tokens@);
        let c = input.get_char(i);
        if c == '(' || c == ')' {
            let t = if c == '(' { Token::LeftParen } else { Token::RightParen };
            let ghost tv = t@;
            tokens.push(t);
            proof {
                lemma_after_cons(before, tv, lex_from(s, i + 1));
                assert(toks(tokens@) =~= before.push(tv));
            }
            i = i + 1;
        } else if c == '"' {
            let j = scan_quote(input, n, i + 1);
            proof { lemma_run_end_bounds(s, i + 1, |c: char| c != '"'); }
            if j >= n {
                let partial = String::from_str(input.substring_char(i + 1, n));
                return Err(LexError::UnterminatedString { partial_content: partial, position: n });
            }
            let text = String::from_str(input.substring_char(i + 1, j));
            let ghost tv = Tok::Text(text@);
            tokens.push(Token::String(text));
            proof {
                lemma_after_cons(before, tv, lex_from(s, j + 1));
                assert(toks(tokens@) =~= before.push(tv));
            }
            i = j + 1;
        } else if '0' <= c && c <= '9' {
            let j = scan_number(input, n, i + 1);
            proof { lemma_run_end_bounds(s, i + 1, |c: char| is_ascii_digit(c)); }
            match number_value(input, i, j) {
                Some(v) => {
                    tokens.push(Token::Integer(v));
                    proof {
                        lemma_after_cons(before, Tok::Integer(v), lex_from(s, j as int));
                        assert(toks(tokens@) =~= before.push(Tok::Integer(v)));
                    }
                    i = j;
                },
                None => {
                    let text = String::from_str(input.substring_char(i, j));
                    return Err(LexError::InvalidNumber { text, position: j });
                },
            }
        } else if is_alphabetic(c) {
            let j = scan_symbol(input, n, i + 1);
            proof { lemma_run_end_bounds(s, i + 1, |c: char| alphanumeric(c)); }
            let text = String::from_str(input.substring_char(i, j));
            let ghost tv = Tok::Symbol(text@);
            tokens.push(Token::Symbol(text));
            proof {
                lemma_after_cons(before, tv, lex_from(s, j as int));
                assert(toks(tokens@) =~= before.push(tv));
            }
            i = j;
        } else if is_whitespace(c) {
            i = i + 1;
        } else {
            return Err(LexError::UnexpectedCharacter { character: c, position: i + 1 });
        }
    }
    proof {
        assert(toks(tokens@) + seq![] =~= toks(tokens@));
    }
    Ok(tokens)
}

/// A source text made of decimal digits alone, whose value fits in an `i64`,
/// lexes to exactly one `Integer` token holding that value.
pub proof fn lemma_digits_lex_to_one_integer(s: Seq<char>)
    requires
        s.len() > 0,
        forall|k: int| 0 <= k < s.len() ==> is_ascii_digit(#[trigger] s[k]),
        digits_value(s) <= i64::MAX,
    ensures
        lex_from(s, 0) == Ok::<Seq<Tok>, LexErr>(seq![Tok::Integer(digits_value(s) as i64)]),
{
    lemma_run_end_bounds(s, 1, |c: char| is_ascii_digit(c));
    assert(is_ascii_digit(s[0]));
    assert(number_end(s, 1) == s.len());
    assert(s.subrange(0, s.len() as int) =~= s);
    assert(lex_from(s, s.len() as int) == Ok::<Seq<Tok>, LexErr>(seq![]));
    assert(seq![Tok::Integer(digits_value(s) as i64)] + seq![] =~= seq![Tok::Integer(digits_value(s) as i64)]);
}

} // verus!
