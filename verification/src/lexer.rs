use vstd::prelude::*;

verus! {

// Character classes of the NSID grammar.
//
// alpha     = "a" ... "z" / "A" ... "Z"
// number    = "0" ... "9"
// delim     = "."
// segment   = alpha *( alpha / number / "-" )
// authority = segment *( delim segment )
// name      = segment
// nsid      = authority delim name
// nsid-ns   = authority delim "*"

pub open spec fn is_alpha_char(c: char) -> bool {
    (('a' as u32) <= (c as u32) && (c as u32) <= ('z' as u32)) || (('A' as u32) <= (c as u32)
        && (c as u32) <= ('Z' as u32))
}

pub open spec fn is_digit_char(c: char) -> bool {
    ('0' as u32) <= (c as u32) && (c as u32) <= ('9' as u32)
}

/// The lexical class of a token.
#[derive(Debug, PartialEq, Clone, Copy)]
pub enum TokenKind {
    Alpha,
    Number,
    Dash,
    Delim,
    Star,
    Error,
}

/// The class of the token that starts at a character of this value.
pub open spec fn char_kind(c: char) -> TokenKind {
    if is_alpha_char(c) {
        TokenKind::Alpha
    } else if is_digit_char(c) {
        TokenKind::Number
    } else if c == '-' {
        TokenKind::Dash
    } else if c == '.' {
        TokenKind::Delim
    } else if c == '*' {
        TokenKind::Star
    } else {
        TokenKind::Error
    }
}

/// Length of the run of consecutive characters of class `kind` starting at `i`.
pub open spec fn run_len(s: Seq<char>, i: int, kind: TokenKind) -> int
    decreases s.len() - i when i <= s.len()
{
    if i < 0 || i >= s.len() || char_kind(s[i]) != kind {
        0
    } else {
        1 + run_len(s, i + 1, kind)
    }
}

/// Length of the token that starts at position `i`: alphabetic and numeric
/// runs are greedy, every other token is a single character.
pub open spec fn token_len(s: Seq<char>, i: int) -> int {
    match char_kind(s[i]) {
        TokenKind::Alpha => run_len(s, i, TokenKind::Alpha),
        TokenKind::Number => run_len(s, i, TokenKind::Number),
        _ => 1,
    }
}

pub proof fn lemma_run_len_facts(s: Seq<char>, i: int, kind: TokenKind)
    requires
        0 <= i <= s.len(),
    ensures
        0 <= run_len(s, i, kind) <= s.len() - i,
        forall|j: int| i <= j < i + run_len(s, i, kind) ==> char_kind(s[j]) == kind,
        i < s.len() && char_kind(s[i]) == kind ==> run_len(s, i, kind) >= 1,
        i + run_len(s, i, kind) < s.len() ==> char_kind(s[i + run_len(s, i, kind)]) != kind,
    decreases s.len() - i,
{
    if i < s.len() && char_kind(s[i]) == kind {
        lemma_run_len_facts(s, i + 1, kind);
    }
}

pub proof fn lemma_token_len_bounds(s: Seq<char>, i: int)
    requires
        0 <= i < s.len(),
    ensures
        1 <= token_len(s, i) <= s.len() - i,
    decreases s.len() - i,
{
    lemma_run_len_facts(s, i, TokenKind::Alpha);
    lemma_run_len_facts(s, i, TokenKind::Number);
}

/// A classified lexical unit: its class, the exact text matched, and the
/// half-open range of character offsets it covers in the source.
#[derive(Debug)]
pub struct Token<'a> {
    pub kind: TokenKind,
    pub lexeme: &'a str,
    pub span: (usize, usize),
}

/// Splits a string into a sequence of `Token`s covering the entire input
/// with no gaps and no overlaps; unrecognized characters come back as
/// single-character `Error` tokens rather than as a failure.
pub struct Lexer<'a> {
    input: &'a str,
    pos: usize,
}

impl<'a> View for Lexer<'a> {
    type V = (Seq<char>, int);

    closed spec fn view(&self) -> (Seq<char>, int) {
        (self.input@, self.pos as int)
    }
}

/// Classifies one character.
fn kind_of_char(c: char) -> (k: TokenKind)
    ensures
        k == char_kind(c),
{
    let u = c as u32;
    if (u >= 'a' as u32 && u <= 'z' as u32) || (u >= 'A' as u32 && u <= 'Z' as u32) {
        TokenKind::Alpha
    } else if u >= '0' as u32 && u <= '9' as u32 {
        TokenKind::Number
    } else if c == '-' {
        TokenKind::Dash
    } else if c == '.' {
        TokenKind::Delim
    } else if c == '*' {
        TokenKind::Star
    } else {
        TokenKind::Error
    }
}

impl<'a> Lexer<'a> {
    pub fn new(input: &'a str) -> (r: Self)
        ensures
            r@.0 == input@,
            r@.1 == 0,
    {
        Self { input, pos: 0 }
    }

    /// Whether the whole input has been consumed.
    pub fn at_end(&self) -> (r: bool)
        ensures
            r == (self@.1 >= self@.0.len()),
    {
        self.pos >= self.input.unicode_len()
    }

    /// Returns the next token, or `None` once the input is exhausted.
    pub fn next(&mut self) -> (r: Option<Token<'a>>)
        ensures
            old(self)@.1 >= old(self)@.0.len() ==> r is None && *final(self) == *old(self),
            old(self)@.1 < old(self)@.0.len() ==> {
                let s = old(self)@.0;
                let p = old(self)@.1;
                let k = token_len(s, p);
                r matches Some(t) && t.kind == char_kind(s[p]) && t.lexeme@ == s.subrange(p, p + k)
                    && t.span.0 == p && t.span.1 == p + k && final(self)@.0 == s && final(self)@.1
                    == p + k
            },
    {
        let ghost s = self.input@;
        let len = self.input.unicode_len();
        if self.pos >= len {
            return None;
        }
        let start = self.pos;
        let c = self.input.get_char(start);
        let kind = kind_of_char(c);
        let scan_run = match kind {
            TokenKind::Alpha => true,
            TokenKind::Number => true,
            _ => false,
        };
        let mut end = start + 1;
        if scan_run {
            loop
                invariant
                    start < end <= len,
                    len == s.len(),
                    s == self.input@,
                    kind == TokenKind::Alpha || kind == TokenKind::Number,
                    forall|j: int| start <= j < end ==> char_kind(s[j]) == kind,
                ensures
                    start < end <= len,
                    end == len || char_kind(s[end as int]) != kind,
                decreases len - end,
            {
                if end >= len {
                    break ;
                }
                let c2 = self.input.get_char(end);
                let k2 = kind_of_char(c2);
                let same = match (kind, k2) {
                    (TokenKind::Alpha, TokenKind::Alpha) => true,
                    (TokenKind::Number, TokenKind::Number) => true,
                    _ => false,
                };
                if !same {
                    break ;
                }
                end = end + 1;
            }
            proof {
                lemma_run_len_is(s, start as int, end as int, kind);
            }
        }
        proof {
            lemma_run_len_facts(s, start as int, TokenKind::Alpha);
            lemma_run_len_facts(s, start as int, TokenKind::Number);
        }
        let lexeme = self.input.substring_char(start, end);
        self.pos = end;
        Some(Token { kind, lexeme, span: (start, end) })
    }
}

/// A run that is maximal on both sides has exactly the length `run_len` gives.
proof fn lemma_run_len_is(s: Seq<char>, i: int, end: int, kind: TokenKind)
    requires
        0 <= i <= end <= s.len(),
        forall|j: int| i <= j < end ==> char_kind(s[j]) == kind,
        end == s.len() || char_kind(s[end]) != kind,
    ensures
        run_len(s, i, kind) == end - i,
    decreases end - i,
{
    if i < end {
        lemma_run_len_is(s, i + 1, end, kind);
    }
}

} // verus!
