use vstd::prelude::*;

use crate::lexer::{char_kind, is_alpha_char, is_digit_char, run_len, token_len};
use crate::lexer::{lemma_run_len_facts, lemma_token_len_bounds};
use crate::lexer::{Lexer, TokenKind};

verus! {

/// Why a string failed to parse as an NSID: either it is well formed but has
/// too few dot-separated segments, or a character (or digit run) stands where
/// the grammar does not allow it; `SyntaxError` carries the offending text.
#[derive(Debug, PartialEq, Eq)]
pub enum ParseNsidError {
    TooFewSegments,
    SyntaxError(String),
}

/// A character that may stand inside a segment after its first character.
pub open spec fn is_segment_char(c: char) -> bool {
    is_alpha_char(c) || is_digit_char(c) || c == '-' || c == '*'
}

/// The segment grammar, from position `i` onward, at a segment boundary
/// (nothing accumulated yet). On success the result is the list of segments
/// read; on failure it is the offending lexeme.
///
/// A segment must open with a letter. A digit run, a dash, a dot (which here
/// means an empty segment) or an unrecognized character is a syntax error,
/// reported as the lexeme the tokenizer would produce: the whole digit run
/// for digits, a single character otherwise. A star opens a segment only as
/// the very last character of the input, where it forms the wildcard
/// segment `*`.
pub open spec fn parse_at(s: Seq<char>, i: int) -> Result<Seq<Seq<char>>, Seq<char>>
    decreases s.len() - i when i <= s.len()
{
    if i < 0 || i >= s.len() {
        Ok(Seq::empty())
    } else if is_alpha_char(s[i]) {
        parse_seg(s, i + 1, seq![s[i]])
    } else if is_digit_char(s[i]) {
        Err(s.subrange(i, i + run_len(s, i, TokenKind::Number)))
    } else if s[i] == '*' && i == s.len() - 1 {
        Ok(seq![seq!['*']])
    } else {
        Err(seq![s[i]])
    }
}

/// The segment grammar, from position `i` onward, inside a segment whose
/// accumulated text is `cur`.
///
/// Letters, digits, dashes — and stars, unconditionally — extend the current
/// segment; a dot closes it; any other character is a syntax error. At the
/// end of the input the open segment closes without a trailing dot.
pub open spec fn parse_seg(s: Seq<char>, i: int, cur: Seq<char>) -> Result<
    Seq<Seq<char>>,
    Seq<char>,
>
    decreases s.len() - i when i <= s.len()
{
    if i < 0 || i >= s.len() {
        Ok(seq![cur])
    } else if s[i] == '.' {
        match parse_at(s, i + 1) {
            Ok(rest) => Ok(seq![cur] + rest),
            Err(e) => Err(e),
        }
    } else if is_segment_char(s[i]) {
        parse_seg(s, i + 1, cur.push(s[i]))
    } else {
        Err(seq![s[i]])
    }
}

/// What `Parser::parse` returns, segment by segment, for a whole input.
pub open spec fn parse_segments(s: Seq<char>) -> Result<Seq<Seq<char>>, Seq<char>> {
    parse_at(s, 0)
}

/// `segs` prepended to the segments of `r`, if `r` succeeded.
pub open spec fn prepend_segments(segs: Seq<Seq<char>>, r: Result<Seq<Seq<char>>, Seq<char>>) -> Result<
    Seq<Seq<char>>,
    Seq<char>,
> {
    match r {
        Ok(rest) => Ok(segs + rest),
        Err(e) => Err(e),
    }
}

/// Reading a run of segment characters extends the current segment by
/// exactly that run.
pub proof fn lemma_parse_seg_run(s: Seq<char>, i: int, k: int, cur: Seq<char>)
    requires
        0 <= i,
        0 <= k,
        i + k <= s.len(),
        forall|j: int| i <= j < i + k ==> is_segment_char(s[j]),
    ensures
        parse_seg(s, i, cur) == parse_seg(s, i + k, cur + s.subrange(i, i + k)),
    decreases k,
{
    if k == 0 {
        assert(cur + s.subrange(i, i) =~= cur);
    } else {
        assert(is_segment_char(s[i]));
        assert(s[i] != '.');
        lemma_parse_seg_run(s, i + 1, k - 1, cur.push(s[i]));
        assert(cur.push(s[i]) + s.subrange(i + 1, i + k) =~= cur + s.subrange(i, i + k));
    }
}

/// Builds the ordered list of segments of an NSID out of the token stream,
/// enforcing the grammar rules that tokenization alone cannot express.
pub struct Parser<'a> {
    input: &'a str,
}

impl<'a> View for Parser<'a> {
    type V = Seq<char>;

    closed spec fn view(&self) -> Seq<char> {
        self.input@
    }
}

impl<'a> Parser<'a> {
    pub fn new(input: &'a str) -> (r: Self)
        ensures
            r@ == input@,
    {
        Self { input }
    }

    /// Runs the two-state segment machine over the token stream: either the
    /// ordered list of segments, or the syntax error at the first offending
    /// token. The minimum-segment-count rule is not enforced here.
    pub fn parse(self) -> (r: Result<Vec<String>, ParseNsidError>)
        ensures
            match parse_segments(self@) {
                Ok(segs) => r matches Ok(v) && v.deep_view() == segs,
                Err(lex) => r matches Err(ParseNsidError::SyntaxError(t)) && t@ == lex,
            },
    {
        let ghost s = self@;
        let mut lexer = Lexer::new(self.input);
        let mut segments: Vec<String> = Vec::new();
        let mut current: Option<String> = None;

        proof {
            assert(segments.deep_view() =~~= Seq::<Seq<char>>::empty());
            let r0 = parse_at(s, 0);
            if r0 is Ok {
                assert(Seq::<Seq<char>>::empty() + r0->Ok_0 =~= r0->Ok_0);
            }
        }
        loop
            invariant
                s == self@,
                lexer@.0 == s,
                0 <= lexer@.1 <= s.len(),
                match current {
                    None => parse_at(s, 0) == prepend_segments(
                        segments.deep_view(),
                        parse_at(s, lexer@.1),
                    ),
                    Some(cur) => parse_at(s, 0) == prepend_segments(
                        segments.deep_view(),
                        parse_seg(s, lexer@.1, cur@),
                    ),
                },
            ensures
                lexer@.1 >= s.len(),
            decreases s.len() - lexer@.1,
        {
            let ghost p = lexer@.1;
            let tok = match lexer.next() {
                None => { break ; },
                Some(tok) => tok,
            };
            proof {
                lemma_token_len_bounds(s, p);
                lemma_run_len_facts(s, p, TokenKind::Alpha);
                lemma_run_len_facts(s, p, TokenKind::Number);
            }
            let ghost k = token_len(s, p);
            match current {
                Some(mut seg) => match tok.kind {
                    TokenKind::Alpha | TokenKind::Number | TokenKind::Dash | TokenKind::Star => {
                        proof {
                            assert forall|j: int| p <= j < p + k implies is_segment_char(
                                s[j],
                            ) by {
                                if char_kind(s[p]) == TokenKind::Alpha {
                                    assert(char_kind(s[j]) == TokenKind::Alpha);
                                } else if char_kind(s[p]) == TokenKind::Number {
                                    assert(char_kind(s[j]) == TokenKind::Number);
                                } else {
                                    assert(j == p);
                                }
                            }
                            lemma_parse_seg_run(s, p, k, seg@);
                        }
                        seg.append(tok.lexeme);
                        current = Some(seg);
                    },
                    TokenKind::Delim => {
                        proof {
                            assert(s[p] == '.');
                            let r1 = parse_at(s, p + 1);
                            if r1 is Ok {
                                assert(segments.deep_view() + (seq![seg@] + r1->Ok_0)
                                    =~= segments.deep_view().push(seg@) + r1->Ok_0);
                            }
                        }
                        let ghost dv = segments.deep_view();
                        segments.push(seg);
                        proof {
                            assert(segments.deep_view() =~~= dv.push(seg@));
                        }
                        current = None;
                    },
                    TokenKind::Error => {
                        proof {
                            assert(!is_segment_char(s[p]) && s[p] != '.');
                            assert(tok.lexeme@ =~= seq![s[p]]);
                        }
                        return Err(ParseNsidError::SyntaxError(tok.lexeme.to_owned()));
                    },
                },
                None => match tok.kind {
                    TokenKind::Alpha => {
                        proof {
                            assert forall|j: int| p + 1 <= j < p + k implies is_segment_char(
                                s[j],
                            ) by {
                                assert(char_kind(s[j]) == TokenKind::Alpha);
                            }
                            lemma_parse_seg_run(s, p + 1, k - 1, seq![s[p]]);
                            assert(seq![s[p]] + s.subrange(p + 1, p + k) =~= s.subrange(p, p + k));
                        }
                        current = Some(tok.lexeme.to_owned());
                    },
                    TokenKind::Number => {
                        return Err(ParseNsidError::SyntaxError(tok.lexeme.to_owned()));
                    },
                    TokenKind::Dash | TokenKind::Delim => {
                        proof {
                            assert(tok.lexeme@ =~= seq![s[p]]);
                        }
                        return Err(ParseNsidError::SyntaxError(tok.lexeme.to_owned()));
                    },
                    TokenKind::Star => {
                        proof {
                            assert(s[p] == '*');
                            assert(tok.lexeme@ =~= seq![s[p]]);
                        }
                        if lexer.at_end() {
                            proof {
                                assert(p == s.len() - 1);
                                assert(seq![s[p]] =~= seq!['*']);
                            }
                            current = Some(tok.lexeme.to_owned());
                        } else {
                            return Err(ParseNsidError::SyntaxError(tok.lexeme.to_owned()));
                        }
                    },
                    TokenKind::Error => {
                        proof {
                            assert(tok.lexeme@ =~= seq![s[p]]);
                        }
                        return Err(ParseNsidError::SyntaxError(tok.lexeme.to_owned()));
                    },
                },
            }
        }
        match current {
            Some(seg) => {
                proof {
                    assert(segments.deep_view() + seq![seg@] =~= segments.deep_view().push(seg@));
                }
                let ghost dv = segments.deep_view();
                segments.push(seg);
                proof {
                    assert(segments.deep_view() =~~= dv.push(seg@));
                }
                Ok(segments)
            },
            None => {
                proof {
                    assert(segments.deep_view() + Seq::<Seq<char>>::empty()
                        =~= segments.deep_view());
                }
                Ok(segments)
            },
        }
    }
}

} // verus!
