pub mod lexer;
pub mod parser;

pub use lexer::Lexer;
pub use lexer::Token;
pub use lexer::TokenKind;
pub use parser::ParseNsidError;
pub use parser::Parser;

use lexer::{is_alpha_char, is_digit_char};
use parser::{is_segment_char, lemma_parse_seg_run, parse_at, parse_seg, parse_segments};

use vstd::prelude::*;

verus! {

/// The segments joined into one string with a dot between each two
/// neighbours, in order.
pub open spec fn join_dots(segs: Seq<Seq<char>>) -> Seq<char>
    decreases segs.len(),
{
    if segs.len() == 0 {
        Seq::empty()
    } else if segs.len() == 1 {
        segs[0]
    } else {
        join_dots(segs.drop_last()) + seq!['.'] + segs.last()
    }
}

/// The mathematical value of an `Nsid`: its authority segments in source
/// order, and its name segment.
pub struct NsidView {
    pub authority: Seq<Seq<char>>,
    pub name: Seq<char>,
}

/// The canonical text of an identifier: the authority segments in stored
/// order, then the name, all joined by dots.
pub open spec fn display_of(v: NsidView) -> Seq<char> {
    join_dots(v.authority.push(v.name))
}

/// A NameSpaced ID (NSID): a dotted identifier `<authority>.<name>`, where
/// the authority is a reversed domain name of at least two segments and the
/// name is a final segment, possibly the wildcard `*`.
#[derive(Debug, PartialEq, Eq, PartialOrd, Ord, Hash, Clone)]
pub struct Nsid {
    authority_segments: Vec<String>,
    name: String,
}

impl View for Nsid {
    type V = NsidView;

    closed spec fn view(&self) -> NsidView {
        NsidView { authority: self.authority_segments.deep_view(), name: self.name@ }
    }
}

impl Nsid {
    /// The structural invariant: an authority has at least two segments.
    pub open spec fn wf(&self) -> bool {
        self@.authority.len() >= 2
    }

    /// Parses the text of an NSID. Returns the identifier exactly when the
    /// text tokenizes and parses into three or more segments; otherwise the
    /// first offending lexeme as a `SyntaxError`, or `TooFewSegments`.
    pub fn from_str(nsid: &str) -> (r: Result<Nsid, ParseNsidError>)
        ensures
            match parse_segments(nsid@) {
                Ok(segs) => if segs.len() >= 3 {
                    r matches Ok(n) && n@.authority == segs.drop_last() && n@.name == segs.last()
                } else {
                    r matches Err(ParseNsidError::TooFewSegments)
                },
                Err(lex) => r matches Err(ParseNsidError::SyntaxError(t)) && t@ == lex,
            },
            r matches Ok(n) ==> n.wf(),
    {
        let parser = Parser::new(nsid);
        match parser.parse() {
            Err(e) => Err(e),
            Ok(mut segments) => {
                if segments.len() < 3 {
                    Err(ParseNsidError::TooFewSegments)
                } else {
                    let ghost dv = segments.deep_view();
                    let name = segments.pop().unwrap();
                    proof {
                        assert(segments.deep_view() =~~= dv.drop_last());
                    }
                    Ok(Nsid { authority_segments: segments, name })
                }
            },
        }
    }

    /// The authority in conventional reading order: the stored segments
    /// reversed and joined by dots.
    pub fn authority(&self) -> (r: String)
        ensures
            r@ == join_dots(self@.authority.reverse()),
    {
        let ghost rev = self@.authority.reverse();
        let n = self.authority_segments.len();
        let mut out = String::new();
        let mut k: usize = 0;
        while k < n
            invariant
                0 <= k <= n,
                n == self.authority_segments.len(),
                rev == self@.authority.reverse(),
                out@ == join_dots(rev.take(k as int)),
            decreases n - k,
        {
            if k > 0 {
                out.append(".");
            }
            let idx = n - 1 - k;
            out.append(self.authority_segments[idx].as_str());
            proof {
                reveal_strlit(".");
                assert(rev.take(k + 1).drop_last() =~= rev.take(k as int));
                assert(rev[k as int] == self@.authority[idx as int]);
                assert(self@.authority[idx as int] == self.authority_segments@[idx as int]@);
            }
            k = k + 1;
        }
        proof {
            assert(rev.take(n as int) =~= rev);
        }
        out
    }

    /// The name segment, exactly as stored; `*` for a wildcard identifier.
    pub fn name(&self) -> (r: &str)
        ensures
            r@ == self@.name,
    {
        self.name.as_str()
    }

    /// The canonical text: authority segments in stored order, then the
    /// name, joined by dots. A valid input is reproduced exactly.
    pub fn to_string(&self) -> (r: String)
        ensures
            r@ == display_of(self@),
    {
        let ghost full = self@.authority.push(self@.name);
        let n = self.authority_segments.len();
        let mut out = String::new();
        let mut k: usize = 0;
        while k < n
            invariant
                0 <= k <= n,
                n == self.authority_segments.len(),
                full == self@.authority.push(self@.name),
                out@ == join_dots(full.take(k as int)),
            decreases n - k,
        {
            if k > 0 {
                out.append(".");
            }
            out.append(self.authority_segments[k].as_str());
            proof {
                reveal_strlit(".");
                assert(full.take(k + 1).drop_last() =~= full.take(k as int));
                assert(full[k as int] == self.authority_segments@[k as int]@);
            }
            k = k + 1;
        }
        if n > 0 {
            out.append(".");
        }
        out.append(self.name.as_str());
        proof {
            reveal_strlit(".");
            assert(full.take(n as int) =~= full.drop_last());
            assert(full.take(n + 1) =~= full);
        }
        out
    }
}

/// A segment of the grammar: non-empty, opening with a letter, every later
/// character a letter, a digit, a dash or a star.
pub open spec fn valid_segment(seg: Seq<char>) -> bool {
    &&& seg.len() > 0
    &&& is_alpha_char(seg[0])
    &&& forall|j: int| 1 <= j < seg.len() ==> is_segment_char(#[trigger] seg[j])
}

/// A segmentation of a syntactically valid NSID: three or more segments,
/// each one valid, except that the last may instead be the wildcard `*`.
pub open spec fn valid_nsid_segments(segs: Seq<Seq<char>>) -> bool {
    &&& segs.len() >= 3
    &&& forall|i: int|
        0 <= i < segs.len() ==> (valid_segment(#[trigger] segs[i]) || (i == segs.len() - 1
            && segs[i] == seq!['*']))
}

/// A syntactically valid NSID text: some valid segmentation joined by dots.
pub open spec fn valid_nsid_text(s: Seq<char>) -> bool {
    exists|segs: Seq<Seq<char>>| valid_nsid_segments(segs) && s == join_dots(segs)
}

/// Unfolds `join_dots` at the front: the first segment, a dot, the rest.
proof fn lemma_join_dots_first(segs: Seq<Seq<char>>)
    requires
        segs.len() >= 2,
    ensures
        join_dots(segs) == segs[0] + seq!['.'] + join_dots(segs.drop_first()),
    decreases segs.len(),
{
    if segs.len() == 2 {
        assert(segs.drop_last() =~= seq![segs[0]]);
        assert(segs.drop_first() =~= seq![segs[1]]);
        assert(join_dots(segs.drop_last()) == segs[0]);
        assert(join_dots(segs.drop_first()) == segs[1]);
        assert(join_dots(segs) == segs[0] + seq!['.'] + segs[1]);
    } else {
        let dl = segs.drop_last();
        lemma_join_dots_first(dl);
        assert(segs.drop_first().drop_last() =~= dl.drop_first());
        assert(segs.drop_first().last() == segs.last());
        assert(join_dots(segs.drop_first()) == join_dots(dl.drop_first()) + seq!['.']
            + segs.last());
        assert(join_dots(segs) == (dl[0] + seq!['.'] + join_dots(dl.drop_first())) + seq!['.']
            + segs.last());
        assert((dl[0] + seq!['.'] + join_dots(dl.drop_first())) + seq!['.'] + segs.last()
            =~= segs[0] + seq!['.'] + (join_dots(dl.drop_first()) + seq!['.'] + segs.last()));
        assert(dl[0] == segs[0]);
        assert(join_dots(segs) == segs[0] + seq!['.'] + join_dots(segs.drop_first()));
    }
}

/// Parsing from a segment boundary reads back exactly the segments whose
/// dot-joined text forms the rest of the input.
proof fn lemma_parse_join_at(s: Seq<char>, i: int, segs: Seq<Seq<char>>)
    requires
        0 <= i <= s.len(),
        s.subrange(i, s.len() as int) == join_dots(segs),
        segs.len() >= 1,
        forall|j: int|
            0 <= j < segs.len() ==> (valid_segment(#[trigger] segs[j]) || (j == segs.len() - 1
                && segs[j] == seq!['*'])),
    ensures
        parse_at(s, i) == Ok::<Seq<Seq<char>>, Seq<char>>(segs),
    decreases segs.len(),
{
    let seg = segs[0];
    let ls = s.len() as int;
    assert(valid_segment(seg) || (segs.len() == 1 && seg == seq!['*']));
    if segs.len() == 1 {
        assert(join_dots(segs) == seg);
        assert(ls - i == seg.len());
        assert(forall|m: int| 0 <= m < seg.len() ==> s[i + m] == #[trigger] seg[m]);
        if seg == seq!['*'] {
            assert(s[i] == '*');
            assert(!is_alpha_char('*'));
            assert(seq![s[i]] =~= seq!['*']);
            assert(seq![seq!['*']] =~= segs);
        } else {
            let ll = seg.len() as int;
            assert(is_alpha_char(s[i]));
            assert forall|j: int| i + 1 <= j < i + ll implies is_segment_char(s[j]) by {
                assert(s[j] == seg[j - i]);
            }
            lemma_parse_seg_run(s, i + 1, ll - 1, seq![s[i]]);
            assert(seq![s[i]] + s.subrange(i + 1, i + ll) =~= seg);
            assert(i + ll == s.len());
            assert(seq![seg] =~= segs);
        }
    } else {
        let rest = segs.drop_first();
        let ll = seg.len() as int;
        lemma_join_dots_first(segs);
        assert(valid_segment(seg));
        let joined = seg + seq!['.'] + join_dots(rest);
        assert(s.subrange(i, ls) == joined);
        assert(ls - i == joined.len());
        assert(forall|m: int| 0 <= m < joined.len() ==> s[i + m] == #[trigger] joined[m]);
        assert(forall|m: int| 0 <= m < ll ==> #[trigger] seg[m] == joined[m]);
        assert(is_alpha_char(s[i]));
        assert forall|j: int| i + 1 <= j < i + ll implies is_segment_char(s[j]) by {
            assert(s[j] == joined[j - i]);
        }
        lemma_parse_seg_run(s, i + 1, ll - 1, seq![s[i]]);
        assert(seq![s[i]] + s.subrange(i + 1, i + ll) =~= seg);
        assert(s[i + ll] == joined[ll]);
        assert(s[i + ll] == '.');
        assert forall|m: int| 0 <= m < join_dots(rest).len() implies s[i + ll + 1 + m]
            == #[trigger] join_dots(rest)[m] by {
            assert(joined[ll + 1 + m] == join_dots(rest)[m]);
        }
        assert(s.subrange(i + ll + 1, ls) =~= join_dots(rest));
        assert forall|j: int|
            0 <= j < rest.len() implies (valid_segment(#[trigger] rest[j]) || (j == rest.len() - 1
            && rest[j] == seq!['*'])) by {
            assert(rest[j] == segs[j + 1]);
        }
        lemma_parse_join_at(s, i + ll + 1, rest);
        assert(seq![seg] + rest =~= segs);
    }
}

/// Every successful parse inside a segment whose accumulated text is itself
/// a valid segment yields at least one segment, all of them valid (or a
/// final wildcard), whose dot-joined text is the accumulated text plus the
/// rest of the input, up to one tolerated trailing dot.
proof fn lemma_parse_seg_sound(s: Seq<char>, i: int, cur: Seq<char>)
    requires
        0 <= i <= s.len(),
        valid_segment(cur),
        parse_seg(s, i, cur) is Ok,
    ensures
        ({
            let segs = parse_seg(s, i, cur)->Ok_0;
            &&& segs.len() >= 1
            &&& (cur + s.subrange(i, s.len() as int) == join_dots(segs) || cur + s.subrange(
                i,
                s.len() as int,
            ) == join_dots(segs) + seq!['.'])
            &&& forall|j: int|
                0 <= j < segs.len() ==> (valid_segment(#[trigger] segs[j]) || (j == segs.len() - 1
                    && segs[j] == seq!['*']))
        }),
    decreases s.len() - i,
{
    let ls = s.len() as int;
    let segs = parse_seg(s, i, cur)->Ok_0;
    if i >= ls {
        assert(cur + s.subrange(i, ls) =~= cur);
        assert(segs == seq![cur]);
    } else if s[i] == '.' {
        lemma_parse_at_sound(s, i + 1);
        let rest = parse_at(s, i + 1)->Ok_0;
        assert(segs == seq![cur] + rest);
        if rest.len() == 0 {
            assert(i + 1 == ls);
            assert(segs =~= seq![cur]);
            assert(s.subrange(i, ls) =~= seq!['.']);
            assert(cur + s.subrange(i, ls) == join_dots(segs) + seq!['.']);
        } else {
            lemma_join_dots_first(segs);
            assert(segs[0] == cur);
            assert(segs.drop_first() =~= rest);
            assert(cur + s.subrange(i, ls) =~= cur + seq!['.'] + s.subrange(i + 1, ls));
            if s.subrange(i + 1, ls) == join_dots(rest) {
                assert(cur + seq!['.'] + s.subrange(i + 1, ls) =~= cur + seq!['.'] + join_dots(
                    rest,
                ));
            } else {
                assert(s.subrange(i + 1, ls) == join_dots(rest) + seq!['.']);
                assert(cur + seq!['.'] + s.subrange(i + 1, ls) =~= (cur + seq!['.'] + join_dots(
                    rest,
                )) + seq!['.']);
            }
            assert forall|j: int|
                0 <= j < segs.len() implies (valid_segment(#[trigger] segs[j]) || (j == segs.len()
                - 1 && segs[j] == seq!['*'])) by {
                if j >= 1 {
                    assert(segs[j] == rest[j - 1]);
                }
            }
        }
    } else if is_segment_char(s[i]) {
        let cur2 = cur.push(s[i]);
        assert(valid_segment(cur2)) by {
            assert(cur2[0] == cur[0]);
            assert forall|j: int| 1 <= j < cur2.len() implies is_segment_char(
                #[trigger] cur2[j],
            ) by {
                if j < cur.len() {
                    assert(cur2[j] == cur[j]);
                }
            }
        }
        lemma_parse_seg_sound(s, i + 1, cur2);
        assert(cur + s.subrange(i, ls) =~= cur2 + s.subrange(i + 1, ls));
    }
}

/// Every successful parse from a segment boundary yields segments, all of
/// them valid (or a final wildcard), whose dot-joined text is the rest of
/// the input, up to one tolerated trailing dot.
proof fn lemma_parse_at_sound(s: Seq<char>, i: int)
    requires
        0 <= i <= s.len(),
        parse_at(s, i) is Ok,
    ensures
        ({
            let segs = parse_at(s, i)->Ok_0;
            &&& i < s.len() ==> segs.len() >= 1
            &&& (s.subrange(i, s.len() as int) == join_dots(segs) || s.subrange(i, s.len() as int)
                == join_dots(segs) + seq!['.'])
            &&& forall|j: int|
                0 <= j < segs.len() ==> (valid_segment(#[trigger] segs[j]) || (j == segs.len() - 1
                    && segs[j] == seq!['*']))
        }),
    decreases s.len() - i,
{
    let ls = s.len() as int;
    if i >= ls {
        assert(s.subrange(i, ls) =~= Seq::<char>::empty());
        assert(parse_at(s, i)->Ok_0 == Seq::<Seq<char>>::empty());
    } else if is_alpha_char(s[i]) {
        let cur = seq![s[i]];
        assert(valid_segment(cur));
        lemma_parse_seg_sound(s, i + 1, cur);
        assert(s.subrange(i, ls) =~= cur + s.subrange(i + 1, ls));
    } else if is_digit_char(s[i]) {
        // a syntax error, excluded by the precondition
    } else {
        assert(s[i] == '*' && i == ls - 1);
        assert(s.subrange(i, ls) =~= seq!['*']);
        assert(parse_at(s, i)->Ok_0 == seq![seq!['*']]);
    }
}

/// Re-parse law: whatever text a successful parse consumed, the canonical
/// text of the identifier it produced parses back to the very same
/// segments, and the consumed text was that canonical text, up to one
/// tolerated trailing dot. Together with the contracts of `from_str` and
/// `to_string`, `Nsid::from_str(n.to_string())` returns a value equal to
/// `n` for every `n` that `from_str` produced.
pub proof fn lemma_reparse(s: Seq<char>, segs: Seq<Seq<char>>)
    requires
        parse_segments(s) == Ok::<Seq<Seq<char>>, Seq<char>>(segs),
        segs.len() >= 3,
    ensures
        ({
            let v = NsidView { authority: segs.drop_last(), name: segs.last() };
            &&& parse_segments(display_of(v)) == Ok::<Seq<Seq<char>>, Seq<char>>(segs)
            &&& (s == display_of(v) || s == display_of(v) + seq!['.'])
        }),
{
    let v = NsidView { authority: segs.drop_last(), name: segs.last() };
    assert(s.subrange(0, s.len() as int) =~= s);
    lemma_parse_at_sound(s, 0);
    assert(segs.drop_last().push(segs.last()) =~= segs);
    assert(display_of(v) == join_dots(segs));
    let d = display_of(v);
    assert(d.subrange(0, d.len() as int) =~= d);
    lemma_parse_join_at(d, 0, segs);
}

/// Round-trip law: any syntactically valid NSID text parses successfully,
/// into three or more segments, and the identifier built from them prints
/// back to exactly that text. Together with the contracts of `from_str` and
/// `to_string`, for such a text `Nsid::from_str(s)` is `Ok(n)` with
/// `n.to_string() == s`.
pub proof fn lemma_round_trip(s: Seq<char>)
    requires
        valid_nsid_text(s),
    ensures
        parse_segments(s) matches Ok(segs) && segs.len() >= 3 && display_of(
            NsidView { authority: segs.drop_last(), name: segs.last() },
        ) == s,
{
    let segs = choose|segs: Seq<Seq<char>>| valid_nsid_segments(segs) && s == join_dots(segs);
    assert(s.subrange(0, s.len() as int) =~= s);
    lemma_parse_join_at(s, 0, segs);
    assert(segs.drop_last().push(segs.last()) =~= segs);
}

} // verus!
