//! The top-level tokenizer: a forward-only cursor over the selector
//! string that yields one parsed fragment per call, plus the one-shot
//! entry point that collects every fragment or stops at the first
//! malformed one.

use vstd::prelude::*;
use vstd::string::StrSliceExecFns;

use crate::classes::{char_in_exec, run_end_exec, CharClass};
use crate::expr::Expression;
use crate::model::{
    eq_extent, lemma_step_bounds, parse_model, set_extent, step_model, SpecExpression, SpecStep,
};
use crate::parse::{is_in_kw_at, is_notin_kw_at, parse_equality, parse_set, substr};

verus! {

/// A half-open `[start, end)` range of character offsets into the
/// original selector string.
#[derive(Debug, Clone, Copy, PartialEq, Eq, Structural)]
pub struct Span {
    pub start: usize,
    pub end: usize,
}

/// Failure to reduce one fragment to an expression: the offending text
/// and its span in the original input.
#[derive(Debug, PartialEq, Eq)]
pub enum ParseError {
    StringParse(String, Span),
}

/// The outcome of one top-level tokenizer step.
#[derive(Debug, PartialEq)]
pub enum ParsedExpression {
    Expression(Expression),
}

impl View for ParsedExpression {
    type V = SpecExpression;

    open spec fn view(&self) -> SpecExpression {
        match self {
            ParsedExpression::Expression(e) => e@,
        }
    }
}

impl DeepView for ParsedExpression {
    type V = SpecExpression;

    open spec fn deep_view(&self) -> SpecExpression {
        self@
    }
}

impl ParsedExpression {
    /// The inner expression's representation invariant.
    pub open spec fn wf(self) -> bool {
        match self {
            ParsedExpression::Expression(e) => e.wf(),
        }
    }
}

/// A forward-only cursor over one selector string.
pub struct Lexer<'a> {
    input: &'a str,
    pos: usize,
    len: usize,
}

impl<'a> Lexer<'a> {
    /// The characters of the input.
    pub closed spec fn src(self) -> Seq<char> {
        self.input@
    }

    /// The cursor's position, in character offsets.
    pub closed spec fn position(self) -> int {
        self.pos as int
    }

    /// The cursor never leaves the input.
    pub closed spec fn wf(self) -> bool {
        self.len == self.input@.len() && self.pos <= self.len
    }

    /// Starts a cursor at the beginning of `input`.
    pub fn new(input: &'a str) -> (r: Lexer<'a>)
        ensures
            r.wf(),
            r.src() == input@,
            r.position() == 0,
    {
        let len = input.unicode_len();
        Lexer { input, pos: 0, len }
    }
}

/// Computes where a set-membership fragment whose key run ends at `k`
/// would end, if the text continues in that shape.
fn set_extent_exec(s: &str, n: usize, k: usize) -> (r: Option<usize>)
    requires
        n == s@.len(),
        k <= n,
    ensures
        match (r, set_extent(s@, k as int)) {
            (Some(a), Some(b)) => a as int == b,
            (None, None) => true,
            _ => false,
        },
{
    let w = run_end_exec(s, n, k, CharClass::Ws);
    if w == k {
        return None;
    }
    let kwe: usize;
    if n - w >= 5 && is_notin_kw_at(s, w, w + 5) {
        kwe = w + 5;
    } else if n - w >= 2 && is_in_kw_at(s, w, w + 2) {
        kwe = w + 2;
    } else {
        return None;
    }
    let p = run_end_exec(s, n, kwe, CharClass::Ws);
    if p < n && s.get_char(p) == '(' {
        let q = run_end_exec(s, n, p + 1, CharClass::List);
        if q < n && s.get_char(q) == ')' {
            Some(q + 1)
        } else {
            None
        }
    } else {
        None
    }
}

/// Computes where an equality fragment whose key run ends at `k` would
/// end, if the text continues in that shape.
fn eq_extent_exec(s: &str, n: usize, k: usize) -> (r: Option<usize>)
    requires
        n == s@.len(),
        k <= n,
    ensures
        match (r, eq_extent(s@, k as int)) {
            (Some(a), Some(b)) => a as int == b,
            (None, None) => true,
            _ => false,
        },
{
    let w = run_end_exec(s, n, k, CharClass::Ws);
    let opend: usize;
    if w < n && s.get_char(w) == '=' {
        if w + 1 < n && s.get_char(w + 1) == '=' {
            opend = w + 2;
        } else {
            opend = w + 1;
        }
    } else if w < n && w + 1 < n && s.get_char(w) == '!' && s.get_char(w + 1) == '=' {
        opend = w + 2;
    } else {
        return None;
    }
    let p = run_end_exec(s, n, opend, CharClass::Ws);
    let v = run_end_exec(s, n, p, CharClass::Value);
    if v == p {
        None
    } else {
        Some(v)
    }
}

/// Advances the cursor past the next fragment and returns its parsed
/// expression, `Ok(None)` once only separators remain, or the malformed
/// fragment's text and span.
pub fn parse_expression<'a>(lexer: &mut Lexer<'a>) -> (r: Result<
    Option<ParsedExpression>,
    ParseError,
>)
    requires
        old(lexer).wf(),
    ensures
        final(lexer).wf(),
        final(lexer).src() == old(lexer).src(),
        match step_model(old(lexer).src(), old(lexer).position()) {
            SpecStep::Exhausted => final(lexer).position() == old(lexer).src().len() && r
                == Ok::<Option<ParsedExpression>, ParseError>(None),
            SpecStep::Fragment { start, end, parsed } => final(lexer).position() == end && match parsed {
                Some(m) => match r {
                    Ok(Some(pe)) => pe@ == m && pe.wf(),
                    _ => false,
                },
                None => match r {
                    Err(ParseError::StringParse(t, sp)) => t@ == old(lexer).src().subrange(
                        start,
                        end,
                    ) && sp.start == start && sp.end == end,
                    _ => false,
                },
            },
        },
{
    let s = lexer.input;
    let n = lexer.len;
    let i = run_end_exec(s, n, lexer.pos, CharClass::Sep);
    if i == n {
        lexer.pos = i;
        return Ok(None);
    }
    let c = s.get_char(i);
    let start = i;
    let end: usize;
    let parsed: Option<Expression>;
    if c == '!' && i + 1 < n && char_in_exec(CharClass::Key, s.get_char(i + 1)) {
        end = run_end_exec(s, n, i + 1, CharClass::Key);
        parsed = parse_set(s.substring_char(start, end));
    } else if char_in_exec(CharClass::Key, c) {
        let k = run_end_exec(s, n, i, CharClass::Key);
        match set_extent_exec(s, n, k) {
            Some(e) => {
                end = e;
                proof {
                    crate::model::lemma_set_extent_bounds(s@, k as int);
                }
                parsed = parse_set(s.substring_char(start, end));
            },
            None => match eq_extent_exec(s, n, k) {
                Some(e) => {
                    end = e;
                    proof {
                        crate::model::lemma_eq_extent_bounds(s@, k as int);
                    }
                    parsed = parse_equality(s.substring_char(start, end));
                },
                None => {
                    end = k;
                    parsed = parse_set(s.substring_char(start, end));
                },
            },
        }
    } else {
        end = i + 1;
        parsed = None;
    }
    lexer.pos = end;
    match parsed {
        Some(e) => Ok(Some(ParsedExpression::Expression(e))),
        None => Err(ParseError::StringParse(substr(s, start, end), Span { start, end })),
    }
}

/// The expressions parsed from one selector string, in source order.
pub struct Expressions(Vec<ParsedExpression>);

impl View for Expressions {
    type V = Seq<SpecExpression>;

    closed spec fn view(&self) -> Seq<SpecExpression> {
        self.0.deep_view()
    }
}

impl Expressions {
    /// Every held expression satisfies its representation invariant.
    pub closed spec fn wf(self) -> bool {
        forall|i: int| 0 <= i < self.0.len() ==> #[trigger] self.0[i].wf()
    }

    /// Parses a whole selector string, stopping at the first malformed
    /// fragment.
    pub fn try_from(selector: String) -> (r: Result<Expressions, ParseError>)
        ensures
            match parse_model(selector@, 0) {
                Ok(ms) => match r {
                    Ok(es) => es@ == ms && es.wf(),
                    _ => false,
                },
                Err((a, b)) => match r {
                    Err(ParseError::StringParse(t, sp)) => t@ == selector@.subrange(a, b)
                        && sp.start == a && sp.end == b,
                    _ => false,
                },
            },
    {
        let mut lexer = Lexer::new(selector.as_str());
        let mut items: Vec<ParsedExpression> = Vec::new();
        proof {
            assert(items.deep_view() =~= Seq::<SpecExpression>::empty());
        }
        loop
            invariant
                lexer.wf(),
                lexer.src() == selector@,
                forall|t: int| 0 <= t < items.len() ==> #[trigger] items[t].wf(),
                match parse_model(selector@, lexer.position()) {
                    Ok(rest) => parse_model(selector@, 0) == Ok::<_, (int, int)>(
                        items.deep_view() + rest,
                    ),
                    Err(e) => parse_model(selector@, 0) == Err::<Seq<SpecExpression>, _>(e),
                },
            decreases selector@.len() - lexer.position(),
        {
            let ghost pos0 = lexer.position();
            proof {
                lemma_step_bounds(selector@, pos0);
            }
            match parse_expression(&mut lexer) {
                Ok(Some(pe)) => {
                    let ghost old_dv = items.deep_view();
                    items.push(pe);
                    proof {
                        assert(items.deep_view() =~= old_dv.push(pe@));
                        if parse_model(selector@, lexer.position()) is Ok {
                            let rest = match parse_model(selector@, lexer.position()) {
                                Ok(rest) => rest,
                                Err(_) => Seq::empty(),
                            };
                            assert(old_dv + (seq![pe@] + rest) =~= items.deep_view() + rest);
                        }
                    }
                },
                Ok(None) => {
                    proof {
                        assert(items.deep_view() + Seq::<SpecExpression>::empty() =~= items.deep_view());
                    }
                    return Ok(Expressions(items));
                },
                Err(e) => {
                    return Err(e);
                },
            }
        }
    }

    /// Hands the parsed expressions out, in source order.
    pub fn into_vec(self) -> (r: Vec<ParsedExpression>)
        ensures
            r.deep_view() == self@,
            self.wf() ==> forall|i: int| 0 <= i < r.len() ==> #[trigger] r[i].wf(),
    {
        self.0
    }
}

} // verus!
