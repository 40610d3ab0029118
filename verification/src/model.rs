//! The mathematical model of the selector grammar.
//!
//! Each layer of the parser has a spec-level counterpart here, defined
//! directly over `Seq<char>`: `value_list_model` for parenthesized value
//! lists, `equality_model` and `set_model` for single fragments,
//! `step_model` for one step of the top-level tokenizer, and `parse_model`
//! for a whole selector string. The executable code's contracts say that
//! it returns exactly what these functions denote.

use vstd::prelude::*;

use crate::classes::{char_in, lemma_run_end, run_end, CharClass};

verus! {

/// The abstract form of a parsed predicate. The values of `In`/`NotIn`
/// form a set: order and duplication are imposed only by the executable
/// representation.
pub enum SpecExpression {
    In(Seq<char>, Set<Seq<char>>),
    NotIn(Seq<char>, Set<Seq<char>>),
    Equal(Seq<char>, Seq<char>),
    NotEqual(Seq<char>, Seq<char>),
    Exists(Seq<char>),
    DoesNotExist(Seq<char>),
}

/// The keyword `in`.
pub open spec fn in_kw() -> Seq<char> {
    seq!['i', 'n']
}

/// The keyword `notin`.
pub open spec fn notin_kw() -> Seq<char> {
    seq!['n', 'o', 't', 'i', 'n']
}

/// Keywords are recognized wherever the set sub-tokenizer expects an
/// identifier, so an identifier may not be one of them.
pub open spec fn is_keyword(w: Seq<char>) -> bool {
    w == in_kw() || w == notin_kw()
}

/// Separators inside a parenthesized value list: commas, whitespace and
/// the parentheses themselves.
pub open spec fn is_vl_sep(c: char) -> bool {
    char_in(CharClass::Sep, c) || c == '(' || c == ')'
}

/// The value-list sub-tokenizer: members are maximal runs of `Item`
/// characters between separators, kept in source order, duplicates and
/// all. Any other character makes the list malformed.
pub open spec fn value_list_from(s: Seq<char>, i: int) -> Option<Seq<Seq<char>>>
    decreases s.len() - i
        when 0 <= i <= s.len()
        via value_list_from_decreases
{
    if i == s.len() {
        Some(Seq::empty())
    } else if is_vl_sep(s[i]) {
        value_list_from(s, i + 1)
    } else if char_in(CharClass::Item, s[i]) {
        let j = run_end(s, i, CharClass::Item);
        match value_list_from(s, j) {
            Some(rest) => Some(seq![s.subrange(i, j)] + rest),
            None => None,
        }
    } else {
        None
    }
}

#[via_fn]
proof fn value_list_from_decreases(s: Seq<char>, i: int) {
    if 0 <= i < s.len() && !is_vl_sep(s[i]) && char_in(CharClass::Item, s[i]) {
        lemma_run_end(s, i + 1, CharClass::Item);
        assert(run_end(s, i, CharClass::Item) == run_end(s, i + 1, CharClass::Item));
    }
}

/// What the value-list sub-tokenizer accepts on a whole string.
pub open spec fn value_list_model(s: Seq<char>) -> Option<Seq<Seq<char>>> {
    value_list_from(s, 0)
}

/// The tail of an equality fragment after its operator: optional
/// whitespace, a value, optional whitespace, and nothing else.
pub open spec fn equality_tail(s: Seq<char>, key: Seq<char>, neg: bool, q: int) -> Option<
    SpecExpression,
>
    recommends
        0 <= q <= s.len(),
{
    let v0 = run_end(s, q, CharClass::Ws);
    let v1 = run_end(s, v0, CharClass::Value);
    if v1 == v0 {
        None
    } else if run_end(s, v1, CharClass::Ws) == s.len() {
        if neg {
            Some(SpecExpression::NotEqual(key, s.subrange(v0, v1)))
        } else {
            Some(SpecExpression::Equal(key, s.subrange(v0, v1)))
        }
    } else {
        None
    }
}

/// The equality sub-tokenizer: exactly three tokens — key, operator,
/// value — separated by optional whitespace. `=` and `==` both mean
/// equality; `!=` means inequality.
pub open spec fn equality_model(s: Seq<char>) -> Option<SpecExpression> {
    let k0 = run_end(s, 0, CharClass::Ws);
    let k1 = run_end(s, k0, CharClass::Key);
    if k1 == k0 {
        None
    } else {
        let key = s.subrange(k0, k1);
        let p = run_end(s, k1, CharClass::Ws);
        if p < s.len() && s[p] == '=' {
            if p + 1 < s.len() && s[p + 1] == '=' {
                equality_tail(s, key, false, p + 2)
            } else {
                equality_tail(s, key, false, p + 1)
            }
        } else if p + 1 < s.len() && s[p] == '!' && s[p + 1] == '=' {
            equality_tail(s, key, true, p + 2)
        } else {
            None
        }
    }
}

/// The tail of a set fragment after its key: an `in`/`notin` keyword and
/// a parenthesized value list, with nothing trailing.
pub open spec fn set_tail(s: Seq<char>, key: Seq<char>, i1: int) -> Option<SpecExpression>
    recommends
        0 <= i1 <= s.len(),
{
    let k2 = run_end(s, i1, CharClass::Key);
    if k2 == i1 {
        None
    } else {
        let kw = s.subrange(i1, k2);
        if !is_keyword(kw) {
            None
        } else {
            let p = run_end(s, k2, CharClass::Sep);
            if p < s.len() && s[p] == '(' {
                let q = run_end(s, p + 1, CharClass::NotClose);
                if q == s.len() {
                    None
                } else {
                    match value_list_from(s.subrange(p + 1, q), 0) {
                        Some(items) => {
                            if run_end(s, q + 1, CharClass::Sep) == s.len() {
                                if kw == in_kw() {
                                    Some(SpecExpression::In(key, items.to_set()))
                                } else {
                                    Some(SpecExpression::NotIn(key, items.to_set()))
                                }
                            } else {
                                None
                            }
                        },
                        None => None,
                    }
                }
            } else {
                None
            }
        }
    }
}

/// The set sub-tokenizer, as a decision table over its token run:
/// `!` + identifier gives `DoesNotExist`; a lone identifier gives
/// `Exists`; identifier + keyword + list gives `In`/`NotIn`; anything
/// else is no expression.
pub open spec fn set_model(s: Seq<char>) -> Option<SpecExpression> {
    let i0 = run_end(s, 0, CharClass::Sep);
    if i0 == s.len() {
        None
    } else if s[i0] == '!' {
        let i1 = run_end(s, i0 + 1, CharClass::Sep);
        let k = run_end(s, i1, CharClass::Key);
        if k == i1 {
            None
        } else {
            let key = s.subrange(i1, k);
            if is_keyword(key) {
                None
            } else if run_end(s, k, CharClass::Sep) == s.len() {
                Some(SpecExpression::DoesNotExist(key))
            } else {
                None
            }
        }
    } else {
        let k = run_end(s, i0, CharClass::Key);
        if k == i0 {
            None
        } else {
            let key = s.subrange(i0, k);
            if is_keyword(key) {
                None
            } else {
                let i1 = run_end(s, k, CharClass::Sep);
                if i1 == s.len() {
                    Some(SpecExpression::Exists(key))
                } else {
                    set_tail(s, key, i1)
                }
            }
        }
    }
}

/// Where a set-membership fragment that begins with the key run ending at
/// `k` would end, if the text there has that shape: at least one
/// whitespace, `in` or `notin`, optional whitespace, and a parenthesized
/// stretch of list characters.
pub open spec fn set_extent(s: Seq<char>, k: int) -> Option<int>
    recommends
        0 <= k <= s.len(),
{
    let w = run_end(s, k, CharClass::Ws);
    if w == k {
        None
    } else {
        let kwe = if w + 5 <= s.len() && s.subrange(w, w + 5) == notin_kw() {
            w + 5
        } else if w + 2 <= s.len() && s.subrange(w, w + 2) == in_kw() {
            w + 2
        } else {
            w
        };
        if kwe == w {
            None
        } else {
            let p = run_end(s, kwe, CharClass::Ws);
            if p < s.len() && s[p] == '(' {
                let q = run_end(s, p + 1, CharClass::List);
                if q < s.len() && s[q] == ')' {
                    Some(q + 1)
                } else {
                    None
                }
            } else {
                None
            }
        }
    }
}

/// Where an equality fragment that begins with the key run ending at `k`
/// would end, if the text there has that shape: optional whitespace, an
/// operator, optional whitespace, and a value run.
pub open spec fn eq_extent(s: Seq<char>, k: int) -> Option<int>
    recommends
        0 <= k <= s.len(),
{
    let w = run_end(s, k, CharClass::Ws);
    let opend = if w < s.len() && s[w] == '=' {
        if w + 1 < s.len() && s[w + 1] == '=' {
            w + 2
        } else {
            w + 1
        }
    } else if w + 1 < s.len() && s[w] == '!' && s[w + 1] == '=' {
        w + 2
    } else {
        w
    };
    if opend == w {
        None
    } else {
        let p = run_end(s, opend, CharClass::Ws);
        let v = run_end(s, p, CharClass::Value);
        if v == p {
            None
        } else {
            Some(v)
        }
    }
}

/// One step of the top-level tokenizer.
pub enum SpecStep {
    /// Only separators remain.
    Exhausted,
    /// The next fragment covers `[start, end)` of the input; `parsed` is
    /// the expression it reduces to, or `None` if it is malformed.
    Fragment { start: int, end: int, parsed: Option<SpecExpression> },
}

/// One step of the top-level tokenizer: skip separators, classify the
/// fragment that starts there (set-membership and negation/bare-key
/// shapes first, then equality, then a bare key), and reduce it with the
/// matching sub-tokenizer. A character that starts no fragment shape is
/// its own one-character malformed fragment.
pub open spec fn step_model(s: Seq<char>, pos: int) -> SpecStep
    recommends
        0 <= pos <= s.len(),
{
    let i = run_end(s, pos, CharClass::Sep);
    if i == s.len() {
        SpecStep::Exhausted
    } else if s[i] == '!' && i + 1 < s.len() && char_in(CharClass::Key, s[i + 1]) {
        let j = run_end(s, i + 1, CharClass::Key);
        SpecStep::Fragment { start: i, end: j, parsed: set_model(s.subrange(i, j)) }
    } else if char_in(CharClass::Key, s[i]) {
        let k = run_end(s, i, CharClass::Key);
        match set_extent(s, k) {
            Some(e) => SpecStep::Fragment {
                start: i,
                end: e,
                parsed: set_model(s.subrange(i, e)),
            },
            None => match eq_extent(s, k) {
                Some(e) => SpecStep::Fragment {
                    start: i,
                    end: e,
                    parsed: equality_model(s.subrange(i, e)),
                },
                None => SpecStep::Fragment {
                    start: i,
                    end: k,
                    parsed: set_model(s.subrange(i, k)),
                },
            },
        }
    } else {
        SpecStep::Fragment { start: i, end: i + 1, parsed: None }
    }
}

/// A set-membership extent lies strictly beyond the key run and inside
/// the input.
pub proof fn lemma_set_extent_bounds(s: Seq<char>, k: int)
    requires
        0 <= k <= s.len(),
    ensures
        match set_extent(s, k) {
            Some(e) => k < e <= s.len(),
            None => true,
        },
{
    lemma_run_end(s, k, CharClass::Ws);
    let w = run_end(s, k, CharClass::Ws);
    if w != k {
        let kwe = if w + 5 <= s.len() && s.subrange(w, w + 5) == notin_kw() {
            w + 5
        } else if w + 2 <= s.len() && s.subrange(w, w + 2) == in_kw() {
            w + 2
        } else {
            w
        };
        if kwe != w {
            lemma_run_end(s, kwe, CharClass::Ws);
            let p = run_end(s, kwe, CharClass::Ws);
            if p < s.len() && s[p] == '(' {
                lemma_run_end(s, p + 1, CharClass::List);
            }
        }
    }
}

/// An equality extent lies strictly beyond the key run and inside the
/// input.
pub proof fn lemma_eq_extent_bounds(s: Seq<char>, k: int)
    requires
        0 <= k <= s.len(),
    ensures
        match eq_extent(s, k) {
            Some(e) => k < e <= s.len(),
            None => true,
        },
{
    lemma_run_end(s, k, CharClass::Ws);
    let w = run_end(s, k, CharClass::Ws);
    let opend = if w < s.len() && s[w] == '=' {
        if w + 1 < s.len() && s[w + 1] == '=' {
            w + 2
        } else {
            w + 1
        }
    } else if w + 1 < s.len() && s[w] == '!' && s[w + 1] == '=' {
        w + 2
    } else {
        w
    };
    if opend != w {
        lemma_run_end(s, opend, CharClass::Ws);
        lemma_run_end(s, run_end(s, opend, CharClass::Ws), CharClass::Value);
    }
}

/// Every fragment the top-level tokenizer yields is non-empty, starts at
/// or after the requested position, and lies inside the input.
pub proof fn lemma_step_bounds(s: Seq<char>, pos: int)
    requires
        0 <= pos <= s.len(),
    ensures
        match step_model(s, pos) {
            SpecStep::Exhausted => true,
            SpecStep::Fragment { start, end, parsed } => pos <= start < end <= s.len(),
        },
{
    lemma_run_end(s, pos, CharClass::Sep);
    let i = run_end(s, pos, CharClass::Sep);
    if i < s.len() {
        if s[i] == '!' && i + 1 < s.len() && char_in(CharClass::Key, s[i + 1]) {
            lemma_run_end(s, i + 1, CharClass::Key);
        } else if char_in(CharClass::Key, s[i]) {
            lemma_run_end(s, i, CharClass::Key);
            let k = run_end(s, i, CharClass::Key);
            assert(run_end(s, i, CharClass::Key) == run_end(s, i + 1, CharClass::Key));
            lemma_run_end(s, i + 1, CharClass::Key);
            lemma_set_extent_bounds(s, k);
            lemma_eq_extent_bounds(s, k);
        }
    }
}

/// The whole parse: one expression per fragment, in source order,
/// stopping at the first malformed fragment, whose span is the error.
pub open spec fn parse_model(s: Seq<char>, pos: int) -> Result<Seq<SpecExpression>, (int, int)>
    decreases s.len() - pos
        when 0 <= pos <= s.len()
        via parse_model_decreases
{
    match step_model(s, pos) {
        SpecStep::Exhausted => Ok(Seq::empty()),
        SpecStep::Fragment { start, end, parsed } => match parsed {
            None => Err((start, end)),
            Some(m) => match parse_model(s, end) {
                Ok(rest) => Ok(seq![m] + rest),
                Err(e) => Err(e),
            },
        },
    }
}

#[via_fn]
proof fn parse_model_decreases(s: Seq<char>, pos: int) {
    if 0 <= pos <= s.len() {
        lemma_step_bounds(s, pos);
    }
}

} // verus!
