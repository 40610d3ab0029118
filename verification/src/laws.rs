//! The laws of the parser, stated and proved against the spec model:
//! which strings the grammar accepts, and that parsing inverts rendering.

use vstd::prelude::*;

use crate::classes::{
    char_in, lemma_run_end, lemma_run_end_is, lemma_run_end_subrange, run_end, CharClass,
};
use crate::expr::{lemma_lex_irreflexive, strictly_sorted, Expression};
use crate::model::{
    eq_extent, equality_model, in_kw, is_keyword, is_vl_sep, notin_kw, parse_model, set_extent,
    set_model, step_model, value_list_from, SpecExpression, SpecStep,
};
use crate::render::{spec_render, spec_render_all, spec_render_items};

verus! {

/// A well-formed key: non-empty, drawn from the key alphabet, and not a
/// keyword of the set sub-tokenizer.
pub open spec fn valid_key(k: Seq<char>) -> bool {
    &&& k.len() > 0
    &&& forall|i: int| 0 <= i < k.len() ==> char_in(CharClass::Key, #[trigger] k[i])
    &&& !is_keyword(k)
}

/// A well-formed equality value: non-empty, drawn from the value alphabet.
pub open spec fn valid_value(v: Seq<char>) -> bool {
    &&& v.len() > 0
    &&& forall|i: int| 0 <= i < v.len() ==> char_in(CharClass::Value, #[trigger] v[i])
}

/// A well-formed value-list member: non-empty, drawn from the narrow
/// item alphabet.
pub open spec fn valid_item(v: Seq<char>) -> bool {
    &&& v.len() > 0
    &&& forall|i: int| 0 <= i < v.len() ==> char_in(CharClass::Item, #[trigger] v[i])
}

/// An expression whose strings the grammar itself could have produced.
/// Every expression the parser returns satisfies this; rendering such an
/// expression parses back to it. Equality keys may spell a keyword — the
/// equality sub-tokenizer has none — but set-style keys may not.
pub open spec fn expr_valid(e: Expression) -> bool {
    match e {
        Expression::Exists(k) => valid_key(k@),
        Expression::DoesNotExist(k) => valid_key(k@),
        Expression::Equal(k, v) => k@.len() > 0 && (forall|i: int|
            0 <= i < k@.len() ==> char_in(CharClass::Key, #[trigger] k@[i])) && valid_value(v@),
        Expression::NotEqual(k, v) => k@.len() > 0 && (forall|i: int|
            0 <= i < k@.len() ==> char_in(CharClass::Key, #[trigger] k@[i])) && valid_value(v@),
        Expression::In(k, vs) => valid_key(k@) && (forall|i: int|
            0 <= i < vs.len() ==> valid_item(#[trigger] vs.deep_view()[i])),
        Expression::NotIn(k, vs) => valid_key(k@) && (forall|i: int|
            0 <= i < vs.len() ==> valid_item(#[trigger] vs.deep_view()[i])),
    }
}

/// The values of a well-formed `In`/`NotIn` are strictly ascending and
/// therefore pairwise distinct, whatever order and multiplicity the
/// source listed them with.
pub proof fn lemma_value_sets_unique(e: Expression)
    requires
        e.wf(),
    ensures
        match e {
            Expression::In(_, vs) => strictly_sorted(vs.deep_view()) && forall|i: int, j: int|
                #![trigger vs.deep_view()[i], vs.deep_view()[j]]
                0 <= i < j < vs.len() ==> vs.deep_view()[i] != vs.deep_view()[j],
            Expression::NotIn(_, vs) => strictly_sorted(vs.deep_view()) && forall|i: int, j: int|
                #![trigger vs.deep_view()[i], vs.deep_view()[j]]
                0 <= i < j < vs.len() ==> vs.deep_view()[i] != vs.deep_view()[j],
            _ => true,
        },
{
    match e {
        Expression::In(_, vs) => {
            assert forall|i: int, j: int|
                #![trigger vs.deep_view()[i], vs.deep_view()[j]]
                0 <= i < j < vs.len() implies vs.deep_view()[i] != vs.deep_view()[j] by {
                lemma_lex_irreflexive(vs.deep_view()[i]);
            }
        },
        Expression::NotIn(_, vs) => {
            assert forall|i: int, j: int|
                #![trigger vs.deep_view()[i], vs.deep_view()[j]]
                0 <= i < j < vs.len() implies vs.deep_view()[i] != vs.deep_view()[j] by {
                lemma_lex_irreflexive(vs.deep_view()[i]);
            }
        },
        _ => {},
    }
}

/// The value-list sub-tokenizer accepts a stretch of text exactly when
/// every character in it is a member character or a separator: one
/// character outside the narrow alphabet — a digit, a dot — rejects the
/// whole list, though the same character is legal in keys and equality
/// values.
pub proof fn lemma_value_list_charset(s: Seq<char>, i: int)
    requires
        0 <= i <= s.len(),
    ensures
        value_list_from(s, i) is Some <==> (forall|k: int|
            i <= k < s.len() ==> char_in(CharClass::Item, #[trigger] s[k]) || is_vl_sep(s[k])),
    decreases s.len() - i,
{
    if i == s.len() {
    } else if is_vl_sep(s[i]) {
        lemma_value_list_charset(s, i + 1);
    } else if char_in(CharClass::Item, s[i]) {
        let j = run_end(s, i, CharClass::Item);
        lemma_run_end(s, i, CharClass::Item);
        assert(run_end(s, i, CharClass::Item) == run_end(s, i + 1, CharClass::Item));
        lemma_run_end(s, i + 1, CharClass::Item);
        lemma_value_list_charset(s, j);
    } else {
        assert(!(char_in(CharClass::Item, s[i]) || is_vl_sep(s[i])));
    }
}

/// Runs are local: dropping a prefix shifts the run's end.
proof fn lemma_run_shift(s: Seq<char>, pos: int, i: int, cls: CharClass)
    requires
        0 <= pos <= i <= s.len(),
    ensures
        run_end(s.skip(pos), i - pos, cls) == run_end(s, i, cls) - pos,
{
    lemma_run_end(s, i, cls);
    assert(s.skip(pos) =~= s.subrange(pos, s.len() as int));
    lemma_run_end_subrange(s, pos, s.len() as int, i, cls);
}

/// The value-list sub-tokenizer is local: what it accepts from position
/// `i` on is what it accepts on the suffix from `i`.
proof fn lemma_vl_shift(s: Seq<char>, i: int)
    requires
        0 <= i <= s.len(),
    ensures
        value_list_from(s, i) == value_list_from(s.skip(i), 0),
    decreases s.len() - i,
{
    let t = s.skip(i);
    assert(t.len() == s.len() - i);
    if i == s.len() {
        assert(value_list_from(t, 0) == Some(Seq::<Seq<char>>::empty()));
    } else {
        assert(t[0] == s[i]);
        if is_vl_sep(s[i]) {
            lemma_vl_shift(s, i + 1);
            assert(t.skip(1) =~= s.skip(i + 1));
            lemma_vl_shift(t, 1);
        } else if char_in(CharClass::Item, s[i]) {
            let j = run_end(s, i, CharClass::Item);
            assert(run_end(s, i, CharClass::Item) == run_end(s, i + 1, CharClass::Item));
            lemma_run_end(s, i + 1, CharClass::Item);
            lemma_run_shift(s, i, i, CharClass::Item);
            assert(run_end(t, 0, CharClass::Item) == j - i);
            assert(s.subrange(i, j) =~= t.subrange(0, j - i));
            lemma_vl_shift(s, j);
            assert(t.skip(j - i) =~= s.skip(j));
            lemma_vl_shift(t, j - i);
        }
    }
}

/// The equality-fragment extent is local to the suffix it scans.
proof fn lemma_eq_extent_shift(s: Seq<char>, pos: int, k: int)
    requires
        0 <= pos <= k <= s.len(),
    ensures
        match (eq_extent(s, k), eq_extent(s.skip(pos), k - pos)) {
            (Some(a), Some(b)) => a == b + pos,
            (None, None) => true,
            _ => false,
        },
{
    let t = s.skip(pos);
    lemma_run_shift(s, pos, k, CharClass::Ws);
    let w = run_end(s, k, CharClass::Ws);
    lemma_run_end(s, k, CharClass::Ws);
    assert(forall|u: int| 0 <= u < t.len() ==> #[trigger] t[u] == s[u + pos]);
    if w < s.len() && (s[w] == '=' || (w + 1 < s.len() && s[w] == '!' && s[w + 1] == '=')) {
        let opend = if s[w] == '=' {
            if w + 1 < s.len() && s[w + 1] == '=' {
                w + 2
            } else {
                w + 1
            }
        } else {
            w + 2
        };
        lemma_run_shift(s, pos, opend, CharClass::Ws);
        let p = run_end(s, opend, CharClass::Ws);
        lemma_run_end(s, opend, CharClass::Ws);
        lemma_run_shift(s, pos, p, CharClass::Value);
    }
}

/// The set-fragment extent is local to the suffix it scans.
proof fn lemma_set_extent_shift(s: Seq<char>, pos: int, k: int)
    requires
        0 <= pos <= k <= s.len(),
    ensures
        match (set_extent(s, k), set_extent(s.skip(pos), k - pos)) {
            (Some(a), Some(b)) => a == b + pos,
            (None, None) => true,
            _ => false,
        },
{
    let t = s.skip(pos);
    lemma_run_shift(s, pos, k, CharClass::Ws);
    let w = run_end(s, k, CharClass::Ws);
    lemma_run_end(s, k, CharClass::Ws);
    assert(forall|u: int| 0 <= u < t.len() ==> #[trigger] t[u] == s[u + pos]);
    if w != k {
        if w + 5 <= s.len() {
            assert(s.subrange(w, w + 5) =~= t.subrange(w - pos, w - pos + 5));
        }
        if w + 2 <= s.len() {
            assert(s.subrange(w, w + 2) =~= t.subrange(w - pos, w - pos + 2));
        }
        let kwe = if w + 5 <= s.len() && s.subrange(w, w + 5) == notin_kw() {
            w + 5
        } else if w + 2 <= s.len() && s.subrange(w, w + 2) == in_kw() {
            w + 2
        } else {
            w
        };
        let kwe_t = if w - pos + 5 <= t.len() && t.subrange(w - pos, w - pos + 5) == notin_kw() {
            w - pos + 5
        } else if w - pos + 2 <= t.len() && t.subrange(w - pos, w - pos + 2) == in_kw() {
            w - pos + 2
        } else {
            w - pos
        };
        assert(kwe_t == kwe - pos);
        if kwe != w {
            lemma_run_shift(s, pos, kwe, CharClass::Ws);
            let p = run_end(s, kwe, CharClass::Ws);
            lemma_run_end(s, kwe, CharClass::Ws);
            assert(run_end(t, kwe_t, CharClass::Ws) == p - pos);
            if p < s.len() && s[p] == '(' {
                assert(t[p - pos] == '(');
                lemma_run_shift(s, pos, p + 1, CharClass::List);
                let q = run_end(s, p + 1, CharClass::List);
                lemma_run_end(s, p + 1, CharClass::List);
                assert(run_end(t, p - pos + 1, CharClass::List) == q - pos);
                if q < s.len() && s[q] == ')' {
                    assert(q - pos < t.len() && t[q - pos] == ')');
                    assert(set_extent(s, k) == Some(q + 1));
                    assert(set_extent(t, k - pos) == Some(q - pos + 1));
                } else {
                    assert(set_extent(s, k) == None::<int>);
                    assert(!(q - pos < t.len() && t[q - pos] == ')'));
                    assert(set_extent(t, k - pos) == None::<int>);
                }
            } else {
                assert(set_extent(s, k) == None::<int>);
                assert(set_extent(t, k - pos) == None::<int>);
            }
        }
    }
}

/// One tokenizer step is local: stepping at `pos` is stepping the suffix
/// at its start, with the span shifted.
proof fn lemma_step_shift(s: Seq<char>, pos: int)
    requires
        0 <= pos <= s.len(),
    ensures
        match (step_model(s, pos), step_model(s.skip(pos), 0)) {
            (SpecStep::Exhausted, SpecStep::Exhausted) => true,
            (
                SpecStep::Fragment { start: a, end: b, parsed: p },
                SpecStep::Fragment { start: c, end: d, parsed: q },
            ) => a == c + pos && b == d + pos && p == q,
            _ => false,
        },
{
    let t = s.skip(pos);
    lemma_run_shift(s, pos, pos, CharClass::Sep);
    let i = run_end(s, pos, CharClass::Sep);
    lemma_run_end(s, pos, CharClass::Sep);
    assert(forall|u: int| 0 <= u < t.len() ==> #[trigger] t[u] == s[u + pos]);
    if i < s.len() {
        if s[i] == '!' && i + 1 < s.len() && char_in(CharClass::Key, s[i + 1]) {
            lemma_run_shift(s, pos, i + 1, CharClass::Key);
            let j = run_end(s, i + 1, CharClass::Key);
            lemma_run_end(s, i + 1, CharClass::Key);
            assert(s.subrange(i, j) =~= t.subrange(i - pos, j - pos));
        } else if char_in(CharClass::Key, s[i]) {
            lemma_run_shift(s, pos, i, CharClass::Key);
            let k = run_end(s, i, CharClass::Key);
            lemma_run_end(s, i, CharClass::Key);
            lemma_set_extent_shift(s, pos, k);
            lemma_eq_extent_shift(s, pos, k);
            crate::model::lemma_set_extent_bounds(s, k);
            crate::model::lemma_eq_extent_bounds(s, k);
            match set_extent(s, k) {
                Some(e) => {
                    assert(s.subrange(i, e) =~= t.subrange(i - pos, e - pos));
                },
                None => {
                    match eq_extent(s, k) {
                        Some(e) => {
                            assert(s.subrange(i, e) =~= t.subrange(i - pos, e - pos));
                        },
                        None => {
                            assert(s.subrange(i, k) =~= t.subrange(i - pos, k - pos));
                        },
                    }
                },
            }
        }
    }
}

/// The whole parse is local in the same way; errors shift their spans.
proof fn lemma_parse_shift(s: Seq<char>, pos: int)
    requires
        0 <= pos <= s.len(),
    ensures
        match (parse_model(s, pos), parse_model(s.skip(pos), 0)) {
            (Ok(a), Ok(b)) => a == b,
            (Err(ea), Err(eb)) => ea.0 == eb.0 + pos && ea.1 == eb.1 + pos,
            _ => false,
        },
    decreases s.len() - pos,
{
    let t = s.skip(pos);
    lemma_step_shift(s, pos);
    crate::model::lemma_step_bounds(s, pos);
    crate::model::lemma_step_bounds(t, 0);
    match step_model(s, pos) {
        SpecStep::Exhausted => {},
        SpecStep::Fragment { start, end, parsed } => {
            match parsed {
                None => {},
                Some(m) => {
                    lemma_parse_shift(s, end);
                    lemma_parse_shift(t, end - pos);
                    assert(t.skip(end - pos) =~= s.skip(end));
                },
            }
        },
    }
}

/// Every character of a rendered value list is a member character or a
/// comma.
proof fn lemma_render_items_chars(dv: Seq<Seq<char>>)
    requires
        forall|i: int| 0 <= i < dv.len() ==> valid_item(#[trigger] dv[i]),
    ensures
        forall|t: int|
            0 <= t < spec_render_items(dv).len() ==> char_in(
                CharClass::Item,
                #[trigger] spec_render_items(dv)[t],
            ) || spec_render_items(dv)[t] == ',',
    decreases dv.len(),
{
    if dv.len() > 1 {
        lemma_render_items_chars(dv.drop_first());
        let r = spec_render_items(dv);
        let head = dv[0];
        let rest = spec_render_items(dv.drop_first());
        assert forall|t: int|
            0 <= t < r.len() implies char_in(CharClass::Item, #[trigger] r[t]) || r[t] == ',' by {
            if t < head.len() {
                assert(r[t] == head[t]);
            } else if t == head.len() {
                assert(r[t] == ',');
            } else {
                assert(r[t] == rest[t - head.len() - 1]);
            }
        }
    }
}

/// The value-list sub-tokenizer inverts the rendering of a value list:
/// it gets exactly the members back, in order.
proof fn lemma_value_list_render(dv: Seq<Seq<char>>)
    requires
        forall|i: int| 0 <= i < dv.len() ==> valid_item(#[trigger] dv[i]),
    ensures
        value_list_from(spec_render_items(dv), 0) == Some(dv),
    decreases dv.len(),
{
    let s = spec_render_items(dv);
    if dv.len() == 0 {
        assert(s =~= Seq::<char>::empty());
        assert(value_list_from(s, 0) == Some(Seq::<Seq<char>>::empty()));
        assert(Seq::<Seq<char>>::empty() =~= dv);
    } else {
        let head = dv[0];
        let n = head.len() as int;
        if dv.len() == 1 {
            assert(s == head);
            lemma_run_end_is(s, 0, n, CharClass::Item);
            assert(s.subrange(0, n) =~= head);
            assert(value_list_from(s, n) == Some(Seq::<Seq<char>>::empty()));
            assert(seq![head] + Seq::<Seq<char>>::empty() =~= dv);
        } else {
            let rest = spec_render_items(dv.drop_first());
            assert forall|t: int| 0 <= t < s.len() implies #[trigger] s[t] == (if t < n {
                head[t]
            } else if t == n {
                ','
            } else {
                rest[t - n - 1]
            }) by {}
            lemma_run_end_is(s, 0, n, CharClass::Item);
            assert(s.subrange(0, n) =~= head);
            assert(is_vl_sep(s[n]));
            lemma_vl_shift(s, n + 1);
            assert(s.skip(n + 1) =~= rest);
            lemma_value_list_render(dv.drop_first());
            assert(value_list_from(s, n) == Some(dv.drop_first()));
            assert(seq![head] + dv.drop_first() =~= dv);
        }
    }
}

/// A bare identifier parses to `Exists`, with no trailing token
/// tolerated.
pub proof fn lemma_set_model_exists(k: Seq<char>)
    requires
        valid_key(k),
    ensures
        set_model(k) == Some(SpecExpression::Exists(k)),
{
    lemma_run_end_is(k, 0, 0, CharClass::Sep);
    lemma_run_end_is(k, 0, k.len() as int, CharClass::Key);
    assert(k.subrange(0, k.len() as int) =~= k);
}

/// A `!`-prefixed identifier parses to `DoesNotExist`, with no trailing
/// token tolerated.
pub proof fn lemma_set_model_not_exists(k: Seq<char>)
    requires
        valid_key(k),
    ensures
        set_model(seq!['!'] + k) == Some(SpecExpression::DoesNotExist(k)),
{
    let s = seq!['!'] + k;
    assert(s[0] == '!');
    assert(forall|t: int| 1 <= t < s.len() ==> #[trigger] s[t] == k[t - 1]);
    lemma_run_end_is(s, 0, 0, CharClass::Sep);
    lemma_run_end_is(s, 1, 1, CharClass::Sep);
    lemma_run_end_is(s, 1, s.len() as int, CharClass::Key);
    assert(s.subrange(1, s.len() as int) =~= k);
}

/// The equality sub-tokenizer on `key OP value`, for each of the three
/// operators: `=` and `==` mean the same thing.
proof fn lemma_equality_model_op(k: Seq<char>, v: Seq<char>, op: Seq<char>, neg: bool)
    requires
        k.len() > 0,
        forall|i: int| 0 <= i < k.len() ==> char_in(CharClass::Key, #[trigger] k[i]),
        valid_value(v),
        (op == seq!['='] && !neg) || (op == seq!['=', '='] && !neg) || (op == seq!['!', '=']
            && neg),
    ensures
        equality_model(k + op + v) == Some(
            if neg {
                SpecExpression::NotEqual(k, v)
            } else {
                SpecExpression::Equal(k, v)
            },
        ),
{
    let s = k + op + v;
    let n = k.len() as int;
    let m = op.len() as int;
    assert forall|t: int| 0 <= t < s.len() implies #[trigger] s[t] == (if t < n {
        k[t]
    } else if t < n + m {
        op[t - n]
    } else {
        v[t - n - m]
    }) by {}
    lemma_run_end_is(s, 0, 0, CharClass::Ws);
    lemma_run_end_is(s, 0, n, CharClass::Key);
    assert(s.subrange(0, n) =~= k);
    lemma_run_end_is(s, n, n, CharClass::Ws);
    let q = n + m;
    lemma_run_end_is(s, q, q, CharClass::Ws);
    lemma_run_end_is(s, q, s.len() as int, CharClass::Value);
    lemma_run_end_is(s, s.len() as int, s.len() as int, CharClass::Ws);
    assert(s.subrange(q, s.len() as int) =~= v);
}

/// The set sub-tokenizer on `key in (values)` / `key notin (values)`:
/// the members become a set. An empty list is accepted and gives the
/// empty set.
proof fn lemma_set_model_membership(k: Seq<char>, dv: Seq<Seq<char>>, use_notin: bool)
    requires
        valid_key(k),
        forall|i: int| 0 <= i < dv.len() ==> valid_item(#[trigger] dv[i]),
    ensures
        ({
            let kw = if use_notin {
                seq![' ', 'n', 'o', 't', 'i', 'n', ' ', '(']
            } else {
                seq![' ', 'i', 'n', ' ', '(']
            };
            set_model(k + kw + spec_render_items(dv) + seq![')']) == Some(
                if use_notin {
                    SpecExpression::NotIn(k, dv.to_set())
                } else {
                    SpecExpression::In(k, dv.to_set())
                },
            )
        }),
{
    let kw = if use_notin {
        seq![' ', 'n', 'o', 't', 'i', 'n', ' ', '(']
    } else {
        seq![' ', 'i', 'n', ' ', '(']
    };
    let items = spec_render_items(dv);
    let s = k + kw + items + seq![')'];
    let n = k.len() as int;
    let m = kw.len() as int;
    let il = items.len() as int;
    lemma_render_items_chars(dv);
    assert forall|t: int| 0 <= t < s.len() implies #[trigger] s[t] == (if t < n {
        k[t]
    } else if t < n + m {
        kw[t - n]
    } else if t < n + m + il {
        items[t - n - m]
    } else {
        ')'
    }) by {}
    lemma_run_end_is(s, 0, 0, CharClass::Sep);
    lemma_run_end_is(s, 0, n, CharClass::Key);
    assert(s.subrange(0, n) =~= k);
    // After the key: one space, the keyword, one space, `(`.
    lemma_run_end_is(s, n, n + 1, CharClass::Sep);
    let k2 = n + m - 2;
    lemma_run_end_is(s, n + 1, k2, CharClass::Key);
    if use_notin {
        assert(s.subrange(n + 1, k2) =~= notin_kw());
    } else {
        assert(s.subrange(n + 1, k2) =~= in_kw());
    }
    lemma_run_end_is(s, k2, k2 + 1, CharClass::Sep);
    assert(s[k2 + 1] == '(');
    lemma_run_end_is(s, n + m, n + m + il, CharClass::NotClose);
    assert(s[n + m + il] == ')');
    assert(s.subrange(n + m, n + m + il) =~= items);
    lemma_value_list_render(dv);
    lemma_run_end_is(s, n + m + il + 1, s.len() as int, CharClass::Sep);
}

/// One top-level step over a rendered expression, possibly followed by
/// a comma and more text, consumes exactly the rendering and yields
/// exactly that expression.
#[verifier::rlimit(60)]
proof fn lemma_step_renders(e: Expression, s: Seq<char>)
    requires
        expr_valid(e),
        spec_render(e).len() <= s.len(),
        s.subrange(0, spec_render(e).len() as int) == spec_render(e),
        s.len() == spec_render(e).len() || s[spec_render(e).len() as int] == ',',
    ensures
        step_model(s, 0) == (SpecStep::Fragment {
            start: 0,
            end: spec_render(e).len() as int,
            parsed: Some(e@),
        }),
{
    let r = spec_render(e);
    let n0 = r.len() as int;
    assert forall|t: int| 0 <= t < n0 implies #[trigger] s[t] == r[t] by {
        assert(s.subrange(0, n0)[t] == s[t]);
    }
    match e {
        Expression::Exists(k) => {
            lemma_run_end_is(s, 0, 0, CharClass::Sep);
            lemma_run_end_is(s, 0, n0, CharClass::Key);
            lemma_run_end_is(s, n0, n0, CharClass::Ws);
            lemma_set_model_exists(k@);
            assert(s.subrange(0, n0) == k@);
        },
        Expression::DoesNotExist(k) => {
            assert(s[0] == '!');
            lemma_run_end_is(s, 0, 0, CharClass::Sep);
            assert(s[1] == k@[0]);
            lemma_run_end_is(s, 1, n0, CharClass::Key);
            lemma_set_model_not_exists(k@);
            assert(s.subrange(0, n0) =~= seq!['!'] + k@);
        },
        Expression::Equal(k, v) => {
            let kl = k@.len() as int;
            lemma_run_end_is(s, 0, 0, CharClass::Sep);
            lemma_run_end_is(s, 0, kl, CharClass::Key);
            lemma_run_end_is(s, kl, kl, CharClass::Ws);
            assert(s[kl] == '=');
            assert(s[kl + 1] == v@[0]);
            lemma_run_end_is(s, kl + 1, kl + 1, CharClass::Ws);
            lemma_run_end_is(s, kl + 1, n0, CharClass::Value);
            lemma_equality_model_op(k@, v@, seq!['='], false);
            assert(s.subrange(0, n0) =~= k@ + seq!['='] + v@);
        },
        Expression::NotEqual(k, v) => {
            let kl = k@.len() as int;
            lemma_run_end_is(s, 0, 0, CharClass::Sep);
            lemma_run_end_is(s, 0, kl, CharClass::Key);
            lemma_run_end_is(s, kl, kl, CharClass::Ws);
            assert(s[kl] == '!' && s[kl + 1] == '=');
            assert(s[kl + 2] == v@[0]);
            lemma_run_end_is(s, kl + 2, kl + 2, CharClass::Ws);
            lemma_run_end_is(s, kl + 2, n0, CharClass::Value);
            lemma_equality_model_op(k@, v@, seq!['!', '='], true);
            assert(s.subrange(0, n0) =~= k@ + seq!['!', '='] + v@);
        },
        Expression::In(k, vs) => {
            let kl = k@.len() as int;
            let dv = vs.deep_view();
            let items = spec_render_items(dv);
            let il = items.len() as int;
            lemma_render_items_chars(dv);
            assert(n0 == kl + 5 + il + 1);
            lemma_run_end_is(s, 0, 0, CharClass::Sep);
            lemma_run_end_is(s, 0, kl, CharClass::Key);
            lemma_run_end_is(s, kl, kl + 1, CharClass::Ws);
            if kl + 6 <= s.len() {
                assert(s.subrange(kl + 1, kl + 6)[0] == 'i');
                assert(s.subrange(kl + 1, kl + 6) != notin_kw());
            }
            assert(s.subrange(kl + 1, kl + 3) =~= in_kw());
            lemma_run_end_is(s, kl + 3, kl + 4, CharClass::Ws);
            assert(s[kl + 4] == '(');
            lemma_run_end_is(s, kl + 5, kl + 5 + il, CharClass::List);
            assert(s[kl + 5 + il] == ')');
            assert(set_extent(s, kl) == Some(n0));
            lemma_set_model_membership(k@, dv, false);
            assert(s.subrange(0, n0) =~= k@ + seq![' ', 'i', 'n', ' ', '('] + items + seq![')']);
        },
        Expression::NotIn(k, vs) => {
            let kl = k@.len() as int;
            let dv = vs.deep_view();
            let items = spec_render_items(dv);
            let il = items.len() as int;
            lemma_render_items_chars(dv);
            assert(n0 == kl + 8 + il + 1);
            lemma_run_end_is(s, 0, 0, CharClass::Sep);
            lemma_run_end_is(s, 0, kl, CharClass::Key);
            lemma_run_end_is(s, kl, kl + 1, CharClass::Ws);
            assert(s.subrange(kl + 1, kl + 6) =~= notin_kw());
            lemma_run_end_is(s, kl + 6, kl + 7, CharClass::Ws);
            assert(s[kl + 7] == '(');
            lemma_run_end_is(s, kl + 8, kl + 8 + il, CharClass::List);
            assert(s[kl + 8 + il] == ')');
            assert(set_extent(s, kl) == Some(n0));
            lemma_set_model_membership(k@, dv, true);
            assert(s.subrange(0, n0) =~= k@ + seq![' ', 'n', 'o', 't', 'i', 'n', ' ', '('] + items
                + seq![')']);
        },
    }
}

/// Stepping from anywhere inside a separator run is stepping from its
/// start: separators carry no meaning.
proof fn lemma_parse_skip_sep(s: Seq<char>, pos: int)
    requires
        0 <= pos < s.len(),
        char_in(CharClass::Sep, s[pos]),
    ensures
        parse_model(s, pos) == parse_model(s, pos + 1),
{
    assert(run_end(s, pos, CharClass::Sep) == run_end(s, pos + 1, CharClass::Sep));
}

/// Parsing round-trips rendering: the canonical text of any run of
/// grammar-valid expressions parses back to exactly those expressions —
/// same variants, same keys, same value sets — in the same order and
/// number, and never to an error. In particular, parsing such a selector
/// yields one expression per fragment.
pub proof fn lemma_parse_round_trip(es: Seq<Expression>)
    requires
        forall|i: int| 0 <= i < es.len() ==> expr_valid(#[trigger] es[i]),
    ensures
        match parse_model(spec_render_all(es), 0) {
            Ok(ms) => ms == es.map_values(|e: Expression| e@) && ms.len() == es.len(),
            Err(_) => false,
        },
    decreases es.len(),
{
    let s = spec_render_all(es);
    let f = |e: Expression| e@;
    if es.len() == 0 {
        assert(s =~= Seq::<char>::empty());
        assert(parse_model(s, 0) == Ok::<Seq<SpecExpression>, (int, int)>(Seq::empty()));
        assert(es.map_values(f) =~= Seq::<SpecExpression>::empty());
    } else {
        let e0 = es[0];
        let r0 = spec_render(e0);
        let n0 = r0.len() as int;
        if es.len() == 1 {
            assert(s == r0);
            assert(s.subrange(0, n0) =~= r0);
            lemma_step_renders(e0, s);
            lemma_run_end_is(s, n0, n0, CharClass::Sep);
            assert(parse_model(s, n0) == Ok::<Seq<SpecExpression>, (int, int)>(Seq::empty()));
            assert(seq![e0@] + Seq::<SpecExpression>::empty() =~= es.map_values(f));
        } else {
            let tail = es.drop_first();
            let rt = spec_render_all(tail);
            assert(s == r0 + seq![','] + rt);
            assert(s.subrange(0, n0) =~= r0);
            assert(s[n0] == ',');
            lemma_step_renders(e0, s);
            lemma_parse_skip_sep(s, n0);
            lemma_parse_shift(s, n0 + 1);
            assert(s.skip(n0 + 1) =~= rt);
            assert forall|i: int| 0 <= i < tail.len() implies expr_valid(#[trigger] tail[i]) by {
                assert(tail[i] == es[i + 1]);
            }
            lemma_parse_round_trip(tail);
            assert(seq![e0@] + tail.map_values(f) =~= es.map_values(f));
        }
    }
}

/// The abstract form of a grammar-valid expression: what `expr_valid`
/// says, read off the view alone.
pub open spec fn spec_expr_valid(m: SpecExpression) -> bool {
    match m {
        SpecExpression::In(k, set) => valid_key(k) && forall|x: Seq<char>|
            set.contains(x) ==> valid_item(x),
        SpecExpression::NotIn(k, set) => valid_key(k) && forall|x: Seq<char>|
            set.contains(x) ==> valid_item(x),
        SpecExpression::Equal(k, v) => k.len() > 0 && (forall|i: int|
            0 <= i < k.len() ==> char_in(CharClass::Key, #[trigger] k[i])) && valid_value(v),
        SpecExpression::NotEqual(k, v) => k.len() > 0 && (forall|i: int|
            0 <= i < k.len() ==> char_in(CharClass::Key, #[trigger] k[i])) && valid_value(v),
        SpecExpression::Exists(k) => valid_key(k),
        SpecExpression::DoesNotExist(k) => valid_key(k),
    }
}

/// Every member a value list yields is a valid item.
proof fn lemma_vl_items_valid(s: Seq<char>, i: int)
    requires
        0 <= i <= s.len(),
    ensures
        match value_list_from(s, i) {
            Some(items) => forall|j: int| 0 <= j < items.len() ==> valid_item(#[trigger] items[j]),
            None => true,
        },
    decreases s.len() - i,
{
    if i == s.len() {
    } else if is_vl_sep(s[i]) {
        lemma_vl_items_valid(s, i + 1);
    } else if char_in(CharClass::Item, s[i]) {
        let j = run_end(s, i, CharClass::Item);
        lemma_run_end(s, i, CharClass::Item);
        assert(run_end(s, i, CharClass::Item) == run_end(s, i + 1, CharClass::Item));
        lemma_run_end(s, i + 1, CharClass::Item);
        lemma_vl_items_valid(s, j);
        if value_list_from(s, j) is Some {
            let head = s.subrange(i, j);
            assert(valid_item(head));
        }
    }
}

/// Whatever the set sub-tokenizer accepts is grammar-valid.
proof fn lemma_set_model_valid(s: Seq<char>)
    ensures
        match set_model(s) {
            Some(m) => spec_expr_valid(m),
            None => true,
        },
{
    lemma_run_end(s, 0, CharClass::Sep);
    let i0 = run_end(s, 0, CharClass::Sep);
    if i0 < s.len() {
        if s[i0] == '!' {
            lemma_run_end(s, i0 + 1, CharClass::Sep);
            let i1 = run_end(s, i0 + 1, CharClass::Sep);
            lemma_run_end(s, i1, CharClass::Key);
        } else {
            lemma_run_end(s, i0, CharClass::Key);
            let k = run_end(s, i0, CharClass::Key);
            if k != i0 {
                let key = s.subrange(i0, k);
                lemma_run_end(s, k, CharClass::Sep);
                let i1 = run_end(s, k, CharClass::Sep);
                if i1 != s.len() && !is_keyword(key) {
                    lemma_run_end(s, i1, CharClass::Key);
                    let k2 = run_end(s, i1, CharClass::Key);
                    if k2 != i1 && is_keyword(s.subrange(i1, k2)) {
                        lemma_run_end(s, k2, CharClass::Sep);
                        let p = run_end(s, k2, CharClass::Sep);
                        if p < s.len() && s[p] == '(' {
                            lemma_run_end(s, p + 1, CharClass::NotClose);
                            let q = run_end(s, p + 1, CharClass::NotClose);
                            if q != s.len() {
                                let inner = s.subrange(p + 1, q);
                                lemma_vl_items_valid(inner, 0);
                                match value_list_from(inner, 0) {
                                    Some(items) => {
                                        assert forall|x: Seq<char>|
                                            items.to_set().contains(x) implies valid_item(x) by {
                                            let w = choose|w: int|
                                                0 <= w < items.len() && items[w] == x;
                                            assert(valid_item(items[w]));
                                        }
                                    },
                                    None => {},
                                }
                            }
                        }
                    }
                }
            }
        }
    }
}

/// Whatever the equality sub-tokenizer accepts is grammar-valid.
proof fn lemma_equality_model_valid(s: Seq<char>)
    ensures
        match equality_model(s) {
            Some(m) => spec_expr_valid(m),
            None => true,
        },
{
    lemma_run_end(s, 0, CharClass::Ws);
    let k0 = run_end(s, 0, CharClass::Ws);
    lemma_run_end(s, k0, CharClass::Key);
    let k1 = run_end(s, k0, CharClass::Key);
    if k1 != k0 {
        lemma_run_end(s, k1, CharClass::Ws);
        let p = run_end(s, k1, CharClass::Ws);
        let q = if p < s.len() && s[p] == '=' {
            if p + 1 < s.len() && s[p + 1] == '=' {
                p + 2
            } else {
                p + 1
            }
        } else if p + 1 < s.len() && s[p] == '!' && s[p + 1] == '=' {
            p + 2
        } else {
            -1
        };
        if 0 <= q <= s.len() {
            lemma_run_end(s, q, CharClass::Ws);
            let v0 = run_end(s, q, CharClass::Ws);
            lemma_run_end(s, v0, CharClass::Value);
        }
    }
}

/// Every expression the whole parse yields is grammar-valid.
pub proof fn lemma_parse_results_valid(s: Seq<char>, pos: int)
    requires
        0 <= pos <= s.len(),
    ensures
        match parse_model(s, pos) {
            Ok(ms) => forall|i: int| 0 <= i < ms.len() ==> spec_expr_valid(#[trigger] ms[i]),
            Err(_) => true,
        },
    decreases s.len() - pos,
{
    crate::model::lemma_step_bounds(s, pos);
    match step_model(s, pos) {
        SpecStep::Exhausted => {},
        SpecStep::Fragment { start, end, parsed } => {
            lemma_set_model_valid(s.subrange(start, end));
            lemma_equality_model_valid(s.subrange(start, end));
            match parsed {
                None => {},
                Some(m) => {
                    lemma_parse_results_valid(s, end);
                },
            }
        },
    }
}

/// Grammar validity is a property of the view: an executable expression
/// whose view is grammar-valid is itself grammar-valid, so a parsed
/// expression may be rendered and re-parsed by `lemma_parse_round_trip`.
pub proof fn lemma_view_valid(e: Expression)
    requires
        spec_expr_valid(e@),
    ensures
        expr_valid(e),
{
    match e {
        Expression::In(k, vs) => {
            assert forall|i: int| 0 <= i < vs.len() implies valid_item(
                #[trigger] vs.deep_view()[i],
            ) by {
                assert(vs.deep_view().to_set().contains(vs.deep_view()[i]));
            }
        },
        Expression::NotIn(k, vs) => {
            assert forall|i: int| 0 <= i < vs.len() implies valid_item(
                #[trigger] vs.deep_view()[i],
            ) by {
                assert(vs.deep_view().to_set().contains(vs.deep_view()[i]));
            }
        },
        _ => {},
    }
}

/// `=` and `==` are the same operator — both parse to `Equal` — and
/// `!=` parses to `NotEqual`, for every key and value the grammar
/// allows.
pub proof fn lemma_equality_operators(k: Seq<char>, v: Seq<char>)
    requires
        k.len() > 0,
        forall|i: int| 0 <= i < k.len() ==> char_in(CharClass::Key, #[trigger] k[i]),
        valid_value(v),
    ensures
        equality_model(k + seq!['='] + v) == Some(SpecExpression::Equal(k, v)),
        equality_model(k + seq!['=', '='] + v) == Some(SpecExpression::Equal(k, v)),
        equality_model(k + seq!['!', '='] + v) == Some(SpecExpression::NotEqual(k, v)),
{
    lemma_equality_model_op(k, v, seq!['='], false);
    lemma_equality_model_op(k, v, seq!['=', '='], false);
    lemma_equality_model_op(k, v, seq!['!', '='], true);
}

/// An error's span is always a valid, non-empty range of offsets into
/// the original input.
pub proof fn lemma_error_span_bounds(s: Seq<char>, pos: int)
    requires
        0 <= pos <= s.len(),
    ensures
        match parse_model(s, pos) {
            Ok(_) => true,
            Err((a, b)) => pos <= a < b <= s.len(),
        },
    decreases s.len() - pos,
{
    crate::model::lemma_step_bounds(s, pos);
    match step_model(s, pos) {
        SpecStep::Exhausted => {},
        SpecStep::Fragment { start, end, parsed } => match parsed {
            None => {},
            Some(_) => {
                lemma_error_span_bounds(s, end);
            },
        },
    }
}

} // verus!
