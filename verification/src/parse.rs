//! The three sub-tokenizers: value lists, equality fragments and set
//! fragments. Each returns exactly what its spec-level model denotes,
//! or `None` on a malformed fragment.

use vstd::prelude::*;
use vstd::string::StringExecFns;
use vstd::string::StrSliceExecFns;

use crate::classes::{char_in_exec, lemma_run_end, run_end, run_end_exec, CharClass};
use crate::expr::{build_value_set, Expression};
use crate::model::{
    equality_model, in_kw, is_vl_sep, notin_kw, set_model, set_tail, value_list_from,
    value_list_model, SpecExpression,
};

verus! {

/// Copies the characters `[i, j)` of `s` into an owned string.
pub(crate) fn substr(s: &str, i: usize, j: usize) -> (r: String)
    requires
        i <= j <= s@.len(),
    ensures
        r@ == s@.subrange(i as int, j as int),
{
    String::from_str(s.substring_char(i, j))
}

/// Does `[a, b)` of `s` spell the keyword `in`?
pub(crate) fn is_in_kw_at(s: &str, a: usize, b: usize) -> (r: bool)
    requires
        a <= b <= s@.len(),
    ensures
        r == (s@.subrange(a as int, b as int) == in_kw()),
{
    proof {
        assert(in_kw().len() == 2 && in_kw()[0] == 'i' && in_kw()[1] == 'n');
    }
    if b - a == 2 && s.get_char(a) == 'i' && s.get_char(a + 1) == 'n' {
        proof {
            assert(s@.subrange(a as int, b as int) =~= in_kw());
        }
        true
    } else {
        proof {
            if s@.subrange(a as int, b as int) == in_kw() {
                assert(s@.subrange(a as int, b as int).len() == 2);
                assert(s@.subrange(a as int, b as int)[0] == 'i');
                assert(s@.subrange(a as int, b as int)[1] == 'n');
            }
        }
        false
    }
}

/// Does `[a, b)` of `s` spell the keyword `notin`?
pub(crate) fn is_notin_kw_at(s: &str, a: usize, b: usize) -> (r: bool)
    requires
        a <= b <= s@.len(),
    ensures
        r == (s@.subrange(a as int, b as int) == notin_kw()),
{
    proof {
        assert(notin_kw().len() == 5 && notin_kw()[0] == 'n' && notin_kw()[1] == 'o' && notin_kw()[2]
            == 't' && notin_kw()[3] == 'i' && notin_kw()[4] == 'n');
    }
    if b - a == 5 && s.get_char(a) == 'n' && s.get_char(a + 1) == 'o' && s.get_char(a + 2) == 't'
        && s.get_char(a + 3) == 'i' && s.get_char(a + 4) == 'n' {
        proof {
            assert(s@.subrange(a as int, b as int) =~= notin_kw());
        }
        true
    } else {
        proof {
            if s@.subrange(a as int, b as int) == notin_kw() {
                assert(s@.subrange(a as int, b as int).len() == 5);
                assert(s@.subrange(a as int, b as int)[0] == 'n');
                assert(s@.subrange(a as int, b as int)[1] == 'o');
                assert(s@.subrange(a as int, b as int)[2] == 't');
                assert(s@.subrange(a as int, b as int)[3] == 'i');
                assert(s@.subrange(a as int, b as int)[4] == 'n');
            }
        }
        false
    }
}

/// Parses a parenthesized, comma/whitespace separated list of values.
/// Members must be runs of `Item` characters — letters, `_` and `-`; any
/// other character makes the whole list malformed. Parentheses anywhere
/// act as separators; the list may be empty. Members are returned in
/// source order, duplicates included.
pub fn parse_value_list(source: &str) -> (r: Option<Vec<String>>)
    ensures
        match (r, value_list_model(source@)) {
            (Some(vs), Some(m)) => vs.deep_view() == m,
            (None, None) => true,
            _ => false,
        },
{
    let n = source.unicode_len();
    let mut out: Vec<String> = Vec::new();
    let mut i: usize = 0;
    loop
        invariant
            n == source@.len(),
            i <= n,
            match value_list_from(source@, i as int) {
                Some(rest) => value_list_from(source@, 0) == Some(out.deep_view() + rest),
                None => value_list_from(source@, 0) is None,
            },
        decreases n - i,
    {
        if i == n {
            proof {
                assert(value_list_from(source@, i as int) == Some(Seq::<Seq<char>>::empty()));
                assert(out.deep_view() + Seq::<Seq<char>>::empty() =~= out.deep_view());
            }
            return Some(out);
        }
        let c = source.get_char(i);
        if char_in_exec(CharClass::Sep, c) || c == '(' || c == ')' {
            proof {
                assert(is_vl_sep(source@[i as int]));
            }
            i = i + 1;
        } else if char_in_exec(CharClass::Item, c) {
            let j = run_end_exec(source, n, i, CharClass::Item);
            proof {
                assert(run_end(source@, i as int, CharClass::Item) == run_end(
                    source@,
                    i + 1,
                    CharClass::Item,
                ));
                lemma_run_end(source@, i + 1, CharClass::Item);
            }
            let tok = substr(source, i, j);
            let ghost old_dv = out.deep_view();
            out.push(tok);
            proof {
                assert(out.deep_view() =~= old_dv.push(source@.subrange(i as int, j as int)));
                if value_list_from(source@, j as int) is Some {
                    let rest = value_list_from(source@, j as int)->Some_0;
                    assert(old_dv + (seq![source@.subrange(i as int, j as int)] + rest) =~= out.deep_view()
                        + rest);
                }
            }
            i = j;
        } else {
            proof {
                assert(value_list_from(source@, i as int) is None);
            }
            return None;
        }
    }
}

/// Parses an equality fragment: a key, an operator — `=` and `==` both
/// mean equality, `!=` inequality — and a value, with optional whitespace
/// between the three tokens and nothing else.
pub fn parse_equality(source: &str) -> (r: Option<Expression>)
    ensures
        match (r, equality_model(source@)) {
            (Some(e), Some(m)) => e@ == m && e.wf(),
            (None, None) => true,
            _ => false,
        },
{
    let n = source.unicode_len();
    let k0 = run_end_exec(source, n, 0, CharClass::Ws);
    let k1 = run_end_exec(source, n, k0, CharClass::Key);
    if k1 == k0 {
        return None;
    }
    let p = run_end_exec(source, n, k1, CharClass::Ws);
    let neg: bool;
    let opend: usize;
    if p < n && source.get_char(p) == '=' {
        neg = false;
        if p + 1 < n && source.get_char(p + 1) == '=' {
            opend = p + 2;
        } else {
            opend = p + 1;
        }
    } else if p < n && p + 1 < n && source.get_char(p) == '!' && source.get_char(p + 1) == '=' {
        neg = true;
        opend = p + 2;
    } else {
        return None;
    }
    let v0 = run_end_exec(source, n, opend, CharClass::Ws);
    let v1 = run_end_exec(source, n, v0, CharClass::Value);
    if v1 == v0 {
        return None;
    }
    if run_end_exec(source, n, v1, CharClass::Ws) != n {
        return None;
    }
    let key = substr(source, k0, k1);
    let value = substr(source, v0, v1);
    if neg {
        Some(Expression::NotEqual(key, value))
    } else {
        Some(Expression::Equal(key, value))
    }
}

/// Parses a set-style fragment by its token run: `!` + identifier gives
/// `DoesNotExist`; a lone identifier gives `Exists`; identifier +
/// `in`/`notin` + parenthesized value list gives `In`/`NotIn`, with the
/// values deduplicated and sorted; anything else is malformed.
pub fn parse_set(source: &str) -> (r: Option<Expression>)
    ensures
        match (r, set_model(source@)) {
            (Some(e), Some(m)) => e@ == m && e.wf(),
            (None, None) => true,
            _ => false,
        },
{
    let n = source.unicode_len();
    let i0 = run_end_exec(source, n, 0, CharClass::Sep);
    if i0 == n {
        return None;
    }
    if source.get_char(i0) == '!' {
        let i1 = run_end_exec(source, n, i0 + 1, CharClass::Sep);
        let k = run_end_exec(source, n, i1, CharClass::Key);
        if k == i1 {
            return None;
        }
        if is_in_kw_at(source, i1, k) || is_notin_kw_at(source, i1, k) {
            return None;
        }
        if run_end_exec(source, n, k, CharClass::Sep) != n {
            return None;
        }
        return Some(Expression::DoesNotExist(substr(source, i1, k)));
    }
    let k = run_end_exec(source, n, i0, CharClass::Key);
    if k == i0 {
        return None;
    }
    if is_in_kw_at(source, i0, k) || is_notin_kw_at(source, i0, k) {
        return None;
    }
    let key = substr(source, i0, k);
    let i1 = run_end_exec(source, n, k, CharClass::Sep);
    if i1 == n {
        return Some(Expression::Exists(key));
    }
    // The fragment continues: only `in (...)` or `notin (...)` is left.
    let k2 = run_end_exec(source, n, i1, CharClass::Key);
    if k2 == i1 {
        return None;
    }
    let kw_in = is_in_kw_at(source, i1, k2);
    let kw_notin = is_notin_kw_at(source, i1, k2);
    if !kw_in && !kw_notin {
        return None;
    }
    let p = run_end_exec(source, n, k2, CharClass::Sep);
    if !(p < n && source.get_char(p) == '(') {
        return None;
    }
    let q = run_end_exec(source, n, p + 1, CharClass::NotClose);
    if q == n {
        return None;
    }
    let inner = source.substring_char(p + 1, q);
    let items = match parse_value_list(inner) {
        Some(items) => items,
        None => {
            return None;
        },
    };
    if run_end_exec(source, n, q + 1, CharClass::Sep) != n {
        return None;
    }
    let values = build_value_set(&items);
    proof {
        assert(set_model(source@) == set_tail(source@, key@, i1 as int));
    }
    if kw_in {
        Some(Expression::In(key, values))
    } else {
        Some(Expression::NotIn(key, values))
    }
}

} // verus!
