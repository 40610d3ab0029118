//! The parsed predicate type and its value-set representation.
//!
//! `In` and `NotIn` hold their values as a strictly sorted vector: the
//! order is lexicographic by code point and duplicates collapse, whatever
//! order the source listed them in. The view of an expression abstracts
//! that vector to a set.

use vstd::prelude::*;

use crate::model::SpecExpression;

verus! {

/// Strict lexicographic order on character sequences, by code point.
pub open spec fn lex_lt(a: Seq<char>, b: Seq<char>) -> bool
    decreases a.len(),
{
    if b.len() == 0 {
        false
    } else if a.len() == 0 {
        true
    } else if a[0] != b[0] {
        (a[0] as u32) < (b[0] as u32)
    } else {
        lex_lt(a.drop_first(), b.drop_first())
    }
}

/// Any two character sequences are ordered or equal.
pub proof fn lemma_lex_trichotomy(a: Seq<char>, b: Seq<char>)
    ensures
        lex_lt(a, b) || lex_lt(b, a) || a == b,
    decreases a.len(),
{
    if b.len() == 0 {
        if a.len() == 0 {
            assert(a =~= b);
        }
    } else if a.len() == 0 {
    } else if a[0] == b[0] {
        lemma_lex_trichotomy(a.drop_first(), b.drop_first());
        if a.drop_first() == b.drop_first() {
            assert(a.drop_first().len() == a.len() - 1);
            assert(b.drop_first().len() == b.len() - 1);
            assert(a.len() == b.len());
            assert forall|i: int| 0 <= i < a.len() implies a[i] == b[i] by {
                if i > 0 {
                    assert(a[i] == a.drop_first()[i - 1]);
                    assert(b[i] == b.drop_first()[i - 1]);
                }
            }
            assert(a =~= b);
        }
    } else {
        vstd::utf8::char_u32_cast(a[0], a[0] as u32);
        vstd::utf8::char_u32_cast(b[0], b[0] as u32);
    }
}

/// The order is irreflexive.
pub proof fn lemma_lex_irreflexive(a: Seq<char>)
    ensures
        !lex_lt(a, a),
    decreases a.len(),
{
    if a.len() > 0 {
        lemma_lex_irreflexive(a.drop_first());
    }
}

/// The order is transitive.
pub proof fn lemma_lex_transitive(a: Seq<char>, b: Seq<char>, c: Seq<char>)
    requires
        lex_lt(a, b),
        lex_lt(b, c),
    ensures
        lex_lt(a, c),
    decreases a.len(),
{
    if a.len() > 0 && b.len() > 0 && c.len() > 0 && a[0] == b[0] && b[0] == c[0] {
        lemma_lex_transitive(a.drop_first(), b.drop_first(), c.drop_first());
    }
}

/// Compares two strings in the lexicographic order of their characters.
pub fn str_lt(a: &str, b: &str) -> (r: bool)
    ensures
        r == lex_lt(a@, b@),
{
    let na = a.unicode_len();
    let nb = b.unicode_len();
    let mut i: usize = 0;
    proof {
        assert(a@.skip(0) =~= a@);
        assert(b@.skip(0) =~= b@);
    }
    loop
        invariant
            na == a@.len(),
            nb == b@.len(),
            i <= na,
            i <= nb,
            lex_lt(a@, b@) == lex_lt(a@.skip(i as int), b@.skip(i as int)),
            lex_lt(b@, a@) == lex_lt(b@.skip(i as int), a@.skip(i as int)),
        decreases na - i,
    {
        if i == nb {
            proof {
                assert(b@.skip(i as int).len() == 0);
            }
            return false;
        }
        if i == na {
            proof {
                assert(a@.skip(i as int).len() == 0);
                assert(b@.skip(i as int).len() > 0);
            }
            return true;
        }
        let ca = a.get_char(i);
        let cb = b.get_char(i);
        if ca != cb {
            proof {
                assert(a@.skip(i as int)[0] == ca);
                assert(b@.skip(i as int)[0] == cb);
            }
            return (ca as u32) < (cb as u32);
        }
        proof {
            assert(a@.skip(i as int).drop_first() =~= a@.skip(i + 1));
            assert(b@.skip(i as int).drop_first() =~= b@.skip(i + 1));
        }
        i = i + 1;
    }
}

/// A selector predicate over one key.
#[derive(Debug, Clone, PartialEq, Eq)]
pub enum Expression {
    /// Key exists and its value is in the set.
    In(String, Vec<String>),
    /// Key does not exist, or its value is not in the set.
    NotIn(String, Vec<String>),
    /// Key exists and its value is equal.
    Equal(String, String),
    /// Key does not exist, or its value is not equal.
    NotEqual(String, String),
    /// Key exists.
    Exists(String),
    /// Key does not exist.
    DoesNotExist(String),
}

/// A strictly ascending run of values: sorted, hence free of duplicates.
pub open spec fn strictly_sorted(vs: Seq<Seq<char>>) -> bool {
    forall|i: int, j: int| 0 <= i < j < vs.len() ==> lex_lt(vs[i], vs[j])
}

impl View for Expression {
    type V = SpecExpression;

    open spec fn view(&self) -> SpecExpression {
        match self {
            Expression::In(k, vs) => SpecExpression::In(k@, vs.deep_view().to_set()),
            Expression::NotIn(k, vs) => SpecExpression::NotIn(k@, vs.deep_view().to_set()),
            Expression::Equal(k, v) => SpecExpression::Equal(k@, v@),
            Expression::NotEqual(k, v) => SpecExpression::NotEqual(k@, v@),
            Expression::Exists(k) => SpecExpression::Exists(k@),
            Expression::DoesNotExist(k) => SpecExpression::DoesNotExist(k@),
        }
    }
}

impl Expression {
    /// The representation invariant: value vectors are strictly sorted,
    /// so each value appears once and iteration order is lexicographic.
    pub open spec fn wf(self) -> bool {
        match self {
            Expression::In(_, vs) => strictly_sorted(vs.deep_view()),
            Expression::NotIn(_, vs) => strictly_sorted(vs.deep_view()),
            _ => true,
        }
    }
}

/// Inserts a value into a strictly sorted vector, keeping it strictly
/// sorted; a value already present is dropped.
fn insert_value(vs: &mut Vec<String>, v: String)
    requires
        strictly_sorted(old(vs).deep_view()),
    ensures
        strictly_sorted(final(vs).deep_view()),
        final(vs).deep_view().to_set() == old(vs).deep_view().to_set().insert(v@),
{
    let n = vs.len();
    let mut i: usize = 0;
    while i < n && str_lt(vs[i].as_str(), v.as_str())
        invariant
            n == vs.len(),
            i <= n,
            *vs == *old(vs),
            forall|k: int| 0 <= k < i ==> lex_lt(vs.deep_view()[k], v@),
        decreases n - i,
    {
        i = i + 1;
    }
    if i < n && !str_lt(v.as_str(), vs[i].as_str()) {
        proof {
            lemma_lex_trichotomy(vs.deep_view()[i as int], v@);
            assert(vs.deep_view()[i as int] == v@);
            assert(vs.deep_view().contains(v@));
            assert(vs.deep_view().to_set() =~= vs.deep_view().to_set().insert(v@));
        }
        return ;
    }
    let ghost old_dv = vs.deep_view();
    vs.insert(i, v);
    proof {
        let dv = vs.deep_view();
        assert(dv =~= old_dv.insert(i as int, v@));
        old_dv.insert_ensures(i as int, v@);
        assert(forall|k: int| 0 <= k < i ==> dv[k] == old_dv[k]);
        assert(dv[i as int] == v@);
        assert(forall|k: int| i < k < dv.len() ==> dv[k] == old_dv[k - 1]);
        assert forall|k: int| i < k < dv.len() implies lex_lt(v@, dv[k]) by {
            if k - 1 > i {
                lemma_lex_transitive(v@, old_dv[i as int], old_dv[k - 1]);
            }
        }
        assert forall|p: int, q: int| 0 <= p < q < dv.len() implies lex_lt(dv[p], dv[q]) by {
            if q < i {
            } else if q == i {
            } else if p == i {
            } else if p < i {
                lemma_lex_transitive(dv[p], v@, dv[q]);
            }
        }
        assert(dv.to_set() =~= old_dv.to_set().insert(v@)) by {
            assert forall|x: Seq<char>| dv.to_set().contains(x) implies old_dv.to_set().insert(
                v@,
            ).contains(x) by {
                let w = choose|w: int| 0 <= w < dv.len() && dv[w] == x;
                if w < i {
                    assert(old_dv[w] == x);
                } else if w > i {
                    assert(old_dv[w - 1] == x);
                }
            }
            assert forall|x: Seq<char>|
                old_dv.to_set().insert(v@).contains(x) implies dv.to_set().contains(x) by {
                if x == v@ {
                    assert(dv[i as int] == x);
                } else {
                    let w = choose|w: int| 0 <= w < old_dv.len() && old_dv[w] == x;
                    if w < i {
                        assert(dv[w] == x);
                    } else {
                        assert(dv[w + 1] == x);
                    }
                }
            }
        }
    }
}

/// Collapses a run of values, in any order and with duplicates, into the
/// strictly sorted vector holding exactly the same set of values.
pub fn build_value_set(items: &Vec<String>) -> (r: Vec<String>)
    ensures
        strictly_sorted(r.deep_view()),
        r.deep_view().to_set() == items.deep_view().to_set(),
{
    let n = items.len();
    let mut out: Vec<String> = Vec::new();
    let mut idx: usize = 0;
    proof {
        assert(out.deep_view().to_set() =~= items.deep_view().subrange(0, 0).to_set());
    }
    while idx < n
        invariant
            n == items.len(),
            idx <= n,
            strictly_sorted(out.deep_view()),
            out.deep_view().to_set() == items.deep_view().subrange(0, idx as int).to_set(),
        decreases n - idx,
    {
        let v = items[idx].clone();
        proof {
            assert(v@ == items.deep_view()[idx as int]);
        }
        insert_value(&mut out, v);
        proof {
            let pre = items.deep_view().subrange(0, idx as int);
            let post = items.deep_view().subrange(0, idx + 1);
            assert(post =~= pre.push(items.deep_view()[idx as int]));
            pre.lemma_push_to_set_commute(items.deep_view()[idx as int]);
        }
        idx = idx + 1;
    }
    proof {
        assert(items.deep_view().subrange(0, n as int) =~= items.deep_view());
    }
    out
}

} // verus!
