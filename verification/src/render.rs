//! The canonical textual rendering of an expression, the inverse
//! direction of the parser: `laws` proves that parsing a rendering gives
//! the expression back.

use vstd::prelude::*;
use vstd::string::StrSliceExecFns;
use vstd::string::StringExecFns;

use crate::expr::Expression;

verus! {

broadcast use vstd::string::group_string_axioms;

/// The members of a value list, joined by commas.
pub open spec fn spec_render_items(vs: Seq<Seq<char>>) -> Seq<char>
    decreases vs.len(),
{
    if vs.len() == 0 {
        Seq::empty()
    } else if vs.len() == 1 {
        vs[0]
    } else {
        vs[0] + seq![','] + spec_render_items(vs.drop_first())
    }
}

/// Appending one member puts it at the end, after a comma if the list
/// was not empty.
pub proof fn lemma_render_items_push(vs: Seq<Seq<char>>, v: Seq<char>)
    ensures
        spec_render_items(vs.push(v)) == if vs.len() == 0 {
            v
        } else {
            spec_render_items(vs) + seq![','] + v
        },
    decreases vs.len(),
{
    let p = vs.push(v);
    if vs.len() == 0 {
        assert(p.len() == 1);
        assert(p[0] == v);
    } else {
        assert(p[0] == vs[0]);
        assert(p.drop_first() =~= vs.drop_first().push(v));
        lemma_render_items_push(vs.drop_first(), v);
        if vs.len() == 1 {
            assert(spec_render_items(vs) == vs[0]);
            assert(spec_render_items(p.drop_first()) == v);
        } else {
            assert(vs[0] + seq![','] + (spec_render_items(vs.drop_first()) + seq![','] + v) =~= (
            vs[0] + seq![','] + spec_render_items(vs.drop_first())) + seq![','] + v);
        }
    }
}

/// The canonical text of a whole run of expressions: one rendered
/// fragment per expression, joined by commas.
pub open spec fn spec_render_all(es: Seq<Expression>) -> Seq<char>
    decreases es.len(),
{
    if es.len() == 0 {
        Seq::empty()
    } else if es.len() == 1 {
        spec_render(es[0])
    } else {
        spec_render(es[0]) + seq![','] + spec_render_all(es.drop_first())
    }
}

/// The canonical text of an expression: the form the parser accepts,
/// with single spaces around `in`/`notin` keywords and none elsewhere.
pub open spec fn spec_render(e: Expression) -> Seq<char> {
    match e {
        Expression::Exists(k) => k@,
        Expression::DoesNotExist(k) => seq!['!'] + k@,
        Expression::Equal(k, v) => k@ + seq!['='] + v@,
        Expression::NotEqual(k, v) => k@ + seq!['!', '='] + v@,
        Expression::In(k, vs) => k@ + seq![' ', 'i', 'n', ' ', '('] + spec_render_items(
            vs.deep_view(),
        ) + seq![')'],
        Expression::NotIn(k, vs) => k@ + seq![' ', 'n', 'o', 't', 'i', 'n', ' ', '(']
            + spec_render_items(vs.deep_view()) + seq![')'],
    }
}

/// Joins values with commas.
fn render_items(vs: &Vec<String>) -> (r: String)
    ensures
        r@ == spec_render_items(vs.deep_view()),
{
    let mut out = String::new();
    let n = vs.len();
    let mut i: usize = 0;
    proof {
        assert(vs.deep_view().take(0) =~= Seq::<Seq<char>>::empty());
    }
    while i < n
        invariant
            n == vs.len(),
            i <= n,
            out@ == spec_render_items(vs.deep_view().take(i as int)),
        decreases n - i,
    {
        proof {
            reveal_strlit(",");
            assert(","@ =~= seq![',']);
            lemma_render_items_push(vs.deep_view().take(i as int), vs.deep_view()[i as int]);
            assert(vs.deep_view().take(i + 1) =~= vs.deep_view().take(i as int).push(
                vs.deep_view()[i as int],
            ));
        }
        if i > 0 {
            out.append(",");
        }
        out.append(vs[i].as_str());
        i = i + 1;
    }
    proof {
        assert(vs.deep_view().take(n as int) =~= vs.deep_view());
    }
    out
}

impl Expression {
    /// The canonical text of this expression.
    pub fn render(&self) -> (r: String)
        ensures
            r@ == spec_render(*self),
    {
        proof {
            reveal_strlit("!");
            reveal_strlit("=");
            reveal_strlit("!=");
            reveal_strlit(" in (");
            reveal_strlit(" notin (");
            reveal_strlit(")");
            assert("!"@ =~= seq!['!']);
            assert("="@ =~= seq!['=']);
            assert("!="@ =~= seq!['!', '=']);
            assert(" in ("@ =~= seq![' ', 'i', 'n', ' ', '(']);
            assert(" notin ("@ =~= seq![' ', 'n', 'o', 't', 'i', 'n', ' ', '(']);
            assert(")"@ =~= seq![')']);
        }
        match self {
            Expression::Exists(k) => k.clone(),
            Expression::DoesNotExist(k) => {
                let mut out = String::from_str("!");
                out.append(k.as_str());
                out
            },
            Expression::Equal(k, v) => {
                let mut out = k.clone();
                out.append("=");
                out.append(v.as_str());
                out
            },
            Expression::NotEqual(k, v) => {
                let mut out = k.clone();
                out.append("!=");
                out.append(v.as_str());
                out
            },
            Expression::In(k, vs) => {
                let mut out = k.clone();
                out.append(" in (");
                let items = render_items(vs);
                out.append(items.as_str());
                out.append(")");
                out
            },
            Expression::NotIn(k, vs) => {
                let mut out = k.clone();
                out.append(" notin (");
                let items = render_items(vs);
                out.append(items.as_str());
                out.append(")");
                out
            },
        }
    }
}

} // verus!
