use selectors::{
    parse_equality, parse_expression, parse_set, parse_value_list, Expression, Expressions, Lexer,
    ParseError, ParsedExpression, Span,
};

#[test]
fn values_lexer() {
    assert_eq!(
        Some(vec!["a".into(), "b".into(), "c".into()]),
        parse_value_list(" (a,b, c)")
    );
    assert_eq!(Some(vec!["a".into()]), parse_value_list("(a)"));
    assert_eq!(Some(Vec::<String>::new()), parse_value_list("()"));
    assert_eq!(Some(Vec::<String>::new()), parse_value_list(""));
}

#[test]
fn expression_lexer() {
    let data = "a==b,,foo.bar.baz/b-y_.6=c_8.-z,c!=d,a in (a,b, c), a notin (a), c,!a,a()d";
    let mut lexer = Lexer::new(data);
    assert_eq!(
        Some(ParsedExpression::Expression(Expression::Equal(
            "a".into(),
            "b".into()
        ))),
        parse_expression(&mut lexer).unwrap()
    );
    assert_eq!(
        Some(ParsedExpression::Expression(Expression::Equal(
            "foo.bar.baz/b-y_.6".into(),
            "c_8.-z".into()
        ))),
        parse_expression(&mut lexer).unwrap()
    );
    assert_eq!(
        Some(ParsedExpression::Expression(Expression::NotEqual(
            "c".into(),
            "d".into()
        ))),
        parse_expression(&mut lexer).unwrap()
    );
    assert_eq!(
        Some(ParsedExpression::Expression(Expression::In(
            "a".into(),
            vec!["a".into(), "b".into(), "c".into()]
        ))),
        parse_expression(&mut lexer).unwrap()
    );
    assert_eq!(
        Some(ParsedExpression::Expression(Expression::NotIn(
            "a".into(),
            vec!["a".into()]
        ))),
        parse_expression(&mut lexer).unwrap()
    );
    assert_eq!(
        Some(ParsedExpression::Expression(Expression::Exists("c".into()))),
        parse_expression(&mut lexer).unwrap()
    );
    assert_eq!(
        Some(ParsedExpression::Expression(Expression::DoesNotExist(
            "a".into()
        ))),
        parse_expression(&mut lexer).unwrap()
    );
    assert_eq!(
        Some(ParsedExpression::Expression(Expression::Exists("a".into()))),
        parse_expression(&mut lexer).unwrap()
    );
    assert_eq!(
        Err(ParseError::StringParse(
            "(".into(),
            Span { start: 71, end: 72 }
        )),
        parse_expression(&mut lexer)
    );
    assert_eq!(
        Err(ParseError::StringParse(
            ")".into(),
            Span { start: 72, end: 73 }
        )),
        parse_expression(&mut lexer)
    );
    assert_eq!(
        Some(ParsedExpression::Expression(Expression::Exists("d".into()))),
        parse_expression(&mut lexer).unwrap()
    );
    assert_eq!(None, parse_expression(&mut lexer).unwrap());
}

fn parse_all(s: &str) -> Result<Vec<ParsedExpression>, ParseError> {
    Expressions::try_from(s.to_string()).map(|es| es.into_vec())
}

#[test]
fn empty_selector_yields_empty_sequence() {
    assert_eq!(Ok(vec![]), parse_all(""));
    assert_eq!(Ok(vec![]), parse_all(" ,,\t\n , "));
}

#[test]
fn empty_value_list_is_an_empty_set() {
    assert_eq!(
        Ok(vec![ParsedExpression::Expression(Expression::In(
            "key".into(),
            vec![]
        ))]),
        parse_all("key in ()")
    );
}

#[test]
fn value_sets_are_sorted_and_deduplicated() {
    assert_eq!(
        Ok(vec![ParsedExpression::Expression(Expression::In(
            "a".into(),
            vec!["a".into(), "b".into(), "c".into()]
        ))]),
        parse_all("a in (c,a,b,a)")
    );
}

#[test]
fn equality_operators() {
    let equal = Some(Expression::Equal("a".into(), "b".into()));
    assert_eq!(equal, parse_equality("a=b"));
    assert_eq!(equal, parse_equality("a==b"));
    assert_eq!(equal, parse_equality("a = b"));
    assert_eq!(
        Some(Expression::NotEqual("a".into(), "b".into())),
        parse_equality("a != b")
    );
    assert_eq!(None, parse_equality("a<b"));
    assert_eq!(None, parse_equality("a===b"));
    assert_eq!(None, parse_equality("a="));
    assert_eq!(None, parse_equality("=b"));
}

#[test]
fn bare_and_negated_keys() {
    assert_eq!(Some(Expression::Exists("app".into())), parse_set("app"));
    assert_eq!(
        Some(Expression::DoesNotExist("app".into())),
        parse_set("!app")
    );
    // Neither form accepts trailing tokens.
    assert_eq!(None, parse_set("app extra"));
    assert_eq!(None, parse_set("!app extra"));
    // The keywords are not identifiers.
    assert_eq!(None, parse_set("in"));
    assert_eq!(None, parse_set("notin"));
    assert_eq!(None, parse_set("!in"));
}

#[test]
fn value_list_charset_is_narrow() {
    // Digits and dots are legal in keys and equality values but not in
    // value-list members.
    assert_eq!(None, parse_value_list("(b1)"));
    assert_eq!(None, parse_value_list("(b.c)"));
    assert_eq!(
        Err(ParseError::StringParse(
            "a in (b1)".into(),
            Span { start: 0, end: 9 }
        )),
        parse_all("a in (b1)")
    );
    assert_eq!(
        Err(ParseError::StringParse(
            "a in (b.c)".into(),
            Span { start: 0, end: 10 }
        )),
        parse_all("a in (b.c)")
    );
    // The same characters are fine elsewhere.
    assert_eq!(
        Ok(vec![ParsedExpression::Expression(Expression::Equal(
            "k.1".into(),
            "v.2".into()
        ))]),
        parse_all("k.1=v.2")
    );
}

#[test]
fn malformed_fragment_spans_are_exact() {
    // A failing fragment reports its own span; parsing stops there.
    let r = parse_all("a=b, c in (x,9), d");
    assert_eq!(
        Err(ParseError::StringParse(
            "c in (x,9)".into(),
            Span { start: 5, end: 15 }
        )),
        r
    );
}

#[test]
fn fragment_count_and_order_are_kept() {
    let r = parse_all("a=b,c in (x), !d, e!=f, g").unwrap();
    assert_eq!(5, r.len());
    assert_eq!(
        vec![
            ParsedExpression::Expression(Expression::Equal("a".into(), "b".into())),
            ParsedExpression::Expression(Expression::In("c".into(), vec!["x".into()])),
            ParsedExpression::Expression(Expression::DoesNotExist("d".into())),
            ParsedExpression::Expression(Expression::NotEqual("e".into(), "f".into())),
            ParsedExpression::Expression(Expression::Exists("g".into())),
        ],
        r
    );
}

#[test]
fn rendering_round_trips() {
    let source = "a=b, c == d, e != f, g in (z, y, x, z), h notin (), !i, j";
    let first = parse_all(source).unwrap();
    let rendered: Vec<String> = first
        .iter()
        .map(|pe| {
            let ParsedExpression::Expression(e) = pe;
            e.render()
        })
        .collect();
    let again = parse_all(&rendered.join(",")).unwrap();
    assert_eq!(first, again);
    // The rendering is canonical: values come out sorted and unique.
    let ParsedExpression::Expression(e) = &first[3];
    assert_eq!("g in (x,y,z)", e.render());
}
