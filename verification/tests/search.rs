//! Search queries: parsing and the conditions they make.
use phoserv::search::{build_sql, collect_terms, distinct_terms, parse, tokenize, Expr};
use phoserv::strmap::StrMap;

fn show(e: &Expr) -> String {
    match e {
        Expr::All => "*".to_string(),
        Expr::Term(t) => t.clone(),
        Expr::And(a, b) => format!("({} & {})", show(a), show(b)),
        Expr::Or(a, b) => format!("({} | {})", show(a), show(b)),
        Expr::Not(a) => format!("!{}", show(a)),
    }
}

fn parsed(q: &str) -> String {
    match parse(q) {
        Ok(e) => show(&e),
        Err(m) => format!("error: {m}"),
    }
}

#[test]
fn blank_query_matches_everything() {
    assert_eq!(parsed(""), "*");
    assert_eq!(parsed("   \t"), "*");
}

#[test]
fn operators_bind_as_the_grammar_says() {
    assert_eq!(parsed("a OR b AND c"), "(a | (b & c))");
    assert_eq!(parsed("a AND b OR c"), "((a & b) | c)");
    assert_eq!(parsed("a AND b AND c"), "((a & b) & c)");
    assert_eq!(parsed("NOT a AND b"), "(!a & b)");
    assert_eq!(parsed("NOT NOT a"), "!!a");
    assert_eq!(parsed("(a OR b) AND c"), "((a | b) & c)");
}

#[test]
fn keywords_ignore_case() {
    assert_eq!(parsed("a and b or not c"), "((a & b) | !c)");
    assert_eq!(parsed("android"), "android");
}

#[test]
fn juxtaposition_means_and() {
    assert_eq!(parsed("a b"), parsed("a AND b"));
    assert_eq!(parsed("a (b OR c) d"), "((a & (b | c)) & d)");
}

#[test]
fn minus_means_not() {
    assert_eq!(parsed("-a"), parsed("NOT a"));
    assert_eq!(parsed("a -b"), "(a & !b)");
    assert_eq!(parsed("people/alice-smith"), "people/alice-smith");
}

#[test]
fn malformed_queries_are_refused() {
    assert!(parse("(a").is_err());
    assert!(parse("a)").is_err());
    assert!(parse("a AND").is_err());
    assert!(parse("OR a").is_err());
    assert!(parse("()").is_err());
    assert!(parse("NOT").is_err());
}

#[test]
fn tokens_are_counted() {
    assert_eq!(tokenize("(a -b) OR NOT c").map(|t| t.len()), Ok(8));
    assert_eq!(tokenize("  ").map(|t| t.len()), Ok(0));
}

#[test]
fn terms_are_collected_once() {
    let e = parse("a b -a (c OR b)").unwrap();
    let mut terms = distinct_terms(&e);
    terms.sort();
    assert_eq!(terms, vec!["a", "b", "c"]);
    let mut set: StrMap<()> = StrMap::new();
    collect_terms(&e, &mut set);
    assert_eq!(set.len(), 3);
    assert!(set.contains_key("c"));
}

#[test]
fn conditions_and_binds_are_in_order() {
    let mut ids: StrMap<Vec<i64>> = StrMap::new();
    ids.insert("a".to_string(), vec![3, 4]);
    ids.insert("b".to_string(), vec![7]);
    let e = parse("a AND NOT (b OR missing)").unwrap();
    let (sql, binds) = build_sql(&e, &ids);
    let exists = |marks: &str| {
        format!("EXISTS (SELECT 1 FROM photo_tags pt_term WHERE pt_term.photo_id = p.id AND pt_term.tag_id IN ({marks}))")
    };
    assert_eq!(sql, format!("({} AND NOT (({} OR 0=1)))", exists("?,?"), exists("?")));
    assert_eq!(binds, vec![3, 4, 7]);
    assert_eq!(sql.matches('?').count(), binds.len());
}

#[test]
fn blank_query_has_no_condition() {
    let (sql, binds) = build_sql(&parse("").unwrap(), &StrMap::new());
    assert_eq!(sql, "1=1");
    assert!(binds.is_empty());
}

#[test]
fn joined_queries_say_what_their_parts_say() {
    for (a, b) in [("x", "y or z"), ("not x", "\"and\""), ("(x)", " y z ")] {
        let (pa, pb) = (parsed(a), parsed(b));
        assert_eq!(parsed(&format!("({a})")), pa);
        assert_eq!(parsed(&format!("({a}) OR ({b})")), format!("({pa} | {pb})"));
        assert_eq!(parsed(&format!("({a}) AND ({b})")), format!("({pa} & {pb})"));
        assert_eq!(parsed(&format!("({a}) ({b})")), parsed(&format!("({a}) AND ({b})")));
        assert_eq!(parsed(&format!("NOT ({a})")), format!("!{pa}"));
        assert_eq!(parsed(&format!("-({a})")), parsed(&format!("NOT ({a})")));
    }
    assert!(matches!(parse("\"not (a\""), Ok(Expr::Term(t)) if t == "not (a"));
}
