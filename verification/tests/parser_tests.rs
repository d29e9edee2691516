use cindex::{
    CIndexError, Operator, OrderType, Parser, QueryFlagType, QueryFlags, Separator,
};

fn strings(v: Vec<&str>) -> Vec<String> {
    v.into_iter().map(|s| s.to_string()).collect()
}

#[test]
fn tokenize_plain_words() {
    let toks = cindex::tokens_with_quote("SELECT a,b FROM t");
    assert_eq!(toks, strings(vec!["SELECT", "a,b", "FROM", "t"]));
}

#[test]
fn tokenize_collapses_blanks() {
    let toks = cindex::tokens_with_quote("a    b  c");
    assert_eq!(toks, strings(vec!["a", "b", "c"]));
}

#[test]
fn tokenize_quoted_blanks_kept() {
    let toks = cindex::tokens_with_quote("SELECT 'first name' FROM t");
    assert_eq!(toks, strings(vec!["SELECT", "first name", "FROM", "t"]));
}

#[test]
fn tokenize_escaped_quote_is_literal() {
    let toks = cindex::tokens_with_quote("a\\'b");
    assert_eq!(toks, strings(vec!["a'b"]));
}

#[test]
fn tokenize_double_backslash_is_literal() {
    let toks = cindex::tokens_with_quote("a\\\\b");
    assert_eq!(toks, strings(vec!["a\\b"]));
}

#[test]
fn tokenize_trailing_partial_token_emitted() {
    let toks = cindex::tokens_with_quote("'unclosed tail");
    assert_eq!(toks, strings(vec!["unclosed tail"]));
}

#[test]
fn parse_basic_select() {
    let q = Parser::new().parse("SELECT a,b FROM t").unwrap();
    assert_eq!(q.table_name, "t");
    assert_eq!(q.column_names, strings(vec!["a", "b"]));
    assert!(q.column_map.is_none());
    assert_eq!(q.range, (0, 0));
    assert!(matches!(q.order_type, OrderType::NoOrder));
    let preds = q.predicates.as_ref().unwrap();
    assert_eq!(preds.len(), 0);
}

#[test]
fn parse_columns_are_trimmed() {
    let q = Parser::new().parse("SELECT a, b FROM t").unwrap();
    assert_eq!(q.column_names, strings(vec!["a", "b"]));
}

#[test]
fn parse_where_predicate() {
    let q = Parser::new().parse("SELECT * FROM t WHERE a = 1").unwrap();
    let preds = q.predicates.as_ref().unwrap();
    assert_eq!(preds.len(), 1);
    assert_eq!(preds[0].column, "a");
    assert!(matches!(preds[0].operation, Operator::Equal));
    assert_eq!(preds[0].arguments, strings(vec!["1"]));
    assert!(matches!(preds[0].separator, Separator::And));
}

#[test]
fn parse_where_two_predicates_with_or() {
    let q = Parser::new()
        .parse("SELECT * FROM t WHERE a = 1 OR b > 2")
        .unwrap();
    let preds = q.predicates.as_ref().unwrap();
    assert_eq!(preds.len(), 2);
    assert!(matches!(preds[0].separator, Separator::And));
    assert!(matches!(preds[1].separator, Separator::Or));
    assert!(matches!(preds[1].operation, Operator::Bigger));
    assert_eq!(preds[1].column, "b");
}

#[test]
fn parse_order_by_defaults_ascending() {
    let q = Parser::new().parse("SELECT * FROM t ORDER BY a").unwrap();
    match &q.order_type {
        OrderType::Asec(c) => assert_eq!(c, "a"),
        _ => panic!("expected ascending order"),
    }
}

#[test]
fn parse_order_by_desc() {
    let q = Parser::new().parse("SELECT * FROM t ORDER BY a DESC").unwrap();
    match &q.order_type {
        OrderType::Desc(c) => assert_eq!(c, "a"),
        _ => panic!("expected descending order"),
    }
}

#[test]
fn parse_bad_order_direction_is_statement_error() {
    let r = Parser::new().parse("SELECT * FROM t ORDER BY a SIDEWAYS");
    assert!(matches!(r, Err(CIndexError::InvalidQueryStatement(_))));
}

#[test]
fn parse_limit_offset() {
    let q = Parser::new()
        .parse("SELECT * FROM t OFFSET 2 LIMIT 5")
        .unwrap();
    assert_eq!(q.range, (2, 5));
}

#[test]
fn parse_non_numeric_limit_is_statement_error() {
    let r = Parser::new().parse("SELECT * FROM t LIMIT many");
    assert!(matches!(r, Err(CIndexError::InvalidQueryStatement(_))));
}

#[test]
fn parse_flags() {
    let q = Parser::new().parse("SELECT * FROM t FLAG PHD SUP").unwrap();
    assert!(q.flags.contains(QueryFlagType::Phd));
    assert!(q.flags.contains(QueryFlagType::Sup));
    assert!(!q.flags.contains(QueryFlagType::TP));
}

#[test]
fn parse_unknown_flag_is_statement_error() {
    let r = Parser::new().parse("SELECT * FROM t FLAG NOPE");
    assert!(matches!(r, Err(CIndexError::InvalidQueryStatement(_))));
}

#[test]
fn parse_hmap_collected() {
    let q = Parser::new().parse("SELECT a,b FROM t HMAP x,y").unwrap();
    assert_eq!(q.column_map, Some(strings(vec!["x", "y"])));
}

#[test]
fn parse_unsupported_operator_is_statement_error() {
    let r = Parser::new().parse("SELECT * FROM t WHERE a ~= 1");
    assert!(matches!(r, Err(CIndexError::InvalidQueryStatement(_))));
}

#[test]
fn parse_like_compiles_pattern() {
    let q = Parser::new()
        .parse("SELECT * FROM t WHERE a LIKE ^start")
        .unwrap();
    let preds = q.predicates.as_ref().unwrap();
    assert_eq!(preds[0].matcher.as_deref(), Some("^start"));
}

#[test]
fn parse_bad_like_pattern_is_statement_error() {
    let r = Parser::new().parse("SELECT * FROM t WHERE a LIKE ['");
    assert!(matches!(r, Err(CIndexError::InvalidQueryStatement(_))));
}

#[test]
fn parse_predicate_without_arguments_is_statement_error() {
    let r = Parser::new().parse("SELECT * FROM t WHERE a = AND b = 2");
    assert!(matches!(r, Err(CIndexError::InvalidQueryStatement(_))));
}

#[test]
fn operator_from_token_resolves_case_insensitively() {
    assert!(matches!(Operator::from_token(">").unwrap(), Operator::Bigger));
    assert!(matches!(Operator::from_token(">=").unwrap(), Operator::BiggerOrEqual));
    assert!(matches!(Operator::from_token("<").unwrap(), Operator::Smaller));
    assert!(matches!(Operator::from_token("<=").unwrap(), Operator::SmallerOrEqual));
    assert!(matches!(Operator::from_token("=").unwrap(), Operator::Equal));
    assert!(matches!(Operator::from_token("!=").unwrap(), Operator::NotEqual));
    assert!(matches!(Operator::from_token("BETWEEN").unwrap(), Operator::Between));
    assert!(matches!(Operator::from_token("In").unwrap(), Operator::In));
    assert!(matches!(Operator::from_token("like").unwrap(), Operator::Like));
    assert!(matches!(
        Operator::from_token("almost"),
        Err(CIndexError::InvalidQueryStatement(_))
    ));
}

#[test]
fn flags_set_and_clear() {
    let mut f = QueryFlags::new();
    assert!(f.set("phd").is_ok());
    assert!(f.set("TRANPOSE").is_ok());
    assert!(f.contains(QueryFlagType::Phd));
    assert!(f.contains(QueryFlagType::TP));
    assert!(!f.contains(QueryFlagType::Sup));
    assert!(matches!(
        f.set("bogus"),
        Err(CIndexError::InvalidQueryStatement(_))
    ));
    f.clear();
    assert!(!f.contains(QueryFlagType::Phd));
    assert!(!f.contains(QueryFlagType::TP));
}

#[test]
fn order_type_from_str() {
    assert!(matches!(OrderType::from_str("ASEC", "c").unwrap(), OrderType::Asec(_)));
    assert!(matches!(OrderType::from_str("desc", "c").unwrap(), OrderType::Desc(_)));
    assert!(matches!(
        OrderType::from_str("upward", "c"),
        Err(CIndexError::InvalidQueryStatement(_))
    ));
}

#[test]
fn double_quotes_stripped_from_content_tokens() {
    let q = Parser::new().parse("SELECT a FROM \"t\"").unwrap();
    assert_eq!(q.table_name, "t");
}

#[test]
fn parse_limit_too_large_is_statement_error() {
    let r = Parser::new().parse("SELECT * FROM t LIMIT 99999999999999999999999999");
    assert!(matches!(r, Err(CIndexError::InvalidQueryStatement(_))));
}

#[test]
fn parse_usize_reads_digits_only() {
    assert_eq!(cindex::Parser::new().parse("SELECT * FROM t OFFSET 0").unwrap().range, (0, 0));
    assert_eq!(cindex::Parser::new().parse("SELECT * FROM t OFFSET 17").unwrap().range, (17, 0));
}

#[test]
fn parse_statement_spread_over_lines() {
    let q = Parser::new().parse("SELECT a\n FROM\n t\n FLAG\n PHD").unwrap();
    assert_eq!(q.table_name, "t");
    assert_eq!(q.column_names, strings(vec!["a"]));
    assert!(q.flags.contains(QueryFlagType::Phd));
}

#[test]
fn parse_hmap_tokens_concatenate_without_separator() {
    let q = Parser::new().parse("SELECT a,b,c FROM t HMAP x,y z,w").unwrap();
    assert_eq!(q.column_map, Some(strings(vec!["x", "yz", "w"])));
}
