use cindex::{CIndexError, DataType, Operator, Parser, Predicate, Query, Table};

fn strings(v: Vec<&str>) -> Vec<String> {
    v.into_iter().map(|s| s.to_string()).collect()
}

fn table_abc() -> Table {
    Table::new(
        strings(vec!["a", "b", "c"]),
        vec![],
        vec![
            strings(vec!["1", "2", "3"]),
            strings(vec!["4", "5", "6"]),
            strings(vec!["1", "8", "9"]),
        ],
    )
    .unwrap()
}

#[test]
fn load_rejects_duplicate_header() {
    let r = Table::new(
        strings(vec!["a", "a"]),
        vec![],
        vec![strings(vec!["1", "2"])],
    );
    assert!(matches!(r, Err(CIndexError::InvalidTableInput(_))));
}

#[test]
fn load_rejects_ragged_row() {
    let r = Table::new(
        strings(vec!["a", "b"]),
        vec![],
        vec![strings(vec!["1"])],
    );
    assert!(matches!(r, Err(CIndexError::InvalidTableInput(_))));
}

#[test]
fn load_rejects_bad_integer_cell() {
    let r = Table::new(
        strings(vec!["a"]),
        vec![DataType::Integer],
        vec![strings(vec!["twelve"])],
    );
    assert!(matches!(r, Err(CIndexError::InvalidDataType(_))));
}

#[test]
fn load_accepts_signed_integer_and_decimal_cells() {
    let t = Table::new(
        strings(vec!["a", "b"]),
        vec![DataType::Integer, DataType::Float],
        vec![strings(vec!["-12", "3.5"]), strings(vec!["+7", ".25"])],
    );
    assert!(t.is_ok());
}

#[test]
fn load_rejects_nonempty_null_cell() {
    let r = Table::new(
        strings(vec!["a"]),
        vec![DataType::Null],
        vec![strings(vec!["x"])],
    );
    assert!(matches!(r, Err(CIndexError::InvalidDataType(_))));
}

#[test]
fn load_pads_missing_types_with_text() {
    let t = Table::new(
        strings(vec!["a", "b"]),
        vec![DataType::Integer],
        vec![strings(vec!["1", "anything"])],
    );
    assert!(t.is_ok());
}

#[test]
fn query_equal_filters_rows() {
    let t = table_abc();
    let q = Parser::new().parse("SELECT * FROM t WHERE a = 1").unwrap();
    assert_eq!(t.query(&q).unwrap(), vec![0, 2]);
}

#[test]
fn query_not_equal() {
    let t = table_abc();
    let q = Parser::new().parse("SELECT * FROM t WHERE a != 1").unwrap();
    assert_eq!(t.query(&q).unwrap(), vec![1]);
}

#[test]
fn query_bigger_is_lexicographic() {
    let t = table_abc();
    let q = Parser::new().parse("SELECT * FROM t WHERE b > 2").unwrap();
    assert_eq!(t.query(&q).unwrap(), vec![1, 2]);
}

#[test]
fn query_in_operator() {
    let t = table_abc();
    let q = Parser::new().parse("SELECT * FROM t WHERE b IN 2 8").unwrap();
    assert_eq!(t.query(&q).unwrap(), vec![0, 2]);
}

#[test]
fn query_between_is_inclusive() {
    let t = table_abc();
    let q = Parser::new()
        .parse("SELECT * FROM t WHERE b BETWEEN 2 5")
        .unwrap();
    assert_eq!(t.query(&q).unwrap(), vec![0, 1]);
}

#[test]
fn query_like_uses_regex() {
    let t = Table::new(
        strings(vec!["name"]),
        vec![],
        vec![
            strings(vec!["alpha"]),
            strings(vec!["beta"]),
            strings(vec!["alps"]),
        ],
    )
    .unwrap();
    let q = Parser::new()
        .parse("SELECT * FROM t WHERE name LIKE ^al")
        .unwrap();
    assert_eq!(t.query(&q).unwrap(), vec![0, 2]);
}

#[test]
fn query_missing_where_column_is_column_error() {
    let t = table_abc();
    let q = Parser::new().parse("SELECT * FROM t WHERE zz = 1").unwrap();
    assert!(matches!(t.query(&q), Err(CIndexError::InvalidColumn(_))));
}

#[test]
fn query_order_descending() {
    let t = table_abc();
    let q = Parser::new().parse("SELECT * FROM t ORDER BY b DESC").unwrap();
    assert_eq!(t.query(&q).unwrap(), vec![2, 1, 0]);
}

#[test]
fn query_order_is_stable_for_equal_keys() {
    let t = table_abc();
    let q = Parser::new().parse("SELECT * FROM t ORDER BY a").unwrap();
    assert_eq!(t.query(&q).unwrap(), vec![0, 2, 1]);
}

#[test]
fn query_missing_order_column_is_statement_error() {
    let t = table_abc();
    let q = Parser::new().parse("SELECT * FROM t ORDER BY zz").unwrap();
    assert!(matches!(t.query(&q), Err(CIndexError::InvalidQueryStatement(_))));
}

#[test]
fn query_offset_and_limit_slice() {
    let t = table_abc();
    let q = Parser::new().parse("SELECT * FROM t OFFSET 1 LIMIT 1").unwrap();
    assert_eq!(t.query(&q).unwrap(), vec![1]);
}

#[test]
fn query_offset_beyond_length_is_empty() {
    let t = table_abc();
    let q = Parser::new().parse("SELECT * FROM t OFFSET 9").unwrap();
    assert_eq!(t.query(&q).unwrap(), Vec::<usize>::new());
}

#[test]
fn query_zero_limit_means_unbounded() {
    let t = table_abc();
    let q = Parser::new().parse("SELECT * FROM t OFFSET 1 LIMIT 0").unwrap();
    assert_eq!(t.query(&q).unwrap(), vec![1, 2]);
}

#[test]
fn query_builder_predicate_without_arguments_is_statement_error() {
    let t = table_abc();
    let q = Query::build()
        .table("t")
        .columns(strings(vec!["a"]))
        .predicate(Predicate::new("a", Operator::Equal));
    assert!(matches!(t.query(&q), Err(CIndexError::InvalidQueryStatement(_))));
}

#[test]
fn query_builder_between_with_one_argument_is_statement_error() {
    let t = table_abc();
    let q = Query::build().table("t").columns(strings(vec!["a"])).predicate(
        Predicate::new("b", Operator::Between).args(strings(vec!["2"])),
    );
    assert!(matches!(t.query(&q), Err(CIndexError::InvalidQueryStatement(_))));
}

#[test]
fn query_builder_like_without_matcher_is_statement_error() {
    let t = table_abc();
    let q = Query::build().table("t").columns(strings(vec!["a"])).predicate(
        Predicate::new("b", Operator::Like).args(strings(vec!["^2"])),
    );
    assert!(matches!(t.query(&q), Err(CIndexError::InvalidQueryStatement(_))));
}

#[test]
fn query_builder_like_with_matcher_filters() {
    let t = table_abc();
    let q = Query::build().table("t").columns(strings(vec!["a"])).predicate(
        Predicate::new("b", Operator::Like)
            .args(strings(vec!["^2"]))
            .matcher("^2")
            .unwrap(),
    );
    assert_eq!(t.query(&q).unwrap(), vec![0]);
}

#[test]
fn predicate_raw_args_split_on_blanks() {
    let p = Predicate::new("a", Operator::In).raw_args("1 2 3");
    assert_eq!(p.arguments, strings(vec!["1", "2", "3"]));
}

#[test]
fn predicate_bad_matcher_is_statement_error() {
    let r = Predicate::new("a", Operator::Like).matcher("[");
    assert!(matches!(r, Err(CIndexError::InvalidQueryStatement(_))));
}
