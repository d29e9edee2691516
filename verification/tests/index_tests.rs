use cindex::{CIndexError, Indexer, Parser, Table};

fn strings(v: Vec<&str>) -> Vec<String> {
    v.into_iter().map(|s| s.to_string()).collect()
}

fn matrix(v: Vec<Vec<&str>>) -> Vec<Vec<String>> {
    v.into_iter().map(strings).collect()
}

fn indexer_with(name: &str, headers: Vec<&str>, rows: Vec<Vec<&str>>) -> Indexer {
    let table = Table::new(strings(headers), vec![], matrix(rows)).unwrap();
    let mut ix = Indexer::new();
    ix.add_table(name, table);
    ix
}

#[test]
fn round_trip_select_star_without_header() {
    let ix = indexer_with(
        "t",
        vec!["a", "b", "c"],
        vec![vec!["1", "2", "3"], vec!["4", "5", "6"]],
    );
    let q = Parser::new().parse("SELECT * FROM t").unwrap();
    let records = ix.index_get_records(q).unwrap();
    assert_eq!(records, matrix(vec![vec!["1", "2", "3"], vec!["4", "5", "6"]]));
}

#[test]
fn round_trip_select_star_with_header_flag() {
    let ix = indexer_with(
        "t",
        vec!["a", "b", "c"],
        vec![vec!["1", "2", "3"], vec!["4", "5", "6"]],
    );
    let q = Parser::new().parse("SELECT * FROM t FLAG PHD").unwrap();
    let records = ix.index_get_records(q).unwrap();
    assert_eq!(
        records,
        matrix(vec![
            vec!["a", "b", "c"],
            vec!["1", "2", "3"],
            vec!["4", "5", "6"],
        ])
    );
}

#[test]
fn round_trip_rendered_lines() {
    let ix = indexer_with(
        "t",
        vec!["a", "b", "c"],
        vec![vec!["1", "2", "3"], vec!["4", "5", "6"]],
    );
    let q = Parser::new().parse("SELECT * FROM t").unwrap();
    let records = ix.index_get_records(q).unwrap();
    let text = cindex::format_records(&records, "\n");
    assert_eq!(text, "1,2,3\n4,5,6\n");
}

#[test]
fn supplement_columns_and_rename_map() {
    let ix = indexer_with("t1", vec!["a", "b", "c"], vec![vec!["1", "2", "3"]]);
    let q = Parser::new()
        .parse("SELECT a,b,d,e FROM t1 HMAP first,second,third,fourth WHERE a = 1 FLAG PHD SUP")
        .unwrap();
    let records = ix.index_get_records(q).unwrap();
    assert_eq!(
        records,
        matrix(vec![
            vec!["first", "second", "third", "fourth"],
            vec!["1", "2", "", ""],
        ])
    );
}

#[test]
fn order_desc_offset_with_header() {
    let ix = indexer_with("t", vec!["a"], vec![vec!["3"], vec!["1"], vec!["2"]]);
    let q = Parser::new()
        .parse("SELECT * FROM t ORDER BY a DESC OFFSET 1 FLAG PHD")
        .unwrap();
    let records = ix.index_get_records(q).unwrap();
    assert_eq!(records, matrix(vec![vec!["a"], vec!["2"], vec!["1"]]));
}

#[test]
fn mismatched_rename_map_length_is_statement_error() {
    let ix = indexer_with("t", vec!["a", "b", "c", "d"], vec![
        vec!["1", "2", "3", "4"],
    ]);
    let q = Parser::new()
        .parse("SELECT a,b,c,d FROM t HMAP one,two,three FLAG PHD")
        .unwrap();
    let r = ix.index_get_records(q);
    assert!(matches!(r, Err(CIndexError::InvalidQueryStatement(_))));
}

#[test]
fn missing_projected_column_without_sup_is_column_error() {
    let ix = indexer_with("t", vec!["a"], vec![vec!["1"]]);
    let q = Parser::new().parse("SELECT zz FROM t").unwrap();
    let r = ix.index_get_records(q);
    assert!(matches!(r, Err(CIndexError::InvalidColumn(_))));
}

#[test]
fn missing_where_column_reported_before_projection() {
    let ix = indexer_with("t", vec!["a"], vec![vec!["1"]]);
    let q = Parser::new().parse("SELECT zz FROM t WHERE yy = 0").unwrap();
    let r = ix.index_get_records(q);
    assert!(matches!(r, Err(CIndexError::InvalidColumn(_))));
}

#[test]
fn unknown_table_is_table_name_error() {
    let ix = Indexer::new();
    let q = Parser::new().parse("SELECT * FROM ghost").unwrap();
    let r = ix.index_get_records(q);
    assert!(matches!(r, Err(CIndexError::InvalidTableName(_))));
}

#[test]
fn transpose_flag_swaps_axes() {
    let ix = indexer_with(
        "t",
        vec!["a", "b", "c"],
        vec![vec!["1", "2", "3"], vec!["4", "5", "6"]],
    );
    let q = Parser::new().parse("SELECT * FROM t FLAG TP").unwrap();
    let records = ix.index_get_records(q).unwrap();
    assert_eq!(
        records,
        matrix(vec![vec!["1", "4"], vec!["2", "5"], vec!["3", "6"]])
    );
}

#[test]
fn transpose_includes_header_when_phd_set() {
    let ix = indexer_with("t", vec!["a", "b", "c"], vec![vec!["1", "2", "3"]]);
    let q = Parser::new().parse("SELECT * FROM t FLAG PHD TP").unwrap();
    let records = ix.index_get_records(q).unwrap();
    assert_eq!(
        records,
        matrix(vec![vec!["a", "1"], vec!["b", "2"], vec!["c", "3"]])
    );
}

#[test]
fn transpose_twice_returns_original() {
    let ix = Indexer::new();
    let m = matrix(vec![vec!["1", "2", "3"], vec!["4", "5", "6"]]);
    let once = ix.tranpose_records(m.clone());
    assert_eq!(once.len(), 3);
    assert_eq!(once[0].len(), 2);
    let twice = ix.tranpose_records(once);
    assert_eq!(twice, m);
}

#[test]
fn wildcard_with_supplement_appends_blank_columns() {
    let ix = indexer_with("t", vec!["a", "b"], vec![vec!["1", "2"]]);
    let q = Parser::new().parse("SELECT *,zz FROM t FLAG SUP").unwrap();
    let records = ix.index_get_records(q).unwrap();
    assert_eq!(records, matrix(vec![vec!["1", "2", ""]]));
}

#[test]
fn contains_add_and_drop_table() {
    let mut ix = indexer_with("t", vec!["a"], vec![vec!["1"]]);
    assert!(ix.contains_table("t"));
    assert!(!ix.contains_table("u"));
    let other = Table::new(strings(vec!["x"]), vec![], matrix(vec![vec!["9"]])).unwrap();
    ix.add_table("u", other);
    assert!(ix.contains_table("u"));
    ix.drop_table("t");
    assert!(!ix.contains_table("t"));
    assert!(ix.contains_table("u"));
}

#[test]
fn replacing_a_table_keeps_one_entry() {
    let mut ix = indexer_with("t", vec!["a"], vec![vec!["1"]]);
    let other = Table::new(strings(vec!["a"]), vec![], matrix(vec![vec!["7"]])).unwrap();
    ix.add_table("t", other);
    let q = Parser::new().parse("SELECT * FROM t").unwrap();
    let records = ix.index_get_records(q).unwrap();
    assert_eq!(records, matrix(vec![vec!["7"]]));
}

#[test]
fn unix_newline_toggle() {
    let mut ix = Indexer::new();
    assert_eq!(ix.get_newline("\r\n"), "\r\n");
    ix.always_use_unix_newline(true);
    assert_eq!(ix.get_newline("\r\n"), "\n");
}

#[test]
fn filtering_twice_gives_same_rows() {
    let ix = indexer_with(
        "t",
        vec!["a", "b"],
        vec![vec!["1", "x"], vec!["2", "y"], vec!["1", "z"]],
    );
    let q1 = Parser::new().parse("SELECT * FROM t WHERE a = 1").unwrap();
    let first = ix.index_get_records(q1).unwrap();
    let again = Table::new(strings(vec!["a", "b"]), vec![], first.clone()).unwrap();
    let mut ix2 = Indexer::new();
    ix2.add_table("t", again);
    let q2 = Parser::new().parse("SELECT * FROM t WHERE a = 1").unwrap();
    let second = ix2.index_get_records(q2).unwrap();
    assert_eq!(second, first);
}

#[test]
fn transpose_of_empty_result_is_empty() {
    let ix = indexer_with("t", vec!["a"], vec![]);
    let q = Parser::new().parse("SELECT * FROM t FLAG TP").unwrap();
    let records = ix.index_get_records(q).unwrap();
    assert_eq!(records, Vec::<Vec<String>>::new());
}
