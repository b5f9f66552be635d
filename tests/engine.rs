use queryer::csv::{load_csv, LoadError};
use queryer::engine::{detect_format, run, translate, DataSet, Format, QueryError};
use queryer::expr::ExecError;
use queryer::json::load_json;
use queryer::query::Selection;
use queryer::sql::SqlError;
use queryer::table::Table;
use queryer::value::{copy_value, Value};

const SCORES: &str = "id,name,score\n1,a,10\n2,b,30\n3,c,20\n";

fn chars(s: &str) -> Vec<char> {
    s.chars().collect()
}

fn text(s: &str) -> Value {
    Value::Text(chars(s))
}

fn ask(sql: &str, data: &str) -> Result<DataSet, QueryError> {
    let q = translate(sql)?;
    run(&q, data)
}

fn rows(d: &DataSet) -> &Vec<Vec<Value>> {
    &d.0.rows
}

fn names(t: &Table) -> Vec<String> {
    t.names.iter().map(|n| n.iter().collect()).collect()
}

#[test]
fn csv_scenario_filter_sort_project() {
    let d = ask(
        "SELECT name, score FROM scores.csv WHERE score > 10 ORDER BY score DESC",
        SCORES,
    )
    .unwrap();
    assert_eq!(names(&d.0), vec!["name", "score"]);
    assert_eq!(
        rows(&d),
        &vec![vec![text("b"), Value::Int(30)], vec![text("c"), Value::Int(20)]]
    );
    assert_eq!(d.to_csv(), "name,score\nb,30\nc,20\n");
}

#[test]
fn json_scenario_missing_key_is_null() {
    let data = r#"[{"a":1},{"a":2,"b":"x"}]"#;
    let t = load_json(&chars(data)).unwrap();
    assert_eq!(names(&t), vec!["a", "b"]);
    assert_eq!(t.rows[0][1], Value::Null);
    let d = ask("SELECT b FROM data.json", data).unwrap();
    assert_eq!(rows(&d), &vec![vec![Value::Null], vec![text("x")]]);
}

#[test]
fn source_is_from_text_verbatim() {
    let q = translate("SELECT a FROM https://example.com/data.csv?x=1&y=2 WHERE a = 1").unwrap();
    let s: String = q.source.iter().collect();
    assert_eq!(s, "https://example.com/data.csv?x=1&y=2");
    let q = translate("select * from ./local/file.json;").unwrap();
    let s: String = q.source.iter().collect();
    assert_eq!(s, "./local/file.json");
}

#[test]
fn select_star_keeps_all_columns_in_order() {
    let q = translate("SELECT * FROM scores.csv").unwrap();
    assert!(matches!(q.selection, Selection::All));
    let d = run(&q, SCORES).unwrap();
    assert_eq!(names(&d.0), vec!["id", "name", "score"]);
    assert_eq!(rows(&d).len(), 3);
    assert_eq!(rows(&d)[0], vec![Value::Int(1), text("a"), Value::Int(10)]);
}

#[test]
fn filter_absent_value_gives_no_rows() {
    let d = ask("SELECT * FROM s.csv WHERE score = 99", SCORES).unwrap();
    assert_eq!(rows(&d).len(), 0);
    let d = ask("SELECT * FROM s.csv WHERE name = 'zz'", SCORES).unwrap();
    assert_eq!(rows(&d).len(), 0);
}

#[test]
fn filter_present_value_gives_its_row() {
    for v in ["10", "30", "20"] {
        let d = ask(&format!("SELECT score FROM s.csv WHERE score = {}", v), SCORES).unwrap();
        assert_eq!(rows(&d).len(), 1);
        assert_eq!(rows(&d)[0][0], Value::Int(v.parse().unwrap()));
    }
}

#[test]
fn sort_is_stable_on_equal_keys() {
    let data = "k,tag\n2,first\n1,x\n2,second\n1,y\n2,third\n";
    let d = ask("SELECT tag FROM t.csv ORDER BY k", data).unwrap();
    let tags: Vec<Value> = rows(&d).iter().map(|r| copy_value(&r[0])).collect();
    assert_eq!(
        tags,
        vec![text("x"), text("y"), text("first"), text("second"), text("third")]
    );
    let d = ask("SELECT tag FROM t.csv ORDER BY k DESC", data).unwrap();
    let tags: Vec<Value> = rows(&d).iter().map(|r| copy_value(&r[0])).collect();
    assert_eq!(
        tags,
        vec![text("first"), text("second"), text("third"), text("x"), text("y")]
    );
}

#[test]
fn offset_limit_counts() {
    let data = "n\n1\n2\n3\n4\n5\n";
    let count = |sql: &str| rows(&ask(sql, data).unwrap()).len();
    assert_eq!(count("SELECT n FROM t.csv LIMIT 2 OFFSET 1"), 2);
    assert_eq!(count("SELECT n FROM t.csv LIMIT 10 OFFSET 3"), 2);
    assert_eq!(count("SELECT n FROM t.csv OFFSET 5"), 0);
    assert_eq!(count("SELECT n FROM t.csv OFFSET 9 LIMIT 1"), 0);
    assert_eq!(count("SELECT n FROM t.csv LIMIT 0"), 0);
    let d = ask("SELECT n FROM t.csv ORDER BY n DESC LIMIT 2 OFFSET 1", data).unwrap();
    assert_eq!(rows(&d), &vec![vec![Value::Int(4)], vec![Value::Int(3)]]);
}

#[test]
fn unknown_projected_column_fails() {
    let e = ask("SELECT nope FROM s.csv", SCORES).unwrap_err();
    assert_eq!(e, QueryError::Exec(ExecError::UnknownColumn));
    let e = ask("SELECT nope FROM s.csv WHERE nope = 1", SCORES).unwrap_err();
    assert_eq!(e, QueryError::Exec(ExecError::UnknownColumn));
    let e = ask("SELECT nope FROM s.csv ORDER BY nope", SCORES).unwrap_err();
    assert_eq!(e, QueryError::Exec(ExecError::UnknownColumn));
}

#[test]
fn type_mismatch_in_filter() {
    let e = ask("SELECT * FROM s.csv WHERE score = 'ten'", SCORES).unwrap_err();
    assert_eq!(e, QueryError::Exec(ExecError::TypeMismatch));
}

#[test]
fn null_never_matches() {
    let data = "a,b\n1,\n2,5\n";
    let d = ask("SELECT a FROM t.csv WHERE b = 5 OR b != 5", data).unwrap();
    assert_eq!(rows(&d), &vec![vec![Value::Int(2)]]);
}

#[test]
fn boolean_logic_and_parentheses() {
    let d = ask(
        "SELECT id FROM s.csv WHERE NOT (score < 15) AND (name = 'b' OR name = 'c') ORDER BY id",
        SCORES,
    )
    .unwrap();
    assert_eq!(rows(&d), &vec![vec![Value::Int(2)], vec![Value::Int(3)]]);
}

#[test]
fn syntax_errors() {
    assert_eq!(translate("").unwrap_err(), QueryError::Sql(SqlError::SyntaxError));
    assert_eq!(
        translate("SELECT a FROM t; SELECT b FROM u").unwrap_err(),
        QueryError::Sql(SqlError::SyntaxError)
    );
    assert_eq!(translate("SELECT FROM t").unwrap_err(), QueryError::Sql(SqlError::SyntaxError));
    assert_eq!(
        translate("SELECT a FROM t LIMIT -1").unwrap_err(),
        QueryError::Sql(SqlError::SyntaxError)
    );
}

#[test]
fn unsupported_constructs() {
    let u = QueryError::Sql(SqlError::UnsupportedConstruct);
    assert_eq!(translate("SELECT count(a) FROM t").unwrap_err(), u);
    assert_eq!(translate("SELECT a FROM t JOIN u").unwrap_err(), u);
    assert_eq!(translate("SELECT a FROM t, u").unwrap_err(), u);
    assert_eq!(translate("SELECT a FROM t GROUP BY a").unwrap_err(), u);
    assert_eq!(translate("SELECT a FROM t WHERE a = (SELECT b FROM u)").unwrap_err(), u);
}

#[test]
fn csv_typing_and_load_errors() {
    let t = load_csv(&chars("a,b,c\n1,true,x\n-2,false,\"y,z\"\n")).unwrap();
    assert_eq!(t.rows[1], vec![Value::Int(-2), Value::Bool(false), text("y,z")]);
    assert_eq!(
        load_csv(&chars("a,b\n1,2\n3\n")).unwrap_err(),
        LoadError::ParseError(3)
    );
    assert_eq!(
        load_csv(&chars("a\n1\nx\n")).unwrap_err(),
        LoadError::ParseError(3)
    );
    assert_eq!(load_csv(&chars("a,a\n1,2\n")).unwrap_err(), LoadError::ParseError(1));
    assert!(load_csv(&chars("a\n\"open\n")).is_err());
}

#[test]
fn json_load_errors() {
    assert!(load_json(&chars("{\"a\":1}")).is_err());
    assert!(load_json(&chars("[{\"a\":1},{\"a\":\"x\"}]")).is_err());
    assert!(load_json(&chars("[{\"a\":1.5}]")).is_err());
    let t = load_json(&chars("[]")).unwrap();
    assert_eq!(t.rows.len(), 0);
}

#[test]
fn format_detection() {
    assert_eq!(detect_format(&chars("  [1]"), None), Format::Json);
    assert_eq!(detect_format(&chars("\n{\"a\":1}"), None), Format::Json);
    assert_eq!(detect_format(&chars("a,b\n"), None), Format::Csv);
    assert_eq!(detect_format(&chars(""), None), Format::Csv);
    assert_eq!(detect_format(&chars("[1]"), Some(Format::Csv)), Format::Csv);
}

#[test]
fn csv_output_quotes_and_nulls() {
    let data = "a,b\n\"x,\"\"q\"\"\",\n-7,true\n";
    let t = load_csv(&chars(data)).unwrap();
    assert_eq!(t.rows[0][0], text("x,\"q\""));
    let d = ask("SELECT * FROM t.csv", "a,b\n\"x,\"\"q\"\"\",1\nplain,\n").unwrap();
    assert_eq!(d.to_csv(), "a,b\n\"x,\"\"q\"\"\",1\nplain,\n");
    let d = ask("SELECT n FROM t.csv", "n\n-120\n0\n").unwrap();
    assert_eq!(d.to_csv(), "n\n-120\n0\n");
}

#[test]
fn text_literal_is_read_as_column_kind() {
    let d = ask("SELECT name FROM s.csv WHERE score = '30'", SCORES).unwrap();
    assert_eq!(rows(&d), &vec![vec![text("b")]]);
    let d = ask("SELECT id FROM s.csv WHERE score >= '20' ORDER BY id", SCORES).unwrap();
    assert_eq!(rows(&d), &vec![vec![Value::Int(2)], vec![Value::Int(3)]]);
    let data = "flag,n\ntrue,1\nfalse,2\n";
    let d = ask("SELECT n FROM t.csv WHERE flag = 'TRUE'", data).unwrap();
    assert_eq!(rows(&d), &vec![vec![Value::Int(1)]]);
    let e = ask("SELECT n FROM t.csv WHERE flag = 1", data).unwrap_err();
    assert_eq!(e, QueryError::Exec(ExecError::TypeMismatch));
}

#[test]
fn blank_lines_are_skipped() {
    let t = load_csv(&chars("a,b\n1,x\n\n2,y\n")).unwrap();
    assert_eq!(t.rows.len(), 2);
    assert_eq!(t.rows[1], vec![Value::Int(2), text("y")]);
}

#[test]
fn out_of_range_integer_is_text() {
    let t = load_csv(&chars("a\n99999999999999999999\n")).unwrap();
    assert_eq!(t.rows[0][0], text("99999999999999999999"));
}

#[test]
fn not_over_null_stays_false() {
    let data = "a,b\n1,\n2,5\n3,7\n";
    let d = ask("SELECT a FROM t.csv WHERE NOT b = 5", data).unwrap();
    assert_eq!(rows(&d), &vec![vec![Value::Int(3)]]);
}

#[test]
fn json_control_escapes() {
    let t = load_json(&chars(r#"[{"s":"a\bb\fc\/"}]"#)).unwrap();
    assert_eq!(t.rows[0][0], text("a\u{8}b\u{c}c/"));
}

#[test]
fn blank_text_is_syntax_error() {
    assert_eq!(translate("   \n").unwrap_err(), QueryError::Sql(SqlError::SyntaxError));
}

#[test]
fn least_i64_is_an_integer() {
    let t = load_csv(&chars("a\n-9223372036854775808\n9223372036854775807\n")).unwrap();
    assert_eq!(t.rows[0][0], Value::Int(i64::MIN));
    assert_eq!(t.rows[1][0], Value::Int(i64::MAX));
}

#[test]
fn filter_on_missing_column_fails_even_without_rows() {
    let e = ask("SELECT id FROM t.csv WHERE nope = 1", "id\n").unwrap_err();
    assert_eq!(e, QueryError::Exec(ExecError::UnknownColumn));
    let e = ask("SELECT id FROM s.csv WHERE id = 0 AND nope = 1", SCORES).unwrap_err();
    assert_eq!(e, QueryError::Exec(ExecError::UnknownColumn));
}

#[test]
fn declared_content_type_decides_format() {
    assert_eq!(queryer::engine::content_type_hint("application/json; charset=utf-8"), Some(Format::Json));
    assert_eq!(queryer::engine::content_type_hint("text/csv"), Some(Format::Csv));
    assert_eq!(queryer::engine::content_type_hint("text/html"), None);
    let q = translate("SELECT a FROM http://h/data").unwrap();
    let d = queryer::engine::run_with_hint(&q, "a\n1\n", Some(Format::Csv)).unwrap();
    assert_eq!(rows(&d), &vec![vec![Value::Int(1)]]);
}

#[test]
fn translation_fixes_every_clause() {
    let q = translate("select name, score from s.csv where score > 10 order by score desc, name limit 5 offset 2").unwrap();
    let src: String = q.source.iter().collect();
    assert_eq!(src, "s.csv");
    assert!(q.condition.is_some());
    assert_eq!(q.order_by.len(), 2);
    assert!(q.order_by[0].descending);
    assert!(!q.order_by[1].descending);
    assert_eq!(q.limit, Some(5));
    assert_eq!(q.offset, Some(2));
    let q = translate("SELECT a FROM t WHERE b = 'x from y'").unwrap();
    let src: String = q.source.iter().collect();
    assert_eq!(src, "t");
}
