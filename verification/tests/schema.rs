// The schema tokenizers for stored CREATE statements.

use litedb::error::Error;
use litedb::query::{CreateIdxQuery, CreateQuery, CreateTableQuery};

#[test]
fn create_table_columns_in_order() {
    let q = CreateTableQuery::from_sql(
        "CREATE TABLE apples (id integer primary key, name text, color text)",
    )
    .unwrap();
    assert_eq!(q.columns, vec!["id", "name", "color"]);
}

#[test]
fn create_table_quoted_and_multiline() {
    let q = CreateTableQuery::from_sql(
        "CREATE TABLE \"grapes\"\n(\n  \"id\" integer,\n  \"full name\" text,\n  size text\n)",
    )
    .unwrap();
    assert_eq!(q.columns, vec!["id", "full name", "size"]);
}

#[test]
fn create_table_without_parens_fails() {
    let r = CreateTableQuery::from_sql("CREATE TABLE broken");
    assert_eq!(r, Err(Error::BadSchemaSql));
}

#[test]
fn create_index_parts() {
    let q =
        CreateIdxQuery::from_sql("CREATE INDEX idx_companies_country on companies (country)")
            .unwrap();
    assert_eq!(q.idx_name, "idx_companies_country");
    assert_eq!(q.table_name, "companies");
    assert_eq!(q.columns, vec!["country"]);
}

#[test]
fn create_index_uppercase_on() {
    let q = CreateIdxQuery::from_sql("CREATE INDEX i ON t (a, b)").unwrap();
    assert_eq!(q.idx_name, "i");
    assert_eq!(q.table_name, "t");
    assert_eq!(q.columns, vec!["a", "b"]);
}

#[test]
fn create_query_dispatch() {
    match CreateQuery::from_sql("CREATE TABLE t (a text)").unwrap() {
        CreateQuery::CreateTable(q) => assert_eq!(q.columns, vec!["a"]),
        _ => panic!("expected a table statement"),
    }
    match CreateQuery::from_sql("CREATE INDEX i on t (a)").unwrap() {
        CreateQuery::CreateIdx(q) => assert_eq!(q.idx_name, "i"),
        _ => panic!("expected an index statement"),
    }
    assert_eq!(CreateQuery::from_sql("DROP TABLE t"), Err(Error::BadSchemaSql));
}
