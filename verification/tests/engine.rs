// Scenario tests over hand-assembled database file images.

use litedb::db::Db;
use litedb::error::Error;
use litedb::page::{ColumnType, Page};
use litedb::query::SelectQuery;
use litedb::util::{encode_varint, get_content_size_type};

const PAGE_SIZE: usize = 4096;

fn varint(v: i64) -> Vec<u8> {
    assert!(v >= 0);
    encode_varint(v)
}

fn text(s: &str) -> (i64, Vec<u8>) {
    (13 + 2 * s.len() as i64, s.as_bytes().to_vec())
}

fn int8(v: i8) -> (i64, Vec<u8>) {
    (1, vec![v as u8])
}

fn null() -> (i64, Vec<u8>) {
    (0, vec![])
}

fn record(vals: &[(i64, Vec<u8>)]) -> Vec<u8> {
    let mut types: Vec<u8> = Vec::new();
    for (t, _) in vals {
        types.extend(varint(*t));
    }
    let hsize = types.len() + 1;
    assert!(hsize < 128);
    let mut r = vec![hsize as u8];
    r.extend(types);
    for (_, b) in vals {
        r.extend(b.clone());
    }
    r
}

fn leaf_table_cell(rowid: i64, rec: &[(i64, Vec<u8>)]) -> Vec<u8> {
    let r = record(rec);
    let mut c = varint(r.len() as i64);
    c.extend(varint(rowid));
    c.extend(r);
    c
}

fn interior_table_cell(child: u32, rowid: i64) -> Vec<u8> {
    let mut c = child.to_be_bytes().to_vec();
    c.extend(varint(rowid));
    c
}

fn leaf_index_cell(key: &str, rowid: i8) -> Vec<u8> {
    let r = record(&[text(key), int8(rowid)]);
    let mut c = varint(r.len() as i64);
    c.extend(r);
    c
}

fn interior_index_cell(child: u32, key: &str, rowid: i8) -> Vec<u8> {
    let r = record(&[text(key), int8(rowid)]);
    let mut c = child.to_be_bytes().to_vec();
    c.extend(varint(r.len() as i64));
    c.extend(r);
    c
}

fn page(hdr_off: usize, typ: u8, rightmost: Option<u32>, cells: &[Vec<u8>]) -> Vec<u8> {
    let mut pg = vec![0u8; PAGE_SIZE];
    let hdr_len = if typ == 0x05 || typ == 0x02 { 12 } else { 8 };
    pg[hdr_off] = typ;
    let n = cells.len() as u16;
    pg[hdr_off + 3] = (n >> 8) as u8;
    pg[hdr_off + 4] = (n & 0xff) as u8;
    if let Some(rp) = rightmost {
        pg[hdr_off + 8..hdr_off + 12].copy_from_slice(&rp.to_be_bytes());
    }
    let mut content = PAGE_SIZE;
    let mut ptrs: Vec<u16> = Vec::new();
    for cell in cells {
        content -= cell.len();
        pg[content..content + cell.len()].copy_from_slice(cell);
        ptrs.push(content as u16);
    }
    let mut po = hdr_off + hdr_len;
    for p in &ptrs {
        pg[po] = (p >> 8) as u8;
        pg[po + 1] = (p & 0xff) as u8;
        po += 2;
    }
    pg
}

fn schema_row(rowid: i64, typ: &str, name: &str, tbl: &str, root: i8, sql: &str) -> Vec<u8> {
    leaf_table_cell(rowid, &[text(typ), text(name), text(tbl), int8(root), text(sql)])
}

fn assemble(pages: Vec<Vec<u8>>) -> Vec<u8> {
    let mut f: Vec<u8> = Vec::new();
    for p in pages {
        assert_eq!(p.len(), PAGE_SIZE);
        f.extend(p);
    }
    f[16] = (PAGE_SIZE >> 8) as u8;
    f[17] = (PAGE_SIZE & 0xff) as u8;
    // slack so that nine-byte varint windows near the last page's end stay readable
    f.extend(vec![0u8; 16]);
    f
}

fn select(table: &str, cols: &[&str], wc: Option<&str>, wv: Option<&str>) -> SelectQuery {
    SelectQuery {
        table_name: table.to_string(),
        columns: cols.iter().map(|c| c.to_string()).collect(),
        where_column: wc.map(|c| c.to_string()),
        where_value: wv.map(|v| v.to_string()),
    }
}

fn fruit_db() -> Vec<u8> {
    let p1 = page(
        100,
        0x0d,
        None,
        &[
            schema_row(
                1,
                "table",
                "apples",
                "apples",
                2,
                "CREATE TABLE apples (id integer primary key, name text, color text)",
            ),
            schema_row(
                2,
                "table",
                "oranges",
                "oranges",
                3,
                "CREATE TABLE oranges (id integer primary key, name text, description text)",
            ),
            schema_row(
                3,
                "table",
                "sqlite_sequence",
                "sqlite_sequence",
                4,
                "CREATE TABLE sqlite_sequence(name,seq)",
            ),
        ],
    );
    let p2 = page(
        0,
        0x0d,
        None,
        &[
            leaf_table_cell(1, &[null(), text("Granny Smith"), text("Light Green")]),
            leaf_table_cell(2, &[null(), text("Fuji"), text("Red")]),
            leaf_table_cell(3, &[null(), text("Honeycrisp"), text("Yellow")]),
            leaf_table_cell(4, &[null(), text("Golden Delicious"), text("Yellow")]),
        ],
    );
    let p3 = page(0, 0x0d, None, &[]);
    let p4 = page(0, 0x0d, None, &[]);
    assemble(vec![p1, p2, p3, p4])
}

fn companies_db() -> Vec<u8> {
    let p1 = page(
        100,
        0x0d,
        None,
        &[
            schema_row(
                1,
                "table",
                "companies",
                "companies",
                2,
                "CREATE TABLE companies (id integer primary key, name text, country text)",
            ),
            schema_row(
                2,
                "index",
                "idx_companies_country",
                "companies",
                3,
                "CREATE INDEX idx_companies_country on companies (country)",
            ),
        ],
    );
    let p2 = page(
        0,
        0x0d,
        None,
        &[
            leaf_table_cell(1, &[null(), text("Berlin AG"), text("germany")]),
            leaf_table_cell(2, &[null(), text("Gobi Corp"), text("mongolia")]),
            leaf_table_cell(3, &[null(), text("Vilnius UAB"), text("lithuania")]),
            leaf_table_cell(4, &[null(), text("Steppe Ltd"), text("mongolia")]),
            leaf_table_cell(5, &[null(), text("Wien GmbH"), text("austria")]),
            leaf_table_cell(6, &[null(), text("Lusaka Co"), text("zambia")]),
        ],
    );
    let p3 = page(
        0,
        0x02,
        Some(5),
        &[interior_index_cell(4, "lithuania", 3)],
    );
    let p4 = page(
        0,
        0x0a,
        None,
        &[leaf_index_cell("austria", 5), leaf_index_cell("germany", 1)],
    );
    let p5 = page(
        0,
        0x0a,
        None,
        &[
            leaf_index_cell("mongolia", 2),
            leaf_index_cell("mongolia", 4),
            leaf_index_cell("zambia", 6),
        ],
    );
    assemble(vec![p1, p2, p3, p4, p5])
}

fn pears_db() -> Vec<u8> {
    // a table whose root is an interior page: one keyed child, then the
    // rightmost child
    let p1 = page(
        100,
        0x0d,
        None,
        &[schema_row(
            1,
            "table",
            "pears",
            "pears",
            2,
            "CREATE TABLE pears (id integer primary key, name text)",
        )],
    );
    let p2 = page(0, 0x05, Some(4), &[interior_table_cell(3, 2)]);
    let p3 = page(
        0,
        0x0d,
        None,
        &[
            leaf_table_cell(1, &[null(), text("Bosc")]),
            leaf_table_cell(2, &[null(), text("Anjou")]),
        ],
    );
    let p4 = page(
        0,
        0x0d,
        None,
        &[
            leaf_table_cell(3, &[null(), text("Comice")]),
            leaf_table_cell(4, &[null(), text("Seckel")]),
        ],
    );
    assemble(vec![p1, p2, p3, p4])
}

#[test]
fn dbinfo_page_size_and_cells() {
    let db = Db::new(fruit_db()).unwrap();
    assert_eq!(db.header.page_size, 4096);
    assert_eq!(db.num_cells, 3);
}

#[test]
fn tables_sorted_names() {
    let db = Db::new(fruit_db()).unwrap();
    let names = db.table_names();
    assert_eq!(names, vec!["apples", "oranges", "sqlite_sequence"]);
    let line: Vec<String> = names.into_iter().filter(|n| n != "sqlite_sequence").collect();
    let mut out = String::new();
    for n in &line {
        out.push_str(n);
        out.push(' ');
    }
    assert_eq!(out, "apples oranges ");
}

#[test]
fn count_apples() {
    let db = Db::new(fruit_db()).unwrap();
    assert_eq!(db.count_rows("apples").unwrap(), 4);
}

#[test]
fn count_empty_table_is_zero() {
    let db = Db::new(fruit_db()).unwrap();
    assert_eq!(db.count_rows("sqlite_sequence").unwrap(), 0);
}

#[test]
fn select_where_two_matches() {
    let db = Db::new(fruit_db()).unwrap();
    let rows = db
        .execute_select(select("apples", &["name", "color"], Some("color"), Some("Yellow")))
        .unwrap();
    assert_eq!(
        rows,
        vec![
            vec!["Honeycrisp".to_string(), "Yellow".to_string()],
            vec!["Golden Delicious".to_string(), "Yellow".to_string()],
        ]
    );
}

#[test]
fn null_primary_key_projects_as_rowid() {
    let db = Db::new(fruit_db()).unwrap();
    let rows = db.execute_select(select("apples", &["id", "name"], None, None)).unwrap();
    assert_eq!(rows[0], vec!["1".to_string(), "Granny Smith".to_string()]);
    assert_eq!(rows[3], vec!["4".to_string(), "Golden Delicious".to_string()]);
}

#[test]
fn select_where_value_absent_returns_no_rows() {
    let db = Db::new(fruit_db()).unwrap();
    let rows = db
        .execute_select(select("apples", &["name"], Some("color"), Some("Purple")))
        .unwrap();
    assert!(rows.is_empty());
}

#[test]
fn select_unknown_table() {
    let db = Db::new(fruit_db()).unwrap();
    let r = db.execute_select(select("kiwis", &["name"], None, None));
    assert_eq!(r, Err(Error::UnknownTable));
}

#[test]
fn select_unknown_column() {
    let db = Db::new(fruit_db()).unwrap();
    let r = db.execute_select(select("apples", &["taste"], None, None));
    assert_eq!(r, Err(Error::UnknownColumn));
}

#[test]
fn interior_root_only_rightmost_child_traverses() {
    // depth-two tree; also an interior page whose cell list still leads to
    // the rightmost child last
    let db = Db::new(pears_db()).unwrap();
    assert_eq!(db.count_rows("pears").unwrap(), 4);
    let rows = db.execute_select(select("pears", &["id", "name"], None, None)).unwrap();
    assert_eq!(
        rows,
        vec![
            vec!["1".to_string(), "Bosc".to_string()],
            vec!["2".to_string(), "Anjou".to_string()],
            vec!["3".to_string(), "Comice".to_string()],
            vec!["4".to_string(), "Seckel".to_string()],
        ]
    );
}

#[test]
fn get_row_point_lookup() {
    let db = Db::new(pears_db()).unwrap();
    let root = db.get_page(PAGE_SIZE as u64, None).unwrap();
    let info_pos = db.table_infos.iter().position(|(n, _)| n == "pears").unwrap();
    let info = &db.table_infos[info_pos].1;
    let q = select("pears", &["name"], None, None);
    let row = db.get_row(&root, 3, info, &q).unwrap();
    assert_eq!(row, vec!["Comice".to_string()]);
    let missing = db.get_row(&root, 9, info, &q).unwrap();
    assert!(missing.is_empty());
}

#[test]
fn index_lookup_rowids() {
    let db = Db::new(companies_db()).unwrap();
    let ids = db.query_idx("companies", &"mongolia".to_string()).unwrap().unwrap();
    assert_eq!(ids, vec![2, 4]);
}

#[test]
fn index_lookup_key_in_interior_cell() {
    let db = Db::new(companies_db()).unwrap();
    let ids = db.query_idx("companies", &"lithuania".to_string()).unwrap().unwrap();
    assert_eq!(ids, vec![3]);
}

#[test]
fn select_with_index_plan() {
    let db = Db::new(companies_db()).unwrap();
    let rows = db
        .execute_select(select(
            "companies",
            &["id", "name", "country"],
            Some("country"),
            Some("mongolia"),
        ))
        .unwrap();
    assert_eq!(
        rows,
        vec![
            vec!["2".to_string(), "Gobi Corp".to_string(), "mongolia".to_string()],
            vec!["4".to_string(), "Steppe Ltd".to_string(), "mongolia".to_string()],
        ]
    );
}

#[test]
fn repeated_read_page_is_equal() {
    let db = Db::new(fruit_db()).unwrap();
    let a = db.get_page(PAGE_SIZE as u64, None).unwrap();
    let b = db.get_page(PAGE_SIZE as u64, None).unwrap();
    assert_eq!(a, b);
    match a {
        Page::LeafTable(p) => assert_eq!(p.cells.len(), 4),
        _ => panic!("expected a leaf table page"),
    }
}

#[test]
fn short_file_is_short_read() {
    let r = Db::new(vec![0u8; 50]);
    assert_eq!(r.err(), Some(Error::ShortRead(0)));
}

#[test]
fn bad_page_type_byte() {
    let mut f = fruit_db();
    f[100] = 0x07;
    let r = Db::new(f);
    assert_eq!(r.err(), Some(Error::CorruptPageType(0x07)));
}

#[test]
fn cell_pointer_before_header_end() {
    // corrupt the first cell pointer of the apples page to land inside its
    // own page header
    let mut f = fruit_db();
    let ptr_pos = PAGE_SIZE + 8;
    f[ptr_pos] = 0;
    f[ptr_pos + 1] = 4;
    let db = Db::new(f).unwrap();
    let r = db.count_rows("apples");
    assert_eq!(r, Err(Error::CorruptPageHeader));
}

#[test]
fn invalid_utf8_text_column() {
    let mut f = fruit_db();
    // the last two bytes of the apples page hold "Light Green"'s tail;
    // find the body of "Red" instead: corrupt a known text byte of Fuji's
    // color by scanning for it
    let pos = (PAGE_SIZE..2 * PAGE_SIZE).find(|&i| &f[i..i + 3] == b"Red").unwrap();
    f[pos] = 0xFF;
    let db = Db::new(f).unwrap();
    let r = db.count_rows("apples");
    assert_eq!(r, Err(Error::BadUtf8));
}

#[test]
fn unknown_serial_type() {
    let p1 = page(
        100,
        0x0d,
        None,
        &[schema_row(
            1,
            "table",
            "t",
            "t",
            2,
            "CREATE TABLE t (a text)",
        )],
    );
    // record with serial type 4 (out of scope)
    let p2 = page(0, 0x0d, None, &[leaf_table_cell(1, &[(4, vec![0, 0, 0, 1])])]);
    let f = assemble(vec![p1, p2]);
    let db = Db::new(f).unwrap();
    let r = db.count_rows("t");
    assert_eq!(r, Err(Error::UnknownSerialType(4)));
}

#[test]
fn missing_schema_column() {
    let p1 = page(
        100,
        0x0d,
        None,
        &[leaf_table_cell(1, &[text("table"), text("t"), text("t")])],
    );
    let f = assemble(vec![p1]);
    let r = Db::new(f);
    assert_eq!(r.err(), Some(Error::MissingSchemaColumn));
}

#[test]
fn bad_schema_sql() {
    let p1 = page(
        100,
        0x0d,
        None,
        &[schema_row(1, "table", "t", "t", 2, "DROP TABLE t")],
    );
    let f = assemble(vec![p1]);
    let r = Db::new(f);
    assert_eq!(r.err(), Some(Error::BadSchemaSql));
}

#[test]
fn root_page_zero_is_negative_page_index() {
    let p1 = page(
        100,
        0x0d,
        None,
        &[schema_row(1, "table", "t", "t", 0, "CREATE TABLE t (a text)")],
    );
    let f = assemble(vec![p1]);
    let db = Db::new(f).unwrap();
    let r = db.count_rows("t");
    assert_eq!(r, Err(Error::NegativePageIndex));
}

#[test]
fn integer_index_key_is_unsupported() {
    let p1 = page(
        100,
        0x0d,
        None,
        &[
            schema_row(1, "table", "t", "t", 2, "CREATE TABLE t (a text)"),
            schema_row(2, "index", "i", "t", 3, "CREATE INDEX i on t (a)"),
        ],
    );
    let p2 = page(0, 0x0d, None, &[]);
    // an index leaf whose key column is an integer
    let r = record(&[int8(7), int8(1)]);
    let mut cell = varint(r.len() as i64);
    cell.extend(r);
    let p3 = page(0, 0x0a, None, &[cell]);
    let f = assemble(vec![p1, p2, p3]);
    let db = Db::new(f).unwrap();
    let r = db.query_idx("t", &"x".to_string());
    assert_eq!(r, Err(Error::UnsupportedKeyType));
}

#[test]
fn index_root_of_table_kind_is_corrupt() {
    let p1 = page(
        100,
        0x0d,
        None,
        &[
            schema_row(1, "table", "t", "t", 2, "CREATE TABLE t (a text)"),
            // the index row names the table's root page
            schema_row(2, "index", "i", "t", 2, "CREATE INDEX i on t (a)"),
        ],
    );
    let p2 = page(0, 0x0d, None, &[]);
    let f = assemble(vec![p1, p2]);
    let db = Db::new(f).unwrap();
    let r = db.query_idx("t", &"x".to_string());
    assert_eq!(r, Err(Error::CorruptIndex));
}

#[test]
fn empty_index_page_is_corrupt() {
    let p1 = page(
        100,
        0x0d,
        None,
        &[
            schema_row(1, "table", "t", "t", 2, "CREATE TABLE t (a text)"),
            schema_row(2, "index", "i", "t", 3, "CREATE INDEX i on t (a)"),
        ],
    );
    let p2 = page(0, 0x0d, None, &[]);
    let p3 = page(0, 0x0a, None, &[]);
    let f = assemble(vec![p1, p2, p3]);
    let db = Db::new(f).unwrap();
    let r = db.query_idx("t", &"x".to_string());
    assert_eq!(r, Err(Error::CorruptIndex));
}

#[test]
fn last_index_wins_per_table() {
    let p1 = page(
        100,
        0x0d,
        None,
        &[
            schema_row(1, "table", "t", "t", 2, "CREATE TABLE t (a text, b text)"),
            schema_row(2, "index", "i1", "t", 3, "CREATE INDEX i1 on t (a)"),
            schema_row(3, "index", "i2", "t", 4, "CREATE INDEX i2 on t (b)"),
        ],
    );
    let p2 = page(0, 0x0d, None, &[]);
    let p3 = page(0, 0x0a, None, &[]);
    let p4 = page(0, 0x0a, None, &[]);
    let f = assemble(vec![p1, p2, p3, p4]);
    let db = Db::new(f).unwrap();
    assert_eq!(db.idx_infos.len(), 1);
    assert_eq!(db.idx_infos[0].1.idx_name, "i2");
    assert_eq!(db.idx_infos[0].1.root_page_num, 4);
}

fn i16be(v: i16) -> (i64, Vec<u8>) {
    (2, v.to_be_bytes().to_vec())
}

fn i24be(v: i32) -> (i64, Vec<u8>) {
    (3, v.to_be_bytes()[1..4].to_vec())
}

fn zero() -> (i64, Vec<u8>) {
    (8, vec![])
}

fn one() -> (i64, Vec<u8>) {
    (9, vec![])
}

#[test]
fn integer_widths_and_sentinels_render() {
    let p1 = page(
        100,
        0x0d,
        None,
        &[schema_row(
            1,
            "table",
            "nums",
            "nums",
            2,
            "CREATE TABLE nums (a int, b int, c int, d int, e int, f int)",
        )],
    );
    let p2 = page(
        0,
        0x0d,
        None,
        &[leaf_table_cell(
            1,
            &[i16be(512), i16be(-200), i24be(65776), i24be(-65536), zero(), one()],
        )],
    );
    let f = assemble(vec![p1, p2]);
    let db = Db::new(f).unwrap();
    let rows = db
        .execute_select(select("nums", &["a", "b", "c", "d", "e", "f"], None, None))
        .unwrap();
    assert_eq!(
        rows,
        vec![vec![
            "512".to_string(),
            "-200".to_string(),
            "65776".to_string(),
            "-65536".to_string(),
            "0".to_string(),
            "1".to_string(),
        ]]
    );
}

#[test]
fn negative_one_byte_integer_renders() {
    let p1 = page(
        100,
        0x0d,
        None,
        &[schema_row(1, "table", "t", "t", 2, "CREATE TABLE t (a int)")],
    );
    let p2 = page(0, 0x0d, None, &[leaf_table_cell(1, &[int8(-128)])]);
    let f = assemble(vec![p1, p2]);
    let db = Db::new(f).unwrap();
    let rows = db.execute_select(select("t", &["a"], None, None)).unwrap();
    assert_eq!(rows, vec![vec!["-128".to_string()]]);
}

#[test]
fn catalog_is_sorted_by_name() {
    let p1 = page(
        100,
        0x0d,
        None,
        &[
            schema_row(1, "table", "zebra", "zebra", 2, "CREATE TABLE zebra (a text)"),
            schema_row(2, "table", "apples", "apples", 3, "CREATE TABLE apples (a text)"),
        ],
    );
    let p2 = page(0, 0x0d, None, &[]);
    let p3 = page(0, 0x0d, None, &[]);
    let f = assemble(vec![p1, p2, p3]);
    let db = Db::new(f).unwrap();
    assert_eq!(db.table_names(), vec!["apples", "zebra"]);
}

#[test]
fn serial_type_table() {
    assert_eq!(get_content_size_type(0), Ok((0, ColumnType::Null)));
    assert_eq!(get_content_size_type(1), Ok((1, ColumnType::I8)));
    assert_eq!(get_content_size_type(2), Ok((2, ColumnType::I16)));
    assert_eq!(get_content_size_type(3), Ok((3, ColumnType::I24)));
    assert_eq!(get_content_size_type(8), Ok((0, ColumnType::Zero)));
    assert_eq!(get_content_size_type(9), Ok((0, ColumnType::One)));
    assert_eq!(get_content_size_type(13), Ok((0, ColumnType::Str)));
    assert_eq!(get_content_size_type(25), Ok((6, ColumnType::Str)));
    assert_eq!(get_content_size_type(4), Err(Error::UnknownSerialType(4)));
    assert_eq!(get_content_size_type(12), Err(Error::UnknownSerialType(12)));
}

#[test]
fn interior_cell_child_zero_rejected_by_decoder() {
    // like the pears tree, but the interior root's cell names child page 0
    let p1 = page(
        100,
        0x0d,
        None,
        &[schema_row(1, "table", "t", "t", 2, "CREATE TABLE t (id integer primary key)")],
    );
    let p2 = page(0, 0x05, Some(3), &[interior_table_cell(0, 2)]);
    let p3 = page(0, 0x0d, None, &[]);
    let f = assemble(vec![p1, p2, p3]);
    let db = Db::new(f).unwrap();
    // the page decoder itself refuses the cell
    let r = db.get_page(PAGE_SIZE as u64, None);
    assert_eq!(r.err(), Some(Error::NegativePageIndex));
    assert_eq!(db.count_rows("t"), Err(Error::NegativePageIndex));
}

#[test]
fn index_interior_cell_child_zero_rejected_by_decoder() {
    let p1 = page(
        100,
        0x0d,
        None,
        &[
            schema_row(1, "table", "t", "t", 2, "CREATE TABLE t (a text)"),
            schema_row(2, "index", "i", "t", 3, "CREATE INDEX i on t (a)"),
        ],
    );
    let p2 = page(0, 0x0d, None, &[]);
    let p3 = page(0, 0x02, Some(4), &[interior_index_cell(0, "k", 1)]);
    let p4 = page(0, 0x0a, None, &[leaf_index_cell("k", 1)]);
    let f = assemble(vec![p1, p2, p3, p4]);
    let db = Db::new(f).unwrap();
    let r = db.query_idx("t", &"k".to_string());
    assert_eq!(r, Err(Error::NegativePageIndex));
}

#[test]
fn cell_pointer_inside_pointer_array() {
    // point the apples page's first cell pointer into its own pointer
    // array: past the 8-byte header but before the array's end at byte 16
    let mut f = fruit_db();
    let ptr_pos = PAGE_SIZE + 8;
    f[ptr_pos] = 0;
    f[ptr_pos + 1] = 10;
    let db = Db::new(f).unwrap();
    let r = db.count_rows("apples");
    assert_eq!(r, Err(Error::CorruptPageHeader));
}
