//! The engine handle: the file image, the file header, and the two
//! name-keyed catalogs built from the schema table, plus the query
//! executor over them.

use crate::error::Error;
use crate::page::{
    read_page, spec_be16, spec_read_page, spec_result_view, Column, ColumnView, IdxInfo,
    IdxInfoView, LeafTableCell, LeafTableCellView, LeafTablePage, Page, PageView, TableInfo,
    TableInfoView,
};
use crate::query::{spec_create_query, CreateQuery, CreateQueryView, SelectQuery, SelectQueryView};
use crate::text::{
    chars_lt, i64_to_string, lemma_chars_lt_trichotomy, spec_chars_lt, spec_dec_i64, str_to_chars,
};
use vstd::string::StringExecFns;
use vstd::prelude::*;

verus! {

/// The consumed part of the file header: the page size at byte 16.
#[derive(Clone, Copy, Debug, PartialEq, Eq, Structural)]
pub struct DbHeader {
    pub page_size: u16,
}

/// An open engine: the immutable file image, the file header, the two
/// catalogs keyed by table name and sorted by it, and the cell count of the
/// schema page.
pub struct Db {
    data: Vec<u8>,
    pub header: DbHeader,
    pub table_infos: Vec<(String, TableInfo)>,
    pub idx_infos: Vec<(String, IdxInfo)>,
    pub num_cells: usize,
}

pub ghost struct DbView {
    pub data: Seq<u8>,
    pub page_size: u16,
    pub tables: Seq<(Seq<char>, TableInfoView)>,
    pub idxs: Seq<(Seq<char>, IdxInfoView)>,
    pub num_cells: int,
}

/// The element-wise view of a table catalog.
pub open spec fn table_assoc_view(v: Seq<(String, TableInfo)>) -> Seq<(Seq<char>, TableInfoView)> {
    Seq::new(v.len(), |i: int| (v[i].0@, v[i].1@))
}

/// The element-wise view of an index catalog.
pub open spec fn idx_assoc_view(v: Seq<(String, IdxInfo)>) -> Seq<(Seq<char>, IdxInfoView)> {
    Seq::new(v.len(), |i: int| (v[i].0@, v[i].1@))
}

impl View for Db {
    type V = DbView;

    closed spec fn view(&self) -> DbView {
        DbView {
            data: self.data@,
            page_size: self.header.page_size,
            tables: table_assoc_view(self.table_infos@),
            idxs: idx_assoc_view(self.idx_infos@),
            num_cells: self.num_cells as int,
        }
    }
}

// ------------------------------------------------------------------
// The catalogs: sorted association lists
// ------------------------------------------------------------------
/// Insert into an association list sorted by key, replacing an entry whose
/// key is equal: the semantics of an ordered map's insert.
pub open spec fn spec_assoc_insert<T>(
    s: Seq<(Seq<char>, T)>,
    key: Seq<char>,
    val: T,
) -> Seq<(Seq<char>, T)>
    decreases s.len(),
{
    if s.len() == 0 {
        seq![(key, val)]
    } else if key == s[0].0 {
        seq![(key, val)] + s.drop_first()
    } else if spec_chars_lt(key, s[0].0) {
        seq![(key, val)] + s
    } else {
        seq![s[0]] + spec_assoc_insert(s.drop_first(), key, val)
    }
}

/// The value at `key`, if the list holds the key.
pub open spec fn spec_assoc_lookup<T>(s: Seq<(Seq<char>, T)>, key: Seq<char>) -> Option<T>
    decreases s.len(),
{
    if s.len() == 0 {
        None
    } else if s[0].0 == key {
        Some(s[0].1)
    } else {
        spec_assoc_lookup(s.drop_first(), key)
    }
}

pub proof fn lemma_chars_lt_irrefl(a: Seq<char>)
    ensures
        !spec_chars_lt(a, a),
    decreases a.len(),
{
    if a.len() > 0 {
        lemma_chars_lt_irrefl(a.drop_first());
    }
}

pub proof fn lemma_chars_lt_asym(a: Seq<char>, b: Seq<char>)
    ensures
        spec_chars_lt(a, b) ==> !spec_chars_lt(b, a),
    decreases a.len(),
{
    if a.len() > 0 && b.len() > 0 {
        if a[0] == b[0] {
            lemma_chars_lt_asym(a.drop_first(), b.drop_first());
        }
    }
}

proof fn lemma_assoc_insert_pos<T>(s: Seq<(Seq<char>, T)>, key: Seq<char>, val: T, pos: int)
    requires
        0 <= pos <= s.len(),
        forall|j: int| 0 <= j < pos ==> spec_chars_lt(#[trigger] s[j].0, key),
        pos < s.len() ==> !spec_chars_lt(s[pos].0, key),
    ensures
        pos < s.len() && s[pos].0 == key ==> spec_assoc_insert(s, key, val) =~= s.take(pos) + seq![
            (key, val),
        ] + s.skip(pos + 1),
        !(pos < s.len() && s[pos].0 == key) ==> spec_assoc_insert(s, key, val) =~= s.take(pos)
            + seq![(key, val)] + s.skip(pos),
    decreases pos,
{
    if pos == 0 {
        if s.len() > 0 {
            lemma_chars_lt_trichotomy(key, s[0].0);
            if s[0].0 == key {
                assert(spec_assoc_insert(s, key, val) == seq![(key, val)] + s.drop_first());
                assert(s.drop_first() =~= s.skip(1));
            } else {
                assert(spec_chars_lt(key, s[0].0));
                assert(spec_assoc_insert(s, key, val) == seq![(key, val)] + s);
                assert(s.skip(0) =~= s);
            }
        }
    } else {
        lemma_chars_lt_irrefl(key);
        assert(spec_chars_lt(s[0].0, key));
        assert(s[0].0 != key);
        lemma_chars_lt_asym(s[0].0, key);
        assert(!spec_chars_lt(key, s[0].0));
        let d = s.drop_first();
        assert(forall|j: int| 0 <= j < pos - 1 ==> spec_chars_lt(#[trigger] d[j].0, key));
        lemma_assoc_insert_pos(d, key, val, pos - 1);
        assert(spec_assoc_insert(s, key, val) == seq![s[0]] + spec_assoc_insert(d, key, val));
        assert(d.take(pos - 1) =~= s.take(pos).drop_first());
        if pos < s.len() && s[pos].0 == key {
            assert(d.skip(pos) =~= s.skip(pos + 1));
        } else {
            assert(d.skip(pos - 1) =~= s.skip(pos));
        }
    }
}

/// Keys strictly ascending across the association list.
pub open spec fn spec_assoc_sorted<T>(s: Seq<(Seq<char>, T)>) -> bool {
    forall|i: int, j: int|
        0 <= i < j < s.len() ==> spec_chars_lt((#[trigger] s[i]).0, (#[trigger] s[j]).0)
}

proof fn lemma_assoc_insert_members<T>(s: Seq<(Seq<char>, T)>, key: Seq<char>, val: T)
    ensures
        forall|m: int|
            0 <= m < spec_assoc_insert(s, key, val).len() ==> (#[trigger] spec_assoc_insert(
                s,
                key,
                val,
            )[m]) == (key, val) || s.contains(spec_assoc_insert(s, key, val)[m]),
    decreases s.len(),
{
    let r = spec_assoc_insert(s, key, val);
    if s.len() == 0 {
    } else if key == s[0].0 || spec_chars_lt(key, s[0].0) {
        assert forall|m: int| 0 <= m < r.len() implies (#[trigger] r[m]) == (key, val)
            || s.contains(r[m]) by {
            if m >= 1 {
                if key == s[0].0 {
                    assert(r[m] == s.drop_first()[m - 1]);
                    assert(r[m] == s[m]);
                } else {
                    assert(r[m] == s[m - 1]);
                }
            }
        }
    } else {
        let d = s.drop_first();
        lemma_assoc_insert_members(d, key, val);
        assert forall|m: int| 0 <= m < r.len() implies (#[trigger] r[m]) == (key, val)
            || s.contains(r[m]) by {
            if m == 0 {
                assert(r[0] == s[0]);
            } else {
                assert(r[m] == spec_assoc_insert(d, key, val)[m - 1]);
                if r[m] != (key, val) {
                    assert(d.contains(r[m]));
                    let j = choose|j: int| 0 <= j < d.len() && d[j] == r[m];
                    assert(s[j + 1] == r[m]);
                }
            }
        }
    }
}

proof fn lemma_assoc_insert_sorted<T>(s: Seq<(Seq<char>, T)>, key: Seq<char>, val: T)
    requires
        spec_assoc_sorted(s),
    ensures
        spec_assoc_sorted(spec_assoc_insert(s, key, val)),
    decreases s.len(),
{
    let r = spec_assoc_insert(s, key, val);
    if s.len() == 0 {
    } else if key == s[0].0 {
        assert forall|i: int, j: int| 0 <= i < j < r.len() implies spec_chars_lt(
            (#[trigger] r[i]).0,
            (#[trigger] r[j]).0,
        ) by {
            assert(r[j] == s[j]);
            if i > 0 {
                assert(r[i] == s[i]);
            }
        }
    } else if spec_chars_lt(key, s[0].0) {
        assert forall|i: int, j: int| 0 <= i < j < r.len() implies spec_chars_lt(
            (#[trigger] r[i]).0,
            (#[trigger] r[j]).0,
        ) by {
            assert(r[j] == s[j - 1]);
            if i > 0 {
                assert(r[i] == s[i - 1]);
            } else {
                if j - 1 > 0 {
                    crate::text::lemma_chars_lt_trans(key, s[0].0, s[j - 1].0);
                }
            }
        }
    } else {
        let d = s.drop_first();
        lemma_chars_lt_trichotomy(key, s[0].0);
        assert(spec_chars_lt(s[0].0, key));
        lemma_assoc_insert_sorted(d, key, val);
        lemma_assoc_insert_members(d, key, val);
        let rd = spec_assoc_insert(d, key, val);
        assert forall|i: int, j: int| 0 <= i < j < r.len() implies spec_chars_lt(
            (#[trigger] r[i]).0,
            (#[trigger] r[j]).0,
        ) by {
            if i == 0 {
                assert(r[0] == s[0]);
                assert(r[j] == rd[j - 1]);
                if rd[j - 1] == (key, val) {
                } else {
                    assert(d.contains(rd[j - 1]));
                    let m = choose|m: int| 0 <= m < d.len() && d[m] == rd[j - 1];
                    assert(s[m + 1] == rd[j - 1]);
                }
            } else {
                assert(r[i] == rd[i - 1] && r[j] == rd[j - 1]);
            }
        }
    }
}

proof fn lemma_catalog_from_sorted(
    cells: Seq<LeafTableCellView>,
    i: int,
    tables: Seq<(Seq<char>, TableInfoView)>,
    idxs: Seq<(Seq<char>, IdxInfoView)>,
)
    requires
        spec_assoc_sorted(tables),
        spec_assoc_sorted(idxs),
    ensures
        spec_catalog_from(cells, i, tables, idxs) matches Ok(p) ==> spec_assoc_sorted(p.0)
            && spec_assoc_sorted(p.1),
    decreases cells.len() - i,
{
    if i < cells.len() {
        match spec_schema_entry(cells[i]) {
            Ok((name, root, sql)) => {
                match spec_create_query(sql) {
                    Ok(CreateQueryView::CreateTable(cols)) => {
                        lemma_assoc_insert_sorted(
                            tables,
                            name,
                            TableInfoView { root_page_num: root, columns: cols },
                        );
                        lemma_catalog_from_sorted(
                            cells,
                            i + 1,
                            spec_assoc_insert(
                                tables,
                                name,
                                TableInfoView { root_page_num: root, columns: cols },
                            ),
                            idxs,
                        );
                    },
                    Ok(CreateQueryView::CreateIdx(q)) => {
                        lemma_assoc_insert_sorted(
                            idxs,
                            name,
                            IdxInfoView {
                                root_page_num: root,
                                idx_name: q.idx_name,
                                columns: q.columns,
                            },
                        );
                        lemma_catalog_from_sorted(
                            cells,
                            i + 1,
                            tables,
                            spec_assoc_insert(
                                idxs,
                                name,
                                IdxInfoView {
                                    root_page_num: root,
                                    idx_name: q.idx_name,
                                    columns: q.columns,
                                },
                            ),
                        );
                    },
                    Err(_) => {},
                }
            },
            Err(_) => {},
        }
    }
}

/// The catalogs of an opened engine list their tables strictly sorted by
/// name: the iteration order of an ordered map, which `table_names`
/// reproduces.
pub proof fn lemma_open_catalog_sorted(data: Seq<u8>)
    ensures
        spec_open(data) matches Ok(dv) ==> spec_assoc_sorted(dv.tables) && spec_assoc_sorted(
            dv.idxs,
        ),
{
    if data.len() >= 100 {
        let page_size = spec_be16(data, 16);
        match spec_read_page(data, 0, 100, page_size as int) {
            Ok(PageView::LeafTable(p)) => {
                lemma_catalog_from_sorted(p.cells, 0, Seq::empty(), Seq::empty());
            },
            _ => {},
        }
    }
}

fn insert_table_info(infos: &mut Vec<(String, TableInfo)>, name: String, info: TableInfo)
    ensures
        table_assoc_view(final(infos)@) == spec_assoc_insert(
            table_assoc_view(old(infos)@),
            name@,
            info@,
        ),
{
    let name_chars = str_to_chars(name.as_str());
    let mut pos: usize = 0;
    loop
        invariant
            pos <= infos@.len(),
            name_chars@ == name@,
            forall|j: int| 0 <= j < pos ==> spec_chars_lt(
                #[trigger] table_assoc_view(infos@)[j].0,
                name@,
            ),
        ensures
            pos <= infos@.len(),
            forall|j: int| 0 <= j < pos ==> spec_chars_lt(
                #[trigger] table_assoc_view(infos@)[j].0,
                name@,
            ),
            pos < infos@.len() ==> !spec_chars_lt(table_assoc_view(infos@)[pos as int].0, name@),
        decreases infos@.len() - pos,
    {
        if pos >= infos.len() {
            break ;
        }
        let entry_chars = str_to_chars(infos[pos].0.as_str());
        if !chars_lt(&entry_chars, &name_chars) {
            break ;
        }
        pos = pos + 1;
    }
    let ghost pre = table_assoc_view(infos@);
    proof {
        lemma_assoc_insert_pos(pre, name@, info@, pos as int);
    }
    if pos < infos.len() && string_eq(&infos[pos].0, &name) {
        let _ = infos.remove(pos);
        infos.insert(pos, (name, info));
        proof {
            assert(table_assoc_view(infos@) =~= pre.take(pos as int) + seq![(name@, info@)]
                + pre.skip(pos as int + 1));
        }
    } else {
        infos.insert(pos, (name, info));
        proof {
            assert(table_assoc_view(infos@) =~= pre.take(pos as int) + seq![(name@, info@)]
                + pre.skip(pos as int));
        }
    }
}

fn insert_idx_info(infos: &mut Vec<(String, IdxInfo)>, name: String, info: IdxInfo)
    ensures
        idx_assoc_view(final(infos)@) == spec_assoc_insert(
            idx_assoc_view(old(infos)@),
            name@,
            info@,
        ),
{
    let name_chars = str_to_chars(name.as_str());
    let mut pos: usize = 0;
    loop
        invariant
            pos <= infos@.len(),
            name_chars@ == name@,
            forall|j: int| 0 <= j < pos ==> spec_chars_lt(
                #[trigger] idx_assoc_view(infos@)[j].0,
                name@,
            ),
        ensures
            pos <= infos@.len(),
            forall|j: int| 0 <= j < pos ==> spec_chars_lt(
                #[trigger] idx_assoc_view(infos@)[j].0,
                name@,
            ),
            pos < infos@.len() ==> !spec_chars_lt(idx_assoc_view(infos@)[pos as int].0, name@),
        decreases infos@.len() - pos,
    {
        if pos >= infos.len() {
            break ;
        }
        let entry_chars = str_to_chars(infos[pos].0.as_str());
        if !chars_lt(&entry_chars, &name_chars) {
            break ;
        }
        pos = pos + 1;
    }
    let ghost pre = idx_assoc_view(infos@);
    proof {
        lemma_assoc_insert_pos(pre, name@, info@, pos as int);
    }
    if pos < infos.len() && string_eq(&infos[pos].0, &name) {
        let _ = infos.remove(pos);
        infos.insert(pos, (name, info));
        proof {
            assert(idx_assoc_view(infos@) =~= pre.take(pos as int) + seq![(name@, info@)]
                + pre.skip(pos as int + 1));
        }
    } else {
        infos.insert(pos, (name, info));
        proof {
            assert(idx_assoc_view(infos@) =~= pre.take(pos as int) + seq![(name@, info@)]
                + pre.skip(pos as int));
        }
    }
}

/// String equality, meaning equality of the character sequences.
fn string_eq(a: &String, b: &String) -> (r: bool)
    ensures
        r == (a@ == b@),
{
    *a == *b
}

// ------------------------------------------------------------------
// Schema rows
// ------------------------------------------------------------------
/// The root page number a schema row's third column holds: a non-negative
/// stored integer of width one, two or three bytes.
pub open spec fn spec_root_of(col: ColumnView) -> Result<u32, Error> {
    match col {
        ColumnView::I8(v) => if v >= 0 {
            Ok(v as u32)
        } else {
            Err(Error::MissingSchemaColumn)
        },
        ColumnView::I16(v) => if v >= 0 {
            Ok(v as u32)
        } else {
            Err(Error::MissingSchemaColumn)
        },
        ColumnView::I24(v) => if v >= 0 {
            Ok(v as u32)
        } else {
            Err(Error::MissingSchemaColumn)
        },
        _ => Err(Error::MissingSchemaColumn),
    }
}

/// What the catalog needs of one schema row: the name in column 2 (the
/// table's name, also for index rows), the root page in column 3, and the
/// stored SQL in column 4.
pub open spec fn spec_schema_entry(cell: LeafTableCellView) -> Result<
    (Seq<char>, u32, Seq<char>),
    Error,
> {
    if cell.columns.len() <= 4 {
        Err(Error::MissingSchemaColumn)
    } else {
        match cell.columns[2] {
            ColumnView::Str(name) => match spec_root_of(cell.columns[3]) {
                Err(e) => Err(e),
                Ok(root) => match cell.columns[4] {
                    ColumnView::Str(sql) => Ok((name, root, sql)),
                    _ => Err(Error::MissingSchemaColumn),
                },
            },
            _ => Err(Error::MissingSchemaColumn),
        }
    }
}

fn schema_entry(cell: &LeafTableCell) -> (r: Result<(String, u32, String), Error>)
    ensures
        spec_schema_entry(cell@) matches Ok(t) ==> r matches Ok(q) && q.0@ == t.0 && q.1 == t.1
            && q.2@ == t.2,
        spec_schema_entry(cell@) matches Err(e) ==> r == Err::<(String, u32, String), Error>(e),
{
    proof {
        assert(forall|i: int| 0 <= i < cell.record_body.columns@.len()
            ==> cell@.columns[i] == #[trigger] cell.record_body.columns@[i]@);
    }
    if cell.record_body.columns.len() <= 4 {
        return Err(Error::MissingSchemaColumn);
    }
    let name: String = match &cell.record_body.columns[2] {
        Column::Str(s) => s.clone(),
        _ => {
            return Err(Error::MissingSchemaColumn);
        },
    };
    let root: u32 = match &cell.record_body.columns[3] {
        Column::I8(v) => {
            if *v >= 0 {
                *v as u32
            } else {
                return Err(Error::MissingSchemaColumn);
            }
        },
        Column::I16(v) => {
            if *v >= 0 {
                *v as u32
            } else {
                return Err(Error::MissingSchemaColumn);
            }
        },
        Column::I24(v) => {
            if *v >= 0 {
                *v as u32
            } else {
                return Err(Error::MissingSchemaColumn);
            }
        },
        _ => {
            return Err(Error::MissingSchemaColumn);
        },
    };
    let sql: String = match &cell.record_body.columns[4] {
        Column::Str(s) => s.clone(),
        _ => {
            return Err(Error::MissingSchemaColumn);
        },
    };
    Ok((name, root, sql))
}

// ------------------------------------------------------------------
// Opening the engine
// ------------------------------------------------------------------
/// Build the two catalogs from the schema rows `i..`, carrying the
/// catalogs built so far.
pub open spec fn spec_catalog_from(
    cells: Seq<LeafTableCellView>,
    i: int,
    tables: Seq<(Seq<char>, TableInfoView)>,
    idxs: Seq<(Seq<char>, IdxInfoView)>,
) -> Result<(Seq<(Seq<char>, TableInfoView)>, Seq<(Seq<char>, IdxInfoView)>), Error>
    decreases cells.len() - i,
{
    if i >= cells.len() {
        Ok((tables, idxs))
    } else {
        match spec_schema_entry(cells[i]) {
            Err(e) => Err(e),
            Ok((name, root, sql)) => match spec_create_query(sql) {
                Err(e) => Err(e),
                Ok(CreateQueryView::CreateTable(cols)) => spec_catalog_from(
                    cells,
                    i + 1,
                    spec_assoc_insert(
                        tables,
                        name,
                        TableInfoView { root_page_num: root, columns: cols },
                    ),
                    idxs,
                ),
                Ok(CreateQueryView::CreateIdx(q)) => spec_catalog_from(
                    cells,
                    i + 1,
                    tables,
                    spec_assoc_insert(
                        idxs,
                        name,
                        IdxInfoView {
                            root_page_num: root,
                            idx_name: q.idx_name,
                            columns: q.columns,
                        },
                    ),
                ),
            },
        }
    }
}

/// Open the engine over a file image: read the page size at byte 16,
/// decode the first page (whose header sits at byte 100) as the schema
/// table, and build the catalogs from its rows.
pub open spec fn spec_open(data: Seq<u8>) -> Result<DbView, Error> {
    if data.len() < 100 {
        Err(Error::ShortRead(0))
    } else {
        let page_size = spec_be16(data, 16);
        match spec_read_page(data, 0, 100, page_size as int) {
            Err(e) => Err(e),
            Ok(PageView::LeafTable(p)) => match spec_catalog_from(
                p.cells,
                0,
                Seq::empty(),
                Seq::empty(),
            ) {
                Err(e) => Err(e),
                Ok((tables, idxs)) => Ok(
                    DbView {
                        data,
                        page_size,
                        tables,
                        idxs,
                        num_cells: p.cells.len() as int,
                    },
                ),
            },
            Ok(_) => Err(Error::CorruptIndex),
        }
    }
}

/// The in-page offset of a page's header: 100 on the first page, else 0.
pub open spec fn spec_opt_off(o: Option<u64>) -> int {
    match o {
        Some(h) => h as int,
        None => 0,
    }
}

impl Db {
    /// Open the engine over a file image.
    #[verifier::loop_isolation(false)]
    pub fn new(data: Vec<u8>) -> (r: Result<Db, Error>)
        requires
            data@.len() < 0x8000000000000000,
        ensures
            spec_open(data@) matches Ok(dv) ==> r matches Ok(db) && db@ == dv,
            spec_open(data@) matches Err(e) ==> r matches Err(e2) && e2 == e,
    {
        if data.len() < 100 {
            return Err(Error::ShortRead(0));
        }
        let page_size: u16 = (data[16] as u16) * 256 + (data[17] as u16);
        let leaf: LeafTablePage = match read_page(data.as_slice(), 0, 100, page_size) {
            Ok(Page::LeafTable(p)) => p,
            Ok(_) => {
                return Err(Error::CorruptIndex);
            },
            Err(e) => {
                return Err(e);
            },
        };
        let mut table_infos: Vec<(String, TableInfo)> = Vec::new();
        let mut idx_infos: Vec<(String, IdxInfo)> = Vec::new();
        let mut i: usize = 0;
        proof {
            assert(table_assoc_view(table_infos@) =~= Seq::<(Seq<char>, TableInfoView)>::empty());
            assert(idx_assoc_view(idx_infos@) =~= Seq::<(Seq<char>, IdxInfoView)>::empty());
        }
        while i < leaf.cells.len()
            invariant
                i <= leaf.cells@.len(),
                leaf@.cells.len() == leaf.cells@.len(),
                spec_catalog_from(
                    leaf@.cells,
                    i as int,
                    table_assoc_view(table_infos@),
                    idx_assoc_view(idx_infos@),
                ) == spec_catalog_from(leaf@.cells, 0, Seq::empty(), Seq::empty()),
            decreases leaf.cells@.len() - i,
        {
            proof {
                assert(leaf@.cells[i as int] == leaf.cells@[i as int]@);
            }
            let (name, root, sql) = match schema_entry(&leaf.cells[i]) {
                Ok(t) => t,
                Err(e) => {
                    return Err(e);
                },
            };
            match CreateQuery::from_sql(sql.as_str()) {
                Ok(CreateQuery::CreateTable(q)) => {
                    let info = TableInfo { root_page_num: root, columns: q.columns };
                    insert_table_info(&mut table_infos, name, info);
                },
                Ok(CreateQuery::CreateIdx(q)) => {
                    let info = IdxInfo {
                        root_page_num: root,
                        idx_name: q.idx_name,
                        columns: q.columns,
                    };
                    insert_idx_info(&mut idx_infos, name, info);
                },
                Err(e) => {
                    return Err(e);
                },
            }
            i = i + 1;
        }
        let num_cells = leaf.cells.len();
        Ok(Db { data, header: DbHeader { page_size }, table_infos, idx_infos, num_cells })
    }

    /// Decode the page at `page_offset`; the header offset is 100 on the
    /// first page and absent elsewhere.
    pub fn get_page(&self, page_offset: u64, page_header_offset: Option<u64>) -> (r: Result<
        Page,
        Error,
    >)
        requires
            self@.data.len() < 0x8000000000000000,
            (page_offset as int) + spec_opt_off(page_header_offset) < 0x8000000000000000,
        ensures
            spec_result_view(r) == spec_read_page(
                self@.data,
                page_offset as int,
                spec_opt_off(page_header_offset),
                self@.page_size as int,
            ),
    {
        let hdr_off: u64 = match page_header_offset {
            Some(h) => h,
            None => 0,
        };
        read_page(self.data.as_slice(), page_offset, hdr_off, self.header.page_size)
    }
}

// ------------------------------------------------------------------
// Rendering and projection
// ------------------------------------------------------------------
/// How one decoded column prints: text as itself, integers in decimal, the
/// sentinels as their digit, and NULL as the cell's row id (the integer
/// primary key aliases to the row id when projected).
pub open spec fn spec_render_column(col: ColumnView, rowid: i64) -> Seq<char> {
    match col {
        ColumnView::Str(s) => s,
        ColumnView::I8(v) => spec_dec_i64(v as int),
        ColumnView::I16(v) => spec_dec_i64(v as int),
        ColumnView::I24(v) => spec_dec_i64(v as int),
        ColumnView::Zero => seq!['0'],
        ColumnView::One => seq!['1'],
        ColumnView::Null => spec_dec_i64(rowid as int),
    }
}

/// `row` with `value` written at every output position asking for `name`.
pub open spec fn spec_place(
    qcols: Seq<Seq<char>>,
    name: Seq<char>,
    value: Seq<char>,
    row: Seq<Seq<char>>,
) -> Seq<Seq<char>> {
    Seq::new(
        row.len(),
        |p: int|
            if 0 <= p < qcols.len() && qcols[p] == name {
                value
            } else {
                row[p]
            },
    )
}

/// Whether the WHERE clause names this column with this rendered value.
pub open spec fn spec_where_hit(q: SelectQueryView, name: Seq<char>, value: Seq<char>) -> bool {
    q.where_column == Some(name) && q.where_value == Some(value)
}

/// A row of `n` empty cells.
pub open spec fn spec_empty_row(n: nat) -> Seq<Seq<char>> {
    Seq::new(n, |p: int| Seq::<char>::empty())
}

/// Walk the table's columns `i..`, rendering each stored value, testing the
/// WHERE clause, and writing requested columns into the output row.  A
/// column the record does not hold is passed over.
pub open spec fn spec_project_from(
    cell_cols: Seq<ColumnView>,
    rowid: i64,
    tcols: Seq<Seq<char>>,
    q: SelectQueryView,
    i: int,
    row: Seq<Seq<char>>,
    write_row: bool,
) -> (Seq<Seq<char>>, bool)
    decreases tcols.len() - i,
{
    if i >= tcols.len() {
        (row, write_row)
    } else if i >= cell_cols.len() {
        spec_project_from(cell_cols, rowid, tcols, q, i + 1, row, write_row)
    } else {
        let value = spec_render_column(cell_cols[i], rowid);
        spec_project_from(
            cell_cols,
            rowid,
            tcols,
            q,
            i + 1,
            spec_place(q.columns, tcols[i], value, row),
            write_row || spec_where_hit(q, tcols[i], value),
        )
    }
}

/// The projected output row of one leaf cell, and whether the WHERE clause
/// admits it (a row with no WHERE clause is always admitted).
pub open spec fn spec_project_row(
    cell: LeafTableCellView,
    tcols: Seq<Seq<char>>,
    q: SelectQueryView,
) -> (Seq<Seq<char>>, bool) {
    spec_project_from(
        cell.columns,
        cell.rowid,
        tcols,
        q,
        0,
        spec_empty_row(q.columns.len()),
        q.where_column is None,
    )
}

proof fn lemma_project_from_keeps(
    cell_cols: Seq<ColumnView>,
    rowid: i64,
    tcols: Seq<Seq<char>>,
    q: SelectQueryView,
    j: int,
    row: Seq<Seq<char>>,
    w: bool,
    p: int,
)
    requires
        0 <= j <= tcols.len(),
        row.len() == q.columns.len(),
        0 <= p < q.columns.len(),
        forall|jj: int| j <= jj < tcols.len() ==> #[trigger] tcols[jj] != q.columns[p],
    ensures
        spec_project_from(cell_cols, rowid, tcols, q, j, row, w).0.len() == row.len(),
        spec_project_from(cell_cols, rowid, tcols, q, j, row, w).0[p] == row[p],
    decreases tcols.len() - j,
{
    if j < tcols.len() {
        if j >= cell_cols.len() {
            lemma_project_from_keeps(cell_cols, rowid, tcols, q, j + 1, row, w, p);
        } else {
            let value = spec_render_column(cell_cols[j], rowid);
            let row2 = spec_place(q.columns, tcols[j], value, row);
            assert(row2[p] == row[p]);
            lemma_project_from_keeps(
                cell_cols,
                rowid,
                tcols,
                q,
                j + 1,
                row2,
                w || spec_where_hit(q, tcols[j], value),
                p,
            );
        }
    }
}

proof fn lemma_project_from_null(
    cell_cols: Seq<ColumnView>,
    rowid: i64,
    tcols: Seq<Seq<char>>,
    q: SelectQueryView,
    j: int,
    row: Seq<Seq<char>>,
    w: bool,
    i: int,
    p: int,
)
    requires
        0 <= j <= i < tcols.len(),
        i < cell_cols.len(),
        cell_cols[i] is Null,
        row.len() == q.columns.len(),
        0 <= p < q.columns.len(),
        q.columns[p] == tcols[i],
        forall|jj: int| 0 <= jj < tcols.len() && jj != i ==> #[trigger] tcols[jj] != tcols[i],
    ensures
        spec_project_from(cell_cols, rowid, tcols, q, j, row, w).0.len() == row.len(),
        spec_project_from(cell_cols, rowid, tcols, q, j, row, w).0[p] == spec_dec_i64(
            rowid as int,
        ),
    decreases i - j,
{
    let value = spec_render_column(cell_cols[j], rowid);
    let row2 = spec_place(q.columns, tcols[j], value, row);
    let w2 = w || spec_where_hit(q, tcols[j], value);
    if j < i {
        lemma_project_from_null(cell_cols, rowid, tcols, q, j + 1, row2, w2, i, p);
    } else {
        assert(value == spec_dec_i64(rowid as int));
        assert(row2[p] == value);
        lemma_project_from_keeps(cell_cols, rowid, tcols, q, i + 1, row2, w2, p);
    }
}

/// The integer-primary-key aliasing, at the projection: when the table's
/// column `i` is requested at output position `p`, no other declared
/// column shares its name, and the stored value in column `i` is NULL, the
/// projected cell holds the cell's row id in decimal.
pub proof fn lemma_null_aliases_to_rowid(
    cell: LeafTableCellView,
    tcols: Seq<Seq<char>>,
    q: SelectQueryView,
    i: int,
    p: int,
)
    requires
        0 <= i < tcols.len(),
        0 <= i < cell.columns.len(),
        cell.columns[i] is Null,
        0 <= p < q.columns.len(),
        q.columns[p] == tcols[i],
        forall|j: int| 0 <= j < tcols.len() && j != i ==> #[trigger] tcols[j] != tcols[i],
    ensures
        spec_project_row(cell, tcols, q).0.len() == q.columns.len(),
        spec_project_row(cell, tcols, q).0[p] == spec_dec_i64(cell.rowid as int),
{
    lemma_project_from_null(
        cell.columns,
        cell.rowid,
        tcols,
        q,
        0,
        spec_empty_row(q.columns.len()),
        q.where_column is None,
        i,
        p,
    );
}

/// The admitted rows of the leaf cells `i..`, appended to `acc`, in cell order.
pub open spec fn spec_leaf_rows(
    cells: Seq<LeafTableCellView>,
    i: int,
    tcols: Seq<Seq<char>>,
    q: SelectQueryView,
    acc: Seq<Seq<Seq<char>>>,
) -> Seq<Seq<Seq<char>>>
    decreases cells.len() - i,
{
    if i >= cells.len() {
        acc
    } else {
        let rw = spec_project_row(cells[i], tcols, q);
        spec_leaf_rows(
            cells,
            i + 1,
            tcols,
            q,
            if rw.1 {
                acc.push(rw.0)
            } else {
                acc
            },
        )
    }
}

// ------------------------------------------------------------------
// The scan plan
// ------------------------------------------------------------------
/// The byte offset of a page, pages being numbered from 1.
pub open spec fn spec_page_off(page_num: u32, page_size: u16) -> int {
    (page_num - 1) * page_size
}

/// The depth budget for tree walks: a tree over N pages is at most N deep,
/// so a walk that would descend further has hit a cycle in a corrupt file.
pub open spec fn spec_fuel(data_len: int, page_size: u16) -> nat {
    if page_size == 0 {
        2
    } else {
        (data_len / (page_size as int) + 2) as nat
    }
}

/// Scan the table tree under `page_num` in cell order: the admitted
/// projected rows of every leaf cell beneath it.  A page of index kind
/// stops a scan that starts on it and is passed over elsewhere.
pub open spec fn spec_scan_page(
    data: Seq<u8>,
    page_size: u16,
    page_num: u32,
    q: SelectQueryView,
    tcols: Seq<Seq<char>>,
    fuel: nat,
    root: bool,
) -> Result<Seq<Seq<Seq<char>>>, Error>
    decreases fuel, 0nat, 0nat,
{
    if page_num == 0 {
        Err(Error::NegativePageIndex)
    } else {
        match spec_read_page(data, spec_page_off(page_num, page_size), 0, page_size as int) {
            Err(e) => Err(e),
            Ok(PageView::LeafTable(p)) => Ok(spec_leaf_rows(p.cells, 0, tcols, q, Seq::empty())),
            Ok(PageView::InteriorTable(p)) => if fuel == 0 {
                Err(Error::CorruptIndex)
            } else {
                match spec_scan_cells(
                    data,
                    page_size,
                    p.cells,
                    0,
                    q,
                    tcols,
                    (fuel - 1) as nat,
                    Seq::empty(),
                ) {
                    Err(e) => Err(e),
                    Ok(acc) => match p.page_header.rightmost_pointer {
                        Some(rp) => match spec_scan_page(
                            data,
                            page_size,
                            rp,
                            q,
                            tcols,
                            (fuel - 1) as nat,
                            false,
                        ) {
                            Err(e) => Err(e),
                            Ok(rrows) => Ok(acc + rrows),
                        },
                        None => Err(Error::CorruptPageHeader),
                    },
                }
            },
            Ok(_) => if root {
                Err(Error::CorruptIndex)
            } else {
                Ok(Seq::empty())
            },
        }
    }
}

/// Scan the subtrees under the interior cells `i..`, appending their rows
/// to `acc` in cell order.
pub open spec fn spec_scan_cells(
    data: Seq<u8>,
    page_size: u16,
    cells: Seq<crate::page::TableInteriorCell>,
    i: int,
    q: SelectQueryView,
    tcols: Seq<Seq<char>>,
    fuel: nat,
    acc: Seq<Seq<Seq<char>>>,
) -> Result<Seq<Seq<Seq<char>>>, Error>
    decreases fuel, 1nat, cells.len() - i,
{
    if i >= cells.len() {
        Ok(acc)
    } else {
        match spec_scan_page(data, page_size, cells[i].left_child_page_num, q, tcols, fuel, false) {
            Err(e) => Err(e),
            Ok(rows) => spec_scan_cells(data, page_size, cells, i + 1, q, tcols, fuel, acc + rows),
        }
    }
}

// ------------------------------------------------------------------
// The point lookup
// ------------------------------------------------------------------
/// The first index at or after `i` whose cell's row id is at least `rowid`,
/// or the cell count.
pub open spec fn spec_first_ge(
    cells: Seq<crate::page::TableInteriorCell>,
    i: int,
    rowid: i64,
) -> int
    decreases cells.len() - i,
{
    if i >= cells.len() {
        cells.len() as int
    } else if rowid <= cells[i].rowid {
        i
    } else {
        spec_first_ge(cells, i + 1, rowid)
    }
}

/// The projected row whose row id is exactly `rowid` in the leaf cells
/// `i..`, or an empty row list if no cell matches.
pub open spec fn spec_row_in_leaf(
    cells: Seq<LeafTableCellView>,
    i: int,
    rowid: i64,
    tcols: Seq<Seq<char>>,
    q: SelectQueryView,
) -> Seq<Seq<char>>
    decreases cells.len() - i,
{
    if i >= cells.len() {
        Seq::empty()
    } else if cells[i].rowid == rowid {
        spec_project_from(
            cells[i].columns,
            cells[i].rowid,
            tcols,
            q,
            0,
            spec_empty_row(q.columns.len()),
            true,
        ).0
    } else {
        spec_row_in_leaf(cells, i + 1, rowid, tcols, q)
    }
}

/// Point lookup of `rowid` beneath the decoded page: descend through the
/// first interior cell whose row id bound admits it, or the rightmost
/// child; on a leaf, project the matching cell's row.  An empty result
/// means the row id is absent.
pub open spec fn spec_get_row(
    data: Seq<u8>,
    page_size: u16,
    page: PageView,
    rowid: i64,
    tcols: Seq<Seq<char>>,
    q: SelectQueryView,
    fuel: nat,
) -> Result<Seq<Seq<char>>, Error>
    decreases fuel, 1nat,
{
    match page {
        PageView::LeafTable(p) => Ok(spec_row_in_leaf(p.cells, 0, rowid, tcols, q)),
        PageView::InteriorTable(p) => if p.cells.len() == 0 {
            Err(Error::CorruptIndex)
        } else {
            let last = p.cells[p.cells.len() - 1].rowid;
            if last >= rowid {
                let j = spec_first_ge(p.cells, 0, rowid);
                if j >= p.cells.len() {
                    Ok(Seq::empty())
                } else {
                    spec_descend(data, page_size, p.cells[j].left_child_page_num, rowid, tcols, q, fuel)
                }
            } else {
                match p.page_header.rightmost_pointer {
                    Some(rp) => spec_descend(data, page_size, rp, rowid, tcols, q, fuel),
                    None => Err(Error::CorruptPageHeader),
                }
            }
        },
        _ => Err(Error::CorruptIndex),
    }
}

/// Decode a child page and continue the point lookup in it.
pub open spec fn spec_descend(
    data: Seq<u8>,
    page_size: u16,
    page_num: u32,
    rowid: i64,
    tcols: Seq<Seq<char>>,
    q: SelectQueryView,
    fuel: nat,
) -> Result<Seq<Seq<char>>, Error>
    decreases fuel, 0nat,
{
    if page_num == 0 {
        Err(Error::NegativePageIndex)
    } else {
        match spec_read_page(data, spec_page_off(page_num, page_size), 0, page_size as int) {
            Err(e) => Err(e),
            Ok(child) => if fuel == 0 {
                Err(Error::CorruptIndex)
            } else {
                spec_get_row(data, page_size, child, rowid, tcols, q, (fuel - 1) as nat)
            },
        }
    }
}

// ------------------------------------------------------------------
// The index plan
// ------------------------------------------------------------------
/// The trailing row-id column of an index entry, which is stored as a small
/// signed integer.
pub open spec fn spec_idx_rowid(col: ColumnView) -> Result<i64, Error> {
    match col {
        ColumnView::I8(v) => Ok(v as i64),
        ColumnView::I16(v) => Ok(v as i64),
        ColumnView::I24(v) => Ok(v as i64),
        _ => Err(Error::CorruptIndex),
    }
}

/// An index key, which must be text.
pub open spec fn spec_idx_key(col: ColumnView) -> Result<Seq<char>, Error> {
    match col {
        ColumnView::Str(s) => Ok(s),
        _ => Err(Error::UnsupportedKeyType),
    }
}

/// The row ids of the leaf-index cells `i..` whose key equals `needle`,
/// appended to `acc` in cell order.
pub open spec fn spec_idx_leaf_matches(
    cells: Seq<crate::page::IdxLeafCellView>,
    i: int,
    needle: Seq<char>,
    acc: Seq<i64>,
) -> Result<Seq<i64>, Error>
    decreases cells.len() - i,
{
    if i >= cells.len() {
        Ok(acc)
    } else if cells[i].columns.len() != 2 {
        Err(Error::UnsupportedKeyType)
    } else {
        match spec_idx_key(cells[i].columns[0]) {
            Err(e) => Err(e),
            Ok(key) => if key == needle {
                match spec_idx_rowid(cells[i].columns[1]) {
                    Err(e) => Err(e),
                    Ok(rid) => spec_idx_leaf_matches(cells, i + 1, needle, acc.push(rid)),
                }
            } else {
                spec_idx_leaf_matches(cells, i + 1, needle, acc)
            },
        }
    }
}

/// Search the decoded index page for `needle`: on a leaf, the matching row
/// ids in cell order; on an interior page whose first-to-last key range
/// admits `needle`, each cell's own match followed by its left subtree's
/// matches; otherwise only the rightmost subtree's matches.
pub open spec fn spec_query_idx(
    data: Seq<u8>,
    page_size: u16,
    page: PageView,
    needle: Seq<char>,
    fuel: nat,
) -> Result<Seq<i64>, Error>
    decreases fuel, 2nat, 0nat,
{
    match page {
        PageView::LeafIndex(p) => if p.cells.len() == 0 || (p.cells.len() > 0
            && p.cells[0].columns.len() == 0) {
            Err(Error::CorruptIndex)
        } else if p.cells[0].columns.len() != 2 {
            Err(Error::UnsupportedKeyType)
        } else {
            spec_idx_leaf_matches(p.cells, 0, needle, Seq::empty())
        },
        PageView::InteriorIdx(p) => if p.cells.len() == 0 || (p.cells.len() > 0 && p.cells[0].columns.len()
            == 0) {
            Err(Error::CorruptIndex)
        } else if p.cells[0].columns.len() != 2 {
            Err(Error::UnsupportedKeyType)
        } else if p.cells[p.cells.len() - 1].columns.len() == 0 {
            Err(Error::CorruptIndex)
        } else {
            match spec_idx_key(p.cells[0].columns[0]) {
                Err(e) => Err(e),
                Ok(first_key) => match spec_idx_key(
                    p.cells[p.cells.len() - 1].columns[0],
                ) {
                    Err(e) => Err(e),
                    Ok(last_key) => if !spec_chars_lt(needle, first_key) && !spec_chars_lt(
                        last_key,
                        needle,
                    ) {
                        spec_idx_interior_matches(data, page_size, p.cells, 0, needle, fuel, Seq::empty())
                    } else {
                        match p.page_header.rightmost_pointer {
                            Some(rp) => spec_idx_descend(data, page_size, rp, needle, fuel),
                            None => Err(Error::CorruptPageHeader),
                        }
                    },
                },
            }
        },
        _ => Err(Error::CorruptIndex),
    }
}

/// The matches contributed by the interior-index cells `i..`: each cell's
/// own key match, then everything beneath its left child, in order.
pub open spec fn spec_idx_interior_matches(
    data: Seq<u8>,
    page_size: u16,
    cells: Seq<crate::page::IdxInteriorCellView>,
    i: int,
    needle: Seq<char>,
    fuel: nat,
    acc: Seq<i64>,
) -> Result<Seq<i64>, Error>
    decreases fuel, 1nat, cells.len() - i,
{
    if i >= cells.len() {
        Ok(acc)
    } else if cells[i].columns.len() != 2 {
        Err(Error::UnsupportedKeyType)
    } else {
        match spec_idx_key(cells[i].columns[0]) {
            Err(e) => Err(e),
            Ok(key) => {
                let with_own = if key == needle {
                    match spec_idx_rowid(cells[i].columns[1]) {
                        Err(e) => Err(e),
                        Ok(rid) => Ok(acc.push(rid)),
                    }
                } else {
                    Ok(acc)
                };
                match with_own {
                    Err(e) => Err(e),
                    Ok(acc2) => match spec_idx_descend(
                        data,
                        page_size,
                        cells[i].left_child_page_num,
                        needle,
                        fuel,
                    ) {
                        Err(e) => Err(e),
                        Ok(sub) => spec_idx_interior_matches(
                            data,
                            page_size,
                            cells,
                            i + 1,
                            needle,
                            fuel,
                            acc2 + sub,
                        ),
                    },
                }
            },
        }
    }
}

/// Decode a child page and continue the index search in it.
pub open spec fn spec_idx_descend(
    data: Seq<u8>,
    page_size: u16,
    page_num: u32,
    needle: Seq<char>,
    fuel: nat,
) -> Result<Seq<i64>, Error>
    decreases fuel, 0nat, 0nat,
{
    if page_num == 0 {
        Err(Error::NegativePageIndex)
    } else {
        match spec_read_page(data, spec_page_off(page_num, page_size), 0, page_size as int) {
            Err(e) => Err(e),
            Ok(child) => if fuel == 0 {
                Err(Error::CorruptIndex)
            } else {
                spec_query_idx(data, page_size, child, needle, (fuel - 1) as nat)
            },
        }
    }
}

/// Index/table agreement: when the table tree is well formed and holds a
/// traversed cell whose column at `pos` is the text `key` — as every entry
/// (key, row id) of a consistent index asserts of its table — then the
/// point lookup of that row id succeeds with that cell's projection, and
/// the indexed column renders back to `key`.
pub proof fn lemma_index_table_agreement(
    data: Seq<u8>,
    page_size: u16,
    page_num: u32,
    fuel: nat,
    lo: int,
    hi: int,
    c: LeafTableCellView,
    key: Seq<char>,
    pos: int,
    tcols: Seq<Seq<char>>,
    q: SelectQueryView,
)
    requires
        spec_wf_table(data, page_size, page_num, fuel, lo, hi),
        spec_tree_cells(data, page_size, page_num, fuel) is Ok,
        spec_tree_cells(data, page_size, page_num, fuel)->Ok_0.contains(c),
        0 <= pos < c.columns.len(),
        c.columns[pos] == ColumnView::Str(key),
    ensures
        spec_descend(data, page_size, page_num, c.rowid, tcols, q, (fuel + 1) as nat) == Ok::<
            Seq<Seq<char>>,
            Error,
        >(
            spec_project_from(
                c.columns,
                c.rowid,
                tcols,
                q,
                0,
                spec_empty_row(q.columns.len()),
                true,
            ).0,
        ),
        spec_render_column(c.columns[pos], c.rowid) == key,
{
    lemma_find_row_finds(data, page_size, page_num, fuel, lo, hi, c, tcols, q);
}

// ------------------------------------------------------------------
// Index-tree laws
// ------------------------------------------------------------------
/// The trailing row ids of the cells `i..` whose key column equals
/// `needle`, in cell order, assuming each cell is a (text key, row id)
/// entry.
pub open spec fn spec_matching_ids(
    cells: Seq<crate::page::IdxLeafCellView>,
    i: int,
    needle: Seq<char>,
) -> Seq<i64>
    decreases cells.len() - i,
{
    if i < 0 || i >= cells.len() {
        Seq::empty()
    } else if cells[i].columns.len() == 2 && cells[i].columns[0] == ColumnView::Str(needle)
        && spec_idx_rowid(cells[i].columns[1]) is Ok {
        seq![spec_idx_rowid(cells[i].columns[1])->Ok_0] + spec_matching_ids(cells, i + 1, needle)
    } else {
        spec_matching_ids(cells, i + 1, needle)
    }
}

/// Whether every cell of a leaf-index page is a well-formed entry: exactly
/// a text key column and a small-integer row-id column.
pub open spec fn spec_wf_idx_leaf(cells: Seq<crate::page::IdxLeafCellView>) -> bool {
    forall|i: int|
        0 <= i < cells.len() ==> (#[trigger] cells[i]).columns.len() == 2 && cells[i].columns[0]
            is Str && spec_idx_rowid(cells[i].columns[1]) is Ok
}

proof fn lemma_leaf_matches_complete(
    cells: Seq<crate::page::IdxLeafCellView>,
    i: int,
    needle: Seq<char>,
    acc: Seq<i64>,
)
    requires
        0 <= i <= cells.len(),
        spec_wf_idx_leaf(cells),
    ensures
        spec_idx_leaf_matches(cells, i, needle, acc) == Ok::<Seq<i64>, Error>(
            acc + spec_matching_ids(cells, i, needle),
        ),
    decreases cells.len() - i,
{
    if i >= cells.len() {
        assert(acc + spec_matching_ids(cells, i, needle) =~= acc);
    } else {
        let key = spec_idx_key(cells[i].columns[0])->Ok_0;
        if key == needle {
            let rid = spec_idx_rowid(cells[i].columns[1])->Ok_0;
            lemma_leaf_matches_complete(cells, i + 1, needle, acc.push(rid));
            assert(cells[i].columns[0] == ColumnView::Str(needle));
            assert(acc.push(rid) + spec_matching_ids(cells, i + 1, needle) =~= acc
                + spec_matching_ids(cells, i, needle));
        } else {
            lemma_leaf_matches_complete(cells, i + 1, needle, acc);
            assert(cells[i].columns[0] != ColumnView::Str(needle));
        }
    }
}

/// Index completeness on a leaf page: searching a well-formed leaf-index
/// page yields exactly the trailing row ids of the cells whose key equals
/// the needle, in cell order.
pub proof fn lemma_query_idx_leaf_complete(
    data: Seq<u8>,
    page_size: u16,
    p: crate::page::LeafIdxPageView,
    needle: Seq<char>,
    fuel: nat,
)
    requires
        p.cells.len() > 0,
        spec_wf_idx_leaf(p.cells),
    ensures
        spec_query_idx(data, page_size, PageView::LeafIndex(p), needle, fuel) == Ok::<
            Seq<i64>,
            Error,
        >(spec_matching_ids(p.cells, 0, needle)),
{
    lemma_leaf_matches_complete(p.cells, 0, needle, Seq::empty());
    assert(Seq::<i64>::empty() + spec_matching_ids(p.cells, 0, needle) =~= spec_matching_ids(
        p.cells,
        0,
        needle,
    ));
}

/// Whether a cell's record is the entry (key, rid): exactly one key column
/// holding the key as text, and a trailing row-id column decoding to `rid`.
pub open spec fn spec_idx_cell_is(columns: Seq<ColumnView>, key: Seq<char>, rid: i64) -> bool {
    columns.len() == 2 && columns[0] == ColumnView::Str(key) && spec_idx_rowid(columns[1]) == Ok::<
        i64,
        Error,
    >(rid)
}

/// Whether the index tree under the decoded page holds the entry (key, rid),
/// in one of its own cells or anywhere beneath.
pub open spec fn spec_idx_has_entry(
    data: Seq<u8>,
    page_size: u16,
    page: PageView,
    key: Seq<char>,
    rid: i64,
    fuel: nat,
) -> bool
    decreases fuel, 1nat,
{
    match page {
        PageView::LeafIndex(p) => exists|i: int|
            0 <= i < p.cells.len() && spec_idx_cell_is((#[trigger] p.cells[i]).columns, key, rid),
        PageView::InteriorIdx(p) => {
            ||| exists|i: int|
                0 <= i < p.cells.len() && spec_idx_cell_is(
                    (#[trigger] p.cells[i]).columns,
                    key,
                    rid,
                )
            ||| exists|i: int|
                0 <= i < p.cells.len() && spec_idx_subtree_has_entry(
                    data,
                    page_size,
                    (#[trigger] p.cells[i]).left_child_page_num,
                    key,
                    rid,
                    fuel,
                )
            ||| (p.page_header.rightmost_pointer matches Some(rp) && spec_idx_subtree_has_entry(
                data,
                page_size,
                rp,
                key,
                rid,
                fuel,
            ))
        },
        _ => false,
    }
}

/// Whether the index tree under page number `page_num` holds the entry.
pub open spec fn spec_idx_subtree_has_entry(
    data: Seq<u8>,
    page_size: u16,
    page_num: u32,
    key: Seq<char>,
    rid: i64,
    fuel: nat,
) -> bool
    decreases fuel, 0nat,
{
    &&& fuel > 0
    &&& spec_read_page(data, spec_page_off(page_num, page_size), 0, page_size as int) matches Ok(
        child,
    ) && spec_idx_has_entry(data, page_size, child, key, rid, (fuel - 1) as nat)
}

proof fn lemma_leaf_matches_sound(
    cells: Seq<crate::page::IdxLeafCellView>,
    i: int,
    needle: Seq<char>,
    acc: Seq<i64>,
    rid: i64,
)
    requires
        0 <= i <= cells.len(),
        spec_idx_leaf_matches(cells, i, needle, acc) is Ok,
        spec_idx_leaf_matches(cells, i, needle, acc)->Ok_0.contains(rid),
    ensures
        acc.contains(rid) || exists|k: int|
            i <= k < cells.len() && spec_idx_cell_is((#[trigger] cells[k]).columns, needle, rid),
    decreases cells.len() - i,
{
    if i < cells.len() {
        let key = spec_idx_key(cells[i].columns[0])->Ok_0;
        if key == needle {
            let r2 = spec_idx_rowid(cells[i].columns[1])->Ok_0;
            lemma_leaf_matches_sound(cells, i + 1, needle, acc.push(r2), rid);
            if !acc.contains(rid) && acc.push(r2).contains(rid) {
                let idx = choose|idx: int|
                    0 <= idx < acc.push(r2).len() && acc.push(r2)[idx] == rid;
                if idx < acc.len() {
                    assert(acc[idx] == rid);
                } else {
                    assert(r2 == rid);
                    assert(spec_idx_cell_is(cells[i].columns, needle, rid));
                }
            }
        } else {
            lemma_leaf_matches_sound(cells, i + 1, needle, acc, rid);
        }
    }
}

proof fn lemma_interior_matches_sound(
    data: Seq<u8>,
    page_size: u16,
    cells: Seq<crate::page::IdxInteriorCellView>,
    i: int,
    needle: Seq<char>,
    fuel: nat,
    acc: Seq<i64>,
    rid: i64,
)
    requires
        0 <= i <= cells.len(),
        spec_idx_interior_matches(data, page_size, cells, i, needle, fuel, acc) is Ok,
        spec_idx_interior_matches(data, page_size, cells, i, needle, fuel, acc)->Ok_0.contains(rid),
    ensures
        ({
            ||| acc.contains(rid)
            ||| exists|k: int|
                i <= k < cells.len() && spec_idx_cell_is((#[trigger] cells[k]).columns, needle, rid)
            ||| exists|k: int|
                i <= k < cells.len() && spec_idx_subtree_has_entry(
                    data,
                    page_size,
                    (#[trigger] cells[k]).left_child_page_num,
                    needle,
                    rid,
                    fuel,
                )
        }),
    decreases fuel, 1nat, cells.len() - i,
{
    if i < cells.len() {
        let key = spec_idx_key(cells[i].columns[0])->Ok_0;
        let acc2 = if key == needle {
            acc.push(spec_idx_rowid(cells[i].columns[1])->Ok_0)
        } else {
            acc
        };
        let sub = spec_idx_descend(data, page_size, cells[i].left_child_page_num, needle, fuel)->Ok_0;
        lemma_interior_matches_sound(data, page_size, cells, i + 1, needle, fuel, acc2 + sub, rid);
        if (acc2 + sub).contains(rid) && !acc.contains(rid) {
            let idx = choose|idx: int| 0 <= idx < (acc2 + sub).len() && (acc2 + sub)[idx] == rid;
            if idx < acc2.len() {
                assert(acc2[idx] == rid);
                if key == needle && idx == acc.len() {
                    assert(spec_idx_cell_is(cells[i].columns, needle, rid));
                } else {
                    assert(acc[idx] == rid);
                }
            } else {
                assert(sub[idx - acc2.len()] == rid);
                assert(sub.contains(rid));
                lemma_query_idx_sound_descend(
                    data,
                    page_size,
                    cells[i].left_child_page_num,
                    needle,
                    fuel,
                    rid,
                );
            }
        }
    }
}

proof fn lemma_query_idx_sound_descend(
    data: Seq<u8>,
    page_size: u16,
    page_num: u32,
    needle: Seq<char>,
    fuel: nat,
    rid: i64,
)
    requires
        spec_idx_descend(data, page_size, page_num, needle, fuel) is Ok,
        spec_idx_descend(data, page_size, page_num, needle, fuel)->Ok_0.contains(rid),
    ensures
        spec_idx_subtree_has_entry(data, page_size, page_num, needle, rid, fuel),
    decreases fuel, 0nat, 0nat,
{
    let child = spec_read_page(data, spec_page_off(page_num, page_size), 0, page_size as int)->Ok_0;
    lemma_query_idx_sound(data, page_size, child, needle, (fuel - 1) as nat, rid);
}

/// Index search soundness: every row id the search returns is the trailing
/// row id of a cell of the index tree whose key equals the needle.
pub proof fn lemma_query_idx_sound(
    data: Seq<u8>,
    page_size: u16,
    page: PageView,
    needle: Seq<char>,
    fuel: nat,
    rid: i64,
)
    requires
        spec_query_idx(data, page_size, page, needle, fuel) is Ok,
        spec_query_idx(data, page_size, page, needle, fuel)->Ok_0.contains(rid),
    ensures
        spec_idx_has_entry(data, page_size, page, needle, rid, fuel),
    decreases fuel, 2nat, 0nat,
{
    match page {
        PageView::LeafIndex(p) => {
            lemma_leaf_matches_sound(p.cells, 0, needle, Seq::empty(), rid);
        },
        PageView::InteriorIdx(p) => {
            let first_key = spec_idx_key(p.cells[0].columns[0])->Ok_0;
            let last_key = spec_idx_key(p.cells[p.cells.len() - 1].columns[0])->Ok_0;
            if !spec_chars_lt(needle, first_key) && !spec_chars_lt(last_key, needle) {
                lemma_interior_matches_sound(
                    data,
                    page_size,
                    p.cells,
                    0,
                    needle,
                    fuel,
                    Seq::empty(),
                    rid,
                );
            } else {
                let rp = p.page_header.rightmost_pointer->0;
                lemma_query_idx_sound_descend(data, page_size, rp, needle, fuel, rid);
            }
        },
        _ => {},
    }
}

/// An index search for a key the tree holds no entry for returns no row
/// ids: an absent value yields an empty result, not an error.
pub proof fn lemma_idx_no_entry_no_ids(
    data: Seq<u8>,
    page_size: u16,
    page: PageView,
    needle: Seq<char>,
    fuel: nat,
)
    requires
        spec_query_idx(data, page_size, page, needle, fuel) is Ok,
        forall|rid: i64| !spec_idx_has_entry(data, page_size, page, needle, rid, fuel),
    ensures
        spec_query_idx(data, page_size, page, needle, fuel)->Ok_0 == Seq::<i64>::empty(),
{
    let ids = spec_query_idx(data, page_size, page, needle, fuel)->Ok_0;
    if ids.len() > 0 {
        assert(ids.contains(ids[0]));
        lemma_query_idx_sound(data, page_size, page, needle, fuel, ids[0]);
        assert(false);
    }
    assert(ids =~= Seq::<i64>::empty());
}

// ------------------------------------------------------------------
// Index completeness
// ------------------------------------------------------------------
/// Non-strict lexicographic order on character sequences.
pub open spec fn spec_chars_le(a: Seq<char>, b: Seq<char>) -> bool {
    !spec_chars_lt(b, a)
}

proof fn lemma_le_lt_trans(a: Seq<char>, b: Seq<char>, c: Seq<char>)
    requires
        spec_chars_le(a, b),
        spec_chars_lt(b, c),
    ensures
        spec_chars_lt(a, c),
{
    lemma_chars_lt_trichotomy(a, b);
    if spec_chars_lt(a, b) {
        crate::text::lemma_chars_lt_trans(a, b, c);
    }
}

proof fn lemma_lt_le_trans(a: Seq<char>, b: Seq<char>, c: Seq<char>)
    requires
        spec_chars_lt(a, b),
        spec_chars_le(b, c),
    ensures
        spec_chars_lt(a, c),
{
    lemma_chars_lt_trichotomy(b, c);
    if spec_chars_lt(b, c) {
        crate::text::lemma_chars_lt_trans(a, b, c);
    }
}

/// The key of an index entry record.
pub open spec fn spec_key_of(columns: Seq<ColumnView>) -> Seq<char> {
    columns[0]->Str_0
}

/// A well-formed index entry record whose key lies between the optional
/// exclusive lower and inclusive upper bounds.
pub open spec fn spec_idx_entry_cell(
    columns: Seq<ColumnView>,
    lb: Option<Seq<char>>,
    ub: Option<Seq<char>>,
) -> bool {
    &&& columns.len() == 2
    &&& columns[0] is Str
    &&& spec_idx_rowid(columns[1]) is Ok
    &&& (lb matches Some(l) ==> spec_chars_lt(l, spec_key_of(columns)))
    &&& (ub matches Some(u) ==> spec_chars_le(spec_key_of(columns), u))
}

/// A searchable index tree for `needle`: every cell is a well-formed entry
/// between the bounds; cell keys do not decrease across a page; each cell's
/// left subtree holds keys at most the cell's own; the rightmost subtree
/// holds keys strictly above the last cell's; and the needle never lies
/// strictly below a page's first key — the one region the conservative
/// range check never enters.
pub open spec fn spec_wf_index_for(
    data: Seq<u8>,
    page_size: u16,
    page: PageView,
    needle: Seq<char>,
    fuel: nat,
    lb: Option<Seq<char>>,
    ub: Option<Seq<char>>,
) -> bool
    decreases fuel, 1nat,
{
    match page {
        PageView::LeafIndex(p) => {
            &&& p.cells.len() > 0
            &&& forall|i: int|
                0 <= i < p.cells.len() ==> spec_idx_entry_cell(
                    (#[trigger] p.cells[i]).columns,
                    lb,
                    ub,
                )
        },
        PageView::InteriorIdx(p) => {
            &&& p.cells.len() > 0
            &&& p.page_header.rightmost_pointer is Some
            &&& forall|i: int|
                0 <= i < p.cells.len() ==> spec_idx_entry_cell(
                    (#[trigger] p.cells[i]).columns,
                    lb,
                    ub,
                )
            &&& forall|i: int, j: int|
                0 <= i < j < p.cells.len() ==> spec_chars_le(
                    spec_key_of((#[trigger] p.cells[i]).columns),
                    spec_key_of((#[trigger] p.cells[j]).columns),
                )
            &&& !spec_chars_lt(needle, spec_key_of(p.cells[0].columns))
            &&& forall|i: int|
                0 <= i < p.cells.len() ==> spec_wf_index_sub(
                    data,
                    page_size,
                    (#[trigger] p.cells[i]).left_child_page_num,
                    needle,
                    fuel,
                    lb,
                    Some(spec_key_of(p.cells[i].columns)),
                )
            &&& spec_wf_index_sub(
                data,
                page_size,
                p.page_header.rightmost_pointer->0,
                needle,
                fuel,
                Some(spec_key_of(p.cells[p.cells.len() - 1].columns)),
                ub,
            )
        },
        _ => false,
    }
}

/// A searchable index tree under page number `page_num`.
pub open spec fn spec_wf_index_sub(
    data: Seq<u8>,
    page_size: u16,
    page_num: u32,
    needle: Seq<char>,
    fuel: nat,
    lb: Option<Seq<char>>,
    ub: Option<Seq<char>>,
) -> bool
    decreases fuel, 0nat,
{
    &&& fuel > 0
    &&& page_num != 0
    &&& spec_read_page(data, spec_page_off(page_num, page_size), 0, page_size as int) matches Ok(
        child,
    ) && spec_wf_index_for(data, page_size, child, needle, (fuel - 1) as nat, lb, ub)
}

proof fn lemma_idx_entry_bounds(
    data: Seq<u8>,
    page_size: u16,
    page: PageView,
    needle: Seq<char>,
    key: Seq<char>,
    rid: i64,
    fuel: nat,
    lb: Option<Seq<char>>,
    ub: Option<Seq<char>>,
)
    requires
        spec_wf_index_for(data, page_size, page, needle, fuel, lb, ub),
        spec_idx_has_entry(data, page_size, page, key, rid, fuel),
    ensures
        lb matches Some(l) ==> spec_chars_lt(l, key),
        ub matches Some(u) ==> spec_chars_le(key, u),
    decreases fuel, 1nat,
{
    match page {
        PageView::LeafIndex(p) => {
            let i = choose|i: int|
                0 <= i < p.cells.len() && spec_idx_cell_is(
                    (#[trigger] p.cells[i]).columns,
                    key,
                    rid,
                );
            assert(spec_idx_entry_cell(p.cells[i].columns, lb, ub));
        },
        PageView::InteriorIdx(p) => {
            let last_key = spec_key_of(p.cells[p.cells.len() - 1].columns);
            if exists|i: int|
                0 <= i < p.cells.len() && spec_idx_cell_is(
                    (#[trigger] p.cells[i]).columns,
                    key,
                    rid,
                ) {
                let i = choose|i: int|
                    0 <= i < p.cells.len() && spec_idx_cell_is(
                        (#[trigger] p.cells[i]).columns,
                        key,
                        rid,
                    );
                assert(spec_idx_entry_cell(p.cells[i].columns, lb, ub));
            } else if exists|i: int|
                0 <= i < p.cells.len() && spec_idx_subtree_has_entry(
                    data,
                    page_size,
                    (#[trigger] p.cells[i]).left_child_page_num,
                    key,
                    rid,
                    fuel,
                ) {
                let i = choose|i: int|
                    0 <= i < p.cells.len() && spec_idx_subtree_has_entry(
                        data,
                        page_size,
                        (#[trigger] p.cells[i]).left_child_page_num,
                        key,
                        rid,
                        fuel,
                    );
                let child = spec_read_page(
                    data,
                    spec_page_off(p.cells[i].left_child_page_num, page_size),
                    0,
                    page_size as int,
                )->Ok_0;
                lemma_idx_entry_bounds(
                    data,
                    page_size,
                    child,
                    needle,
                    key,
                    rid,
                    (fuel - 1) as nat,
                    lb,
                    Some(spec_key_of(p.cells[i].columns)),
                );
                if ub is Some {
                    assert(spec_idx_entry_cell(p.cells[i].columns, lb, ub));
                    if spec_chars_lt(ub->0, key) {
                        lemma_lt_le_trans(ub->0, key, spec_key_of(p.cells[i].columns));
                        assert(false);
                    }
                }
            } else {
                let rp = p.page_header.rightmost_pointer->0;
                let child = spec_read_page(
                    data,
                    spec_page_off(rp, page_size),
                    0,
                    page_size as int,
                )->Ok_0;
                lemma_idx_entry_bounds(
                    data,
                    page_size,
                    child,
                    needle,
                    key,
                    rid,
                    (fuel - 1) as nat,
                    Some(last_key),
                    ub,
                );
                if lb is Some {
                    assert(spec_idx_entry_cell(p.cells[p.cells.len() - 1].columns, lb, ub));
                    crate::text::lemma_chars_lt_trans(lb->0, last_key, key);
                }
            }
        },
        _ => {},
    }
}

proof fn lemma_interior_complete(
    data: Seq<u8>,
    page_size: u16,
    cells: Seq<crate::page::IdxInteriorCellView>,
    i: int,
    needle: Seq<char>,
    fuel: nat,
    acc: Seq<i64>,
    rid: i64,
    lb: Option<Seq<char>>,
    ub: Option<Seq<char>>,
)
    requires
        0 <= i <= cells.len(),
        forall|m: int|
            0 <= m < cells.len() ==> spec_idx_entry_cell((#[trigger] cells[m]).columns, lb, ub),
        forall|m: int|
            0 <= m < cells.len() ==> spec_wf_index_sub(
                data,
                page_size,
                (#[trigger] cells[m]).left_child_page_num,
                needle,
                fuel,
                lb,
                Some(spec_key_of(cells[m].columns)),
            ),
    ensures
        spec_idx_interior_matches(data, page_size, cells, i, needle, fuel, acc) is Ok,
        forall|x: i64|
            acc.contains(x) ==> spec_idx_interior_matches(
                data,
                page_size,
                cells,
                i,
                needle,
                fuel,
                acc,
            )->Ok_0.contains(x),
        (exists|m: int|
            i <= m < cells.len() && (spec_idx_cell_is((#[trigger] cells[m]).columns, needle, rid)
                || spec_idx_subtree_has_entry(
                data,
                page_size,
                cells[m].left_child_page_num,
                needle,
                rid,
                fuel,
            ))) ==> spec_idx_interior_matches(
            data,
            page_size,
            cells,
            i,
            needle,
            fuel,
            acc,
        )->Ok_0.contains(rid),
    decreases fuel, 1nat, cells.len() - i,
{
    if i < cells.len() {
        assert(spec_idx_entry_cell(cells[i].columns, lb, ub));
        let key = spec_idx_key(cells[i].columns[0])->Ok_0;
        let acc2 = if key == needle {
            acc.push(spec_idx_rowid(cells[i].columns[1])->Ok_0)
        } else {
            acc
        };
        // the descent into the left child succeeds
        let child = spec_read_page(
            data,
            spec_page_off(cells[i].left_child_page_num, page_size),
            0,
            page_size as int,
        )->Ok_0;
        lemma_query_idx_complete(
            data,
            page_size,
            child,
            needle,
            (fuel - 1) as nat,
            rid,
            lb,
            Some(spec_key_of(cells[i].columns)),
        );
        let sub = spec_idx_descend(data, page_size, cells[i].left_child_page_num, needle, fuel)->Ok_0;
        lemma_interior_complete(
            data,
            page_size,
            cells,
            i + 1,
            needle,
            fuel,
            acc2 + sub,
            rid,
            lb,
            ub,
        );
        let out = spec_idx_interior_matches(data, page_size, cells, i, needle, fuel, acc)->Ok_0;
        // everything in acc survives into the result
        assert(forall|x: i64| acc.contains(x) ==> acc2.contains(x)) by {
            if key == needle {
                assert(forall|k: int| 0 <= k < acc.len() ==> acc2[k] == #[trigger] acc[k]);
            }
        }
        assert(forall|x: i64| acc2.contains(x) ==> (acc2 + sub).contains(x)) by {
            assert(forall|k: int| 0 <= k < acc2.len() ==> (acc2 + sub)[k] == #[trigger] acc2[k]);
        }
        if exists|m: int|
            i <= m < cells.len() && (spec_idx_cell_is((#[trigger] cells[m]).columns, needle, rid)
                || spec_idx_subtree_has_entry(
                data,
                page_size,
                cells[m].left_child_page_num,
                needle,
                rid,
                fuel,
            )) {
            let m = choose|m: int|
                i <= m < cells.len() && (spec_idx_cell_is(
                    (#[trigger] cells[m]).columns,
                    needle,
                    rid,
                ) || spec_idx_subtree_has_entry(
                    data,
                    page_size,
                    cells[m].left_child_page_num,
                    needle,
                    rid,
                    fuel,
                ));
            if m == i {
                if spec_idx_cell_is(cells[i].columns, needle, rid) {
                    assert(key == needle);
                    assert(acc2[acc.len() as int] == rid);
                    assert(acc2.contains(rid));
                    assert((acc2 + sub).contains(rid));
                } else {
                    assert(sub.contains(rid));
                    let k = choose|k: int| 0 <= k < sub.len() && sub[k] == rid;
                    assert((acc2 + sub)[acc2.len() + k] == rid);
                    assert((acc2 + sub).contains(rid));
                }
            }
        }
    }
}

/// Index completeness: searching a searchable index tree succeeds, and the
/// result holds the row id of every entry of the tree whose key equals the
/// needle.
#[verifier::rlimit(80)]
#[verifier::spinoff_prover]
pub proof fn lemma_query_idx_complete(
    data: Seq<u8>,
    page_size: u16,
    page: PageView,
    needle: Seq<char>,
    fuel: nat,
    rid: i64,
    lb: Option<Seq<char>>,
    ub: Option<Seq<char>>,
)
    requires
        spec_wf_index_for(data, page_size, page, needle, fuel, lb, ub),
    ensures
        spec_query_idx(data, page_size, page, needle, fuel) is Ok,
        spec_idx_has_entry(data, page_size, page, needle, rid, fuel) ==> spec_query_idx(
            data,
            page_size,
            page,
            needle,
            fuel,
        )->Ok_0.contains(rid),
    decreases fuel, 2nat, 0nat,
{
    match page {
        PageView::LeafIndex(p) => {
            lemma_leaf_matches_complete_wf(p.cells, 0, needle, Seq::empty(), rid, lb, ub);
        },
        PageView::InteriorIdx(p) => {
            let n = p.cells.len() as int;
            let first_key = spec_key_of(p.cells[0].columns);
            let last_key = spec_key_of(p.cells[n - 1].columns);
            assert(spec_idx_entry_cell(p.cells[0].columns, lb, ub));
            assert(spec_idx_entry_cell(p.cells[n - 1].columns, lb, ub));
            let rp = p.page_header.rightmost_pointer->0;
            let rchild = spec_read_page(
                data,
                spec_page_off(rp, page_size),
                0,
                page_size as int,
            )->Ok_0;
            if !spec_chars_lt(needle, first_key) && !spec_chars_lt(last_key, needle) {
                lemma_interior_complete(
                    data,
                    page_size,
                    p.cells,
                    0,
                    needle,
                    fuel,
                    Seq::empty(),
                    rid,
                    lb,
                    ub,
                );
                if spec_idx_has_entry(data, page_size, page, needle, rid, fuel) {
                    if spec_idx_subtree_has_entry(data, page_size, rp, needle, rid, fuel) {
                        // the rightmost subtree holds keys strictly above the
                        // last cell's, so the needle cannot be among them
                        lemma_idx_entry_bounds(
                            data,
                            page_size,
                            rchild,
                            needle,
                            needle,
                            rid,
                            (fuel - 1) as nat,
                            Some(last_key),
                            ub,
                        );
                        assert(false);
                    }
                }
            } else {
                assert(!spec_chars_lt(needle, first_key));
                assert(spec_chars_lt(last_key, needle));
                lemma_query_idx_complete(
                    data,
                    page_size,
                    rchild,
                    needle,
                    (fuel - 1) as nat,
                    rid,
                    Some(last_key),
                    ub,
                );
                if spec_idx_has_entry(data, page_size, page, needle, rid, fuel) {
                    if exists|m: int|
                        0 <= m < n && spec_idx_cell_is(
                            (#[trigger] p.cells[m]).columns,
                            needle,
                            rid,
                        ) {
                        let m = choose|m: int|
                            0 <= m < n && spec_idx_cell_is(
                                (#[trigger] p.cells[m]).columns,
                                needle,
                                rid,
                            );
                        assert(spec_key_of(p.cells[m].columns) == needle);
                        assert(m < n - 1 ==> spec_chars_le(
                            spec_key_of(p.cells[m].columns),
                            last_key,
                        ));
                        lemma_chars_lt_irrefl(needle);
                        if m < n - 1 {
                            lemma_le_lt_trans(needle, last_key, needle);
                        }
                        assert(false);
                    } else if exists|m: int|
                        0 <= m < n && spec_idx_subtree_has_entry(
                            data,
                            page_size,
                            (#[trigger] p.cells[m]).left_child_page_num,
                            needle,
                            rid,
                            fuel,
                        ) {
                        let m = choose|m: int|
                            0 <= m < n && spec_idx_subtree_has_entry(
                                data,
                                page_size,
                                (#[trigger] p.cells[m]).left_child_page_num,
                                needle,
                                rid,
                                fuel,
                            );
                        let child = spec_read_page(
                            data,
                            spec_page_off(p.cells[m].left_child_page_num, page_size),
                            0,
                            page_size as int,
                        )->Ok_0;
                        // keys under the cell stay at or below its own key,
                        // which stays at or below the last key
                        lemma_idx_entry_bounds(
                            data,
                            page_size,
                            child,
                            needle,
                            needle,
                            rid,
                            (fuel - 1) as nat,
                            lb,
                            Some(spec_key_of(p.cells[m].columns)),
                        );
                        assert(spec_chars_le(needle, spec_key_of(p.cells[m].columns)));
                        assert(m < n - 1 ==> spec_chars_le(
                            spec_key_of(p.cells[m].columns),
                            last_key,
                        ));
                        lemma_chars_lt_irrefl(needle);
                        if m < n - 1 {
                            lemma_lt_le_trans(last_key, needle, spec_key_of(p.cells[m].columns));
                            lemma_le_lt_trans(needle, spec_key_of(p.cells[m].columns), needle);
                        } else {
                            lemma_le_lt_trans(needle, last_key, needle);
                        }
                        assert(false);
                    }
                }
            }
        },
        _ => {},
    }
}

proof fn lemma_leaf_matches_complete_wf(
    cells: Seq<crate::page::IdxLeafCellView>,
    i: int,
    needle: Seq<char>,
    acc: Seq<i64>,
    rid: i64,
    lb: Option<Seq<char>>,
    ub: Option<Seq<char>>,
)
    requires
        0 <= i <= cells.len(),
        forall|m: int|
            0 <= m < cells.len() ==> spec_idx_entry_cell((#[trigger] cells[m]).columns, lb, ub),
    ensures
        spec_idx_leaf_matches(cells, i, needle, acc) is Ok,
        forall|x: i64|
            acc.contains(x) ==> spec_idx_leaf_matches(cells, i, needle, acc)->Ok_0.contains(x),
        (exists|m: int|
            i <= m < cells.len() && spec_idx_cell_is((#[trigger] cells[m]).columns, needle, rid))
            ==> spec_idx_leaf_matches(cells, i, needle, acc)->Ok_0.contains(rid),
    decreases cells.len() - i,
{
    if i < cells.len() {
        assert(spec_idx_entry_cell(cells[i].columns, lb, ub));
        let key = spec_idx_key(cells[i].columns[0])->Ok_0;
        let acc2 = if key == needle {
            acc.push(spec_idx_rowid(cells[i].columns[1])->Ok_0)
        } else {
            acc
        };
        lemma_leaf_matches_complete_wf(cells, i + 1, needle, acc2, rid, lb, ub);
        assert(forall|x: i64| acc.contains(x) ==> acc2.contains(x)) by {
            if key == needle {
                assert(forall|k: int| 0 <= k < acc.len() ==> acc2[k] == #[trigger] acc[k]);
            }
        }
        if spec_idx_cell_is(cells[i].columns, needle, rid) {
            assert(key == needle);
            assert(acc2[acc.len() as int] == rid);
            assert(acc2.contains(rid));
        }
    }
}

// ------------------------------------------------------------------
// Plan choice
// ------------------------------------------------------------------
/// Whether every requested column, and the WHERE column if any, is one the
/// table declares.
pub open spec fn spec_cols_known(tcols: Seq<Seq<char>>, q: SelectQueryView) -> bool {
    (forall|i: int| 0 <= i < q.columns.len() ==> tcols.contains(#[trigger] q.columns[i]))
        && (q.where_column matches Some(wc) ==> tcols.contains(wc))
}

/// Fetch the rows for the row ids `i..`, appending each non-empty
/// projection to `acc`: a row id the table does not hold contributes
/// nothing.
pub open spec fn spec_fetch_rows(
    data: Seq<u8>,
    page_size: u16,
    root: PageView,
    ids: Seq<i64>,
    i: int,
    tcols: Seq<Seq<char>>,
    q: SelectQueryView,
    fuel: nat,
    acc: Seq<Seq<Seq<char>>>,
) -> Result<Seq<Seq<Seq<char>>>, Error>
    decreases ids.len() - i,
{
    if i >= ids.len() {
        Ok(acc)
    } else {
        match spec_get_row(data, page_size, root, ids[i], tcols, q, fuel) {
            Err(e) => Err(e),
            Ok(row) => spec_fetch_rows(
                data,
                page_size,
                root,
                ids,
                i + 1,
                tcols,
                q,
                fuel,
                if row.len() > 0 {
                    acc.push(row)
                } else {
                    acc
                },
            ),
        }
    }
}

/// Execute a SELECT: resolve the table, check the named columns, and run
/// the index plan when an index on the table covers the WHERE column, else
/// the scan plan.
pub open spec fn spec_execute_select(db: DbView, q: SelectQueryView) -> Result<
    Seq<Seq<Seq<char>>>,
    Error,
> {
    match spec_assoc_lookup(db.tables, q.table_name) {
        None => Err(Error::UnknownTable),
        Some(t) => if !spec_cols_known(t.columns, q) {
            Err(Error::UnknownColumn)
        } else {
            let fuel = spec_fuel(db.data.len() as int, db.page_size);
            let use_index = {
                &&& q.where_column is Some
                &&& q.where_value is Some
                &&& spec_assoc_lookup(db.idxs, q.table_name) is Some
                &&& spec_assoc_lookup(db.idxs, q.table_name)->0.columns.contains(
                    q.where_column->0,
                )
            };
            if use_index {
                let ix = spec_assoc_lookup(db.idxs, q.table_name)->0;
                let needle = q.where_value->0;
                if ix.root_page_num == 0 {
                    Err(Error::NegativePageIndex)
                } else {
                    match spec_read_page(
                        db.data,
                        spec_page_off(ix.root_page_num, db.page_size),
                        0,
                        db.page_size as int,
                    ) {
                        Err(e) => Err(e),
                        Ok(idx_root) => match spec_query_idx(
                            db.data,
                            db.page_size,
                            idx_root,
                            needle,
                            fuel,
                        ) {
                            Err(e) => Err(e),
                            Ok(ids) => if t.root_page_num == 0 {
                                Err(Error::NegativePageIndex)
                            } else {
                                match spec_read_page(
                                    db.data,
                                    spec_page_off(t.root_page_num, db.page_size),
                                    0,
                                    db.page_size as int,
                                ) {
                                    Err(e) => Err(e),
                                    Ok(table_root) => spec_fetch_rows(
                                        db.data,
                                        db.page_size,
                                        table_root,
                                        ids,
                                        0,
                                        t.columns,
                                        q,
                                        fuel,
                                        Seq::empty(),
                                    ),
                                }
                            },
                        },
                    }
                }
            } else {
                spec_scan_page(db.data, db.page_size, t.root_page_num, q, t.columns, fuel, true)
            }
        },
    }
}

/// The number of rows a full scan of the table yields: the count of its
/// leaf cells, whatever the tree's shape.
pub open spec fn spec_count_query(name: Seq<char>) -> SelectQueryView {
    SelectQueryView { table_name: name, columns: Seq::empty(), where_column: None, where_value: None }
}

/// COUNT(*): the table's row count by full traversal.
pub open spec fn spec_count_rows(db: DbView, name: Seq<char>) -> Result<int, Error> {
    match spec_assoc_lookup(db.tables, name) {
        None => Err(Error::UnknownTable),
        Some(t) => match spec_scan_page(
            db.data,
            db.page_size,
            t.root_page_num,
            spec_count_query(name),
            t.columns,
            spec_fuel(db.data.len() as int, db.page_size),
            true,
        ) {
            Err(e) => Err(e),
            Ok(rows) => Ok(rows.len() as int),
        },
    }
}

// ------------------------------------------------------------------
// Table-tree laws
// ------------------------------------------------------------------
/// The leaf cells of an in-order traversal of the table tree under
/// `page_num`: for each interior cell in array order the cells beneath its
/// left child, then the cells beneath the rightmost child.
pub open spec fn spec_tree_cells(data: Seq<u8>, page_size: u16, page_num: u32, fuel: nat) -> Result<
    Seq<LeafTableCellView>,
    Error,
>
    decreases fuel, 0nat, 0nat,
{
    if page_num == 0 {
        Err(Error::NegativePageIndex)
    } else {
        match spec_read_page(data, spec_page_off(page_num, page_size), 0, page_size as int) {
            Err(e) => Err(e),
            Ok(PageView::LeafTable(p)) => Ok(p.cells),
            Ok(PageView::InteriorTable(p)) => if fuel == 0 {
                Err(Error::CorruptIndex)
            } else {
                match spec_tree_cells_children(
                    data,
                    page_size,
                    p.cells,
                    0,
                    (fuel - 1) as nat,
                    Seq::empty(),
                ) {
                    Err(e) => Err(e),
                    Ok(acc) => match p.page_header.rightmost_pointer {
                        Some(rp) => match spec_tree_cells(data, page_size, rp, (fuel - 1) as nat) {
                            Err(e) => Err(e),
                            Ok(rest) => Ok(acc + rest),
                        },
                        None => Err(Error::CorruptPageHeader),
                    },
                }
            },
            Ok(_) => Ok(Seq::empty()),
        }
    }
}

/// The traversed leaf cells of the subtrees under the interior cells `i..`,
/// appended to `acc` in cell order.
pub open spec fn spec_tree_cells_children(
    data: Seq<u8>,
    page_size: u16,
    cells: Seq<crate::page::TableInteriorCell>,
    i: int,
    fuel: nat,
    acc: Seq<LeafTableCellView>,
) -> Result<Seq<LeafTableCellView>, Error>
    decreases fuel, 1nat, cells.len() - i,
{
    if i >= cells.len() {
        Ok(acc)
    } else {
        match spec_tree_cells(data, page_size, cells[i].left_child_page_num, fuel) {
            Err(e) => Err(e),
            Ok(sub) => spec_tree_cells_children(data, page_size, cells, i + 1, fuel, acc + sub),
        }
    }
}

/// A well-formed table tree between the exclusive lower bound `lo` and the
/// inclusive upper bound `hi`: every page decodes; leaf row ids strictly
/// increase and lie in (lo, hi]; interior pages hold at least one cell,
/// their bounding row ids strictly increase within (lo, hi], each left
/// subtree is well formed between the preceding bound and its own, and the
/// rightmost subtree between the last bound and `hi`.
pub open spec fn spec_wf_table(
    data: Seq<u8>,
    page_size: u16,
    page_num: u32,
    fuel: nat,
    lo: int,
    hi: int,
) -> bool
    decreases fuel, 0nat, 0nat,
{
    page_num != 0 && match spec_read_page(
        data,
        spec_page_off(page_num, page_size),
        0,
        page_size as int,
    ) {
        Ok(PageView::LeafTable(p)) => {
            &&& forall|i: int, j: int|
                0 <= i < j < p.cells.len() ==> (#[trigger] p.cells[i]).rowid < (
                #[trigger] p.cells[j]).rowid
            &&& forall|i: int| 0 <= i < p.cells.len() ==> lo < (#[trigger] p.cells[i]).rowid <= hi
        },
        Ok(PageView::InteriorTable(p)) => {
            &&& fuel > 0
            &&& p.cells.len() > 0
            &&& p.page_header.rightmost_pointer is Some
            &&& forall|i: int, j: int|
                0 <= i < j < p.cells.len() ==> (#[trigger] p.cells[i]).rowid < (
                #[trigger] p.cells[j]).rowid
            &&& forall|i: int| 0 <= i < p.cells.len() ==> lo < (#[trigger] p.cells[i]).rowid <= hi
            &&& forall|i: int|
                0 <= i < p.cells.len() ==> spec_wf_table(
                    data,
                    page_size,
                    (#[trigger] p.cells[i]).left_child_page_num,
                    (fuel - 1) as nat,
                    if i == 0 {
                        lo
                    } else {
                        p.cells[i - 1].rowid as int
                    },
                    p.cells[i].rowid as int,
                )
            &&& spec_wf_table(
                data,
                page_size,
                p.page_header.rightmost_pointer->0,
                (fuel - 1) as nat,
                p.cells[p.cells.len() - 1].rowid as int,
                hi,
            )
        },
        _ => false,
    }
}

/// Row-id monotonicity: an in-order traversal of a well-formed table tree
/// succeeds, and its row ids strictly increase and lie in (lo, hi].
pub proof fn lemma_tree_rowids_monotonic(
    data: Seq<u8>,
    page_size: u16,
    page_num: u32,
    fuel: nat,
    lo: int,
    hi: int,
)
    requires
        spec_wf_table(data, page_size, page_num, fuel, lo, hi),
    ensures
        spec_tree_cells(data, page_size, page_num, fuel) matches Ok(cs) && (forall|i: int, j: int|
            0 <= i < j < cs.len() ==> (#[trigger] cs[i]).rowid < (#[trigger] cs[j]).rowid) && (
        forall|i: int| 0 <= i < cs.len() ==> lo < (#[trigger] cs[i]).rowid <= hi),
    decreases fuel, 0nat, 0nat,
{
    match spec_read_page(data, spec_page_off(page_num, page_size), 0, page_size as int) {
        Ok(PageView::InteriorTable(p)) => {
            let f2 = (fuel - 1) as nat;
            let last_bound = p.cells[p.cells.len() - 1].rowid as int;
            lemma_tree_children_monotonic(data, page_size, p.cells, 0, f2, Seq::empty(), lo, hi);
            let acc = spec_tree_cells_children(
                data,
                page_size,
                p.cells,
                0,
                f2,
                Seq::empty(),
            )->Ok_0;
            lemma_tree_rowids_monotonic(
                data,
                page_size,
                p.page_header.rightmost_pointer->0,
                f2,
                last_bound,
                hi,
            );
            let rest = spec_tree_cells(
                data,
                page_size,
                p.page_header.rightmost_pointer->0,
                f2,
            )->Ok_0;
            let cs = acc + rest;
            assert(forall|i: int|
                0 <= i < acc.len() ==> lo < (#[trigger] acc[i]).rowid <= last_bound);
            assert(last_bound <= hi);
            assert(forall|i: int, j: int|
                0 <= i < j < cs.len() ==> (#[trigger] cs[i]).rowid < (#[trigger] cs[j]).rowid) by {
                assert(forall|i: int| 0 <= i < acc.len() ==> cs[i] == (#[trigger] acc[i]));
                assert(forall|j: int|
                    acc.len() <= j < cs.len() ==> cs[j] == (#[trigger] rest[j - acc.len()]));
            }
            assert(forall|i: int| 0 <= i < cs.len() ==> lo < (#[trigger] cs[i]).rowid <= hi) by {
                assert(forall|i: int| 0 <= i < acc.len() ==> cs[i] == (#[trigger] acc[i]));
                assert(forall|j: int|
                    acc.len() <= j < cs.len() ==> cs[j] == (#[trigger] rest[j - acc.len()]));
            }
        },
        _ => {},
    }
}

/// The bound that closes the children segment starting at `k`: the bound
/// before `k`, or the last cell's bound once any cell at or past `k` exists.
pub open spec fn spec_prev_bound(
    cells: Seq<crate::page::TableInteriorCell>,
    k: int,
    lo: int,
) -> int {
    if k == 0 {
        lo
    } else {
        cells[k - 1].rowid as int
    }
}

proof fn lemma_tree_children_monotonic(
    data: Seq<u8>,
    page_size: u16,
    cells: Seq<crate::page::TableInteriorCell>,
    k: int,
    fuel: nat,
    acc: Seq<LeafTableCellView>,
    lo: int,
    hi: int,
)
    requires
        0 <= k <= cells.len(),
        cells.len() > 0,
        forall|i: int, j: int|
            0 <= i < j < cells.len() ==> (#[trigger] cells[i]).rowid < (#[trigger] cells[j]).rowid,
        forall|i: int| 0 <= i < cells.len() ==> lo < (#[trigger] cells[i]).rowid <= hi,
        forall|i: int|
            0 <= i < cells.len() ==> spec_wf_table(
                data,
                page_size,
                (#[trigger] cells[i]).left_child_page_num,
                fuel,
                spec_prev_bound(cells, i, lo),
                cells[i].rowid as int,
            ),
        forall|i: int, j: int|
            0 <= i < j < acc.len() ==> (#[trigger] acc[i]).rowid < (#[trigger] acc[j]).rowid,
        forall|i: int|
            0 <= i < acc.len() ==> lo < (#[trigger] acc[i]).rowid <= spec_prev_bound(cells, k, lo),
        spec_prev_bound(cells, k, lo) >= lo,
    ensures
        spec_tree_cells_children(data, page_size, cells, k, fuel, acc) matches Ok(cs) && (forall|
            i: int,
            j: int,
        |
            0 <= i < j < cs.len() ==> (#[trigger] cs[i]).rowid < (#[trigger] cs[j]).rowid) && (
        forall|i: int|
            0 <= i < cs.len() ==> lo < (#[trigger] cs[i]).rowid <= spec_prev_bound(
                cells,
                cells.len() as int,
                lo,
            )) && cs.len() >= acc.len() && (forall|i: int| 0 <= i < acc.len() ==> cs[i] == (
        #[trigger] acc[i])),
    decreases fuel, 1nat, cells.len() - k,
{
    if k < cells.len() {
        lemma_tree_rowids_monotonic(
            data,
            page_size,
            cells[k].left_child_page_num,
            fuel,
            spec_prev_bound(cells, k, lo),
            cells[k].rowid as int,
        );
        let sub = spec_tree_cells(data, page_size, cells[k].left_child_page_num, fuel)->Ok_0;
        let acc2 = acc + sub;
        assert(forall|i: int| 0 <= i < acc.len() ==> acc2[i] == (#[trigger] acc[i]));
        assert(forall|j: int| acc.len() <= j < acc2.len() ==> acc2[j] == (#[trigger] sub[j
            - acc.len()]));
        assert(forall|i: int, j: int|
            0 <= i < j < acc2.len() ==> (#[trigger] acc2[i]).rowid < (#[trigger] acc2[j]).rowid);
        assert(forall|i: int|
            0 <= i < acc2.len() ==> lo < (#[trigger] acc2[i]).rowid <= spec_prev_bound(
                cells,
                k + 1,
                lo,
            ));
        lemma_tree_children_monotonic(data, page_size, cells, k + 1, fuel, acc2, lo, hi);
    }
}

proof fn lemma_leaf_rows_acc(
    cells: Seq<LeafTableCellView>,
    i: int,
    tcols: Seq<Seq<char>>,
    q: SelectQueryView,
    acc: Seq<Seq<Seq<char>>>,
)
    requires
        0 <= i <= cells.len(),
    ensures
        spec_leaf_rows(cells, i, tcols, q, acc) == acc + spec_leaf_rows(
            cells,
            i,
            tcols,
            q,
            Seq::empty(),
        ),
    decreases cells.len() - i,
{
    if i < cells.len() {
        let rw = spec_project_row(cells[i], tcols, q);
        if rw.1 {
            lemma_leaf_rows_acc(cells, i + 1, tcols, q, acc.push(rw.0));
            lemma_leaf_rows_acc(cells, i + 1, tcols, q, Seq::<Seq<Seq<char>>>::empty().push(rw.0));
            assert(acc.push(rw.0) + spec_leaf_rows(cells, i + 1, tcols, q, Seq::empty()) =~= acc + (
            Seq::<Seq<Seq<char>>>::empty().push(rw.0) + spec_leaf_rows(
                cells,
                i + 1,
                tcols,
                q,
                Seq::empty(),
            )));
        } else {
            lemma_leaf_rows_acc(cells, i + 1, tcols, q, acc);
        }
    } else {
        assert(acc + spec_leaf_rows(cells, i, tcols, q, Seq::empty()) =~= acc);
    }
}

proof fn lemma_leaf_rows_shift(
    a: Seq<LeafTableCellView>,
    b: Seq<LeafTableCellView>,
    j: int,
    tcols: Seq<Seq<char>>,
    q: SelectQueryView,
    acc: Seq<Seq<Seq<char>>>,
)
    requires
        0 <= j <= b.len(),
    ensures
        spec_leaf_rows(a + b, a.len() + j, tcols, q, acc) == spec_leaf_rows(b, j, tcols, q, acc),
    decreases b.len() - j,
{
    if j < b.len() {
        assert((a + b)[a.len() + j] == b[j]);
        let rw = spec_project_row(b[j], tcols, q);
        if rw.1 {
            lemma_leaf_rows_shift(a, b, j + 1, tcols, q, acc.push(rw.0));
        } else {
            lemma_leaf_rows_shift(a, b, j + 1, tcols, q, acc);
        }
    }
}

proof fn lemma_leaf_rows_concat_from(
    a: Seq<LeafTableCellView>,
    b: Seq<LeafTableCellView>,
    i: int,
    tcols: Seq<Seq<char>>,
    q: SelectQueryView,
    acc: Seq<Seq<Seq<char>>>,
)
    requires
        0 <= i <= a.len(),
    ensures
        spec_leaf_rows(a + b, i, tcols, q, acc) == spec_leaf_rows(
            b,
            0,
            tcols,
            q,
            spec_leaf_rows(a, i, tcols, q, acc),
        ),
    decreases a.len() - i,
{
    if i < a.len() {
        assert((a + b)[i] == a[i]);
        let rw = spec_project_row(a[i], tcols, q);
        if rw.1 {
            lemma_leaf_rows_concat_from(a, b, i + 1, tcols, q, acc.push(rw.0));
        } else {
            lemma_leaf_rows_concat_from(a, b, i + 1, tcols, q, acc);
        }
    } else {
        lemma_leaf_rows_shift(a, b, 0, tcols, q, acc);
    }
}

proof fn lemma_leaf_rows_concat(
    a: Seq<LeafTableCellView>,
    b: Seq<LeafTableCellView>,
    tcols: Seq<Seq<char>>,
    q: SelectQueryView,
)
    ensures
        spec_leaf_rows(a + b, 0, tcols, q, Seq::empty()) == spec_leaf_rows(
            a,
            0,
            tcols,
            q,
            Seq::empty(),
        ) + spec_leaf_rows(b, 0, tcols, q, Seq::empty()),
{
    lemma_leaf_rows_concat_from(a, b, 0, tcols, q, Seq::empty());
    lemma_leaf_rows_acc(b, 0, tcols, q, spec_leaf_rows(a, 0, tcols, q, Seq::empty()));
}

proof fn lemma_tree_children_acc(
    data: Seq<u8>,
    page_size: u16,
    cells: Seq<crate::page::TableInteriorCell>,
    k: int,
    fuel: nat,
    acc: Seq<LeafTableCellView>,
)
    requires
        0 <= k <= cells.len(),
    ensures
        spec_tree_cells_children(data, page_size, cells, k, fuel, acc) == (
        match spec_tree_cells_children(data, page_size, cells, k, fuel, Seq::empty()) {
            Ok(y) => Ok(acc + y),
            Err(e) => Err(e),
        }),
    decreases cells.len() - k,
{
    if k < cells.len() {
        match spec_tree_cells(data, page_size, cells[k].left_child_page_num, fuel) {
            Ok(sub) => {
                lemma_tree_children_acc(data, page_size, cells, k + 1, fuel, acc + sub);
                lemma_tree_children_acc(
                    data,
                    page_size,
                    cells,
                    k + 1,
                    fuel,
                    Seq::<LeafTableCellView>::empty() + sub,
                );
                match spec_tree_cells_children(data, page_size, cells, k + 1, fuel, Seq::empty()) {
                    Ok(y) => {
                        assert((acc + sub) + y =~= acc + ((Seq::<LeafTableCellView>::empty() + sub)
                            + y));
                    },
                    Err(_) => {},
                }
            },
            Err(_) => {},
        }
    } else {
        assert(acc + Seq::<LeafTableCellView>::empty() =~= acc);
    }
}

proof fn lemma_scan_cells_acc(
    data: Seq<u8>,
    page_size: u16,
    cells: Seq<crate::page::TableInteriorCell>,
    k: int,
    q: SelectQueryView,
    tcols: Seq<Seq<char>>,
    fuel: nat,
    acc: Seq<Seq<Seq<char>>>,
)
    requires
        0 <= k <= cells.len(),
    ensures
        spec_scan_cells(data, page_size, cells, k, q, tcols, fuel, acc) == (
        match spec_scan_cells(data, page_size, cells, k, q, tcols, fuel, Seq::empty()) {
            Ok(y) => Ok(acc + y),
            Err(e) => Err(e),
        }),
    decreases cells.len() - k,
{
    if k < cells.len() {
        match spec_scan_page(
            data,
            page_size,
            cells[k].left_child_page_num,
            q,
            tcols,
            fuel,
            false,
        ) {
            Ok(rows) => {
                lemma_scan_cells_acc(data, page_size, cells, k + 1, q, tcols, fuel, acc + rows);
                lemma_scan_cells_acc(
                    data,
                    page_size,
                    cells,
                    k + 1,
                    q,
                    tcols,
                    fuel,
                    Seq::<Seq<Seq<char>>>::empty() + rows,
                );
                match spec_scan_cells(data, page_size, cells, k + 1, q, tcols, fuel, Seq::empty()) {
                    Ok(y) => {
                        assert((acc + rows) + y =~= acc + ((Seq::<Seq<Seq<char>>>::empty() + rows)
                            + y));
                    },
                    Err(_) => {},
                }
            },
            Err(_) => {},
        }
    } else {
        assert(acc + Seq::<Seq<Seq<char>>>::empty() =~= acc);
    }
}

proof fn lemma_scan_cells_is_traversal(
    data: Seq<u8>,
    page_size: u16,
    cells: Seq<crate::page::TableInteriorCell>,
    k: int,
    q: SelectQueryView,
    tcols: Seq<Seq<char>>,
    fuel: nat,
)
    requires
        0 <= k <= cells.len(),
        spec_tree_cells_children(data, page_size, cells, k, fuel, Seq::empty()) is Ok,
    ensures
        spec_scan_cells(data, page_size, cells, k, q, tcols, fuel, Seq::empty()) == Ok::<
            Seq<Seq<Seq<char>>>,
            Error,
        >(
            spec_leaf_rows(
                spec_tree_cells_children(data, page_size, cells, k, fuel, Seq::empty())->Ok_0,
                0,
                tcols,
                q,
                Seq::empty(),
            ),
        ),
    decreases fuel, 1nat, cells.len() - k,
{
    if k >= cells.len() {
        assert(spec_leaf_rows(Seq::<LeafTableCellView>::empty(), 0, tcols, q, Seq::empty())
            =~= Seq::<Seq<Seq<char>>>::empty());
    } else {
        let sub = spec_tree_cells(data, page_size, cells[k].left_child_page_num, fuel)->Ok_0;
        lemma_tree_children_acc(data, page_size, cells, k + 1, fuel, Seq::empty() + sub);
        let y = spec_tree_cells_children(data, page_size, cells, k + 1, fuel, Seq::empty())->Ok_0;
        assert(spec_tree_cells_children(data, page_size, cells, k, fuel, Seq::empty()) == Ok::<
            Seq<LeafTableCellView>,
            Error,
        >((Seq::empty() + sub) + y));
        lemma_scan_is_traversal(data, page_size, cells[k].left_child_page_num, q, tcols, fuel, sub);
        let rows_sub = spec_leaf_rows(sub, 0, tcols, q, Seq::empty());
        lemma_scan_cells_is_traversal(data, page_size, cells, k + 1, q, tcols, fuel);
        lemma_scan_cells_acc(data, page_size, cells, k + 1, q, tcols, fuel, Seq::empty() + rows_sub);
        lemma_leaf_rows_concat(sub, y, tcols, q);
        assert(Seq::empty() + sub =~= sub);
        assert((Seq::empty() + sub) + y =~= sub + y);
        assert((Seq::<Seq<Seq<char>>>::empty() + rows_sub) + spec_leaf_rows(
            y,
            0,
            tcols,
            q,
            Seq::empty(),
        ) =~= spec_leaf_rows(sub + y, 0, tcols, q, Seq::empty()));
    }
}

/// The scan is the filtered projection of the traversal: whenever the
/// in-order traversal of the tree under `page_num` succeeds, scanning it
/// yields exactly the admitted projected rows of its leaf cells, in
/// traversal order.  Stated for the child-position scan; a scan that
/// starts at the root differs only on index-kind pages, where it errors
/// instead of passing them over.
pub proof fn lemma_scan_is_traversal(
    data: Seq<u8>,
    page_size: u16,
    page_num: u32,
    q: SelectQueryView,
    tcols: Seq<Seq<char>>,
    fuel: nat,
    cs: Seq<LeafTableCellView>,
)
    requires
        spec_tree_cells(data, page_size, page_num, fuel) == Ok::<Seq<LeafTableCellView>, Error>(cs),
    ensures
        spec_scan_page(data, page_size, page_num, q, tcols, fuel, false) == Ok::<
            Seq<Seq<Seq<char>>>,
            Error,
        >(spec_leaf_rows(cs, 0, tcols, q, Seq::empty())),
    decreases fuel, 0nat, 0nat,
{
    let pv = spec_read_page(data, spec_page_off(page_num, page_size), 0, page_size as int)->Ok_0;
    match pv {
        PageView::InteriorTable(p) => {
            let f2 = (fuel - 1) as nat;
            lemma_scan_cells_is_traversal(data, page_size, p.cells, 0, q, tcols, f2);
            let acc = spec_tree_cells_children(data, page_size, p.cells, 0, f2, Seq::empty())->Ok_0;
            let rp = p.page_header.rightmost_pointer->0;
            let rest = spec_tree_cells(data, page_size, rp, f2)->Ok_0;
            lemma_scan_is_traversal(data, page_size, rp, q, tcols, f2, rest);
            lemma_leaf_rows_concat(acc, rest, tcols, q);
        },
        PageView::LeafIndex(_) => {
            assert(spec_leaf_rows(cs, 0, tcols, q, Seq::empty())
                =~= Seq::<Seq<Seq<char>>>::empty());
        },
        PageView::InteriorIdx(_) => {
            assert(spec_leaf_rows(cs, 0, tcols, q, Seq::empty())
                =~= Seq::<Seq<Seq<char>>>::empty());
        },
        _ => {},
    }
}

/// A WHERE clause that no traversed row satisfies yields no rows: the scan
/// returns an empty result, not an error.
pub proof fn lemma_no_match_no_rows(
    data: Seq<u8>,
    page_size: u16,
    page_num: u32,
    q: SelectQueryView,
    tcols: Seq<Seq<char>>,
    fuel: nat,
    cs: Seq<LeafTableCellView>,
)
    requires
        spec_tree_cells(data, page_size, page_num, fuel) == Ok::<Seq<LeafTableCellView>, Error>(cs),
        forall|i: int| 0 <= i < cs.len() ==> !spec_project_row(#[trigger] cs[i], tcols, q).1,
    ensures
        spec_scan_page(data, page_size, page_num, q, tcols, fuel, false) == Ok::<
            Seq<Seq<Seq<char>>>,
            Error,
        >(Seq::empty()),
{
    lemma_scan_is_traversal(data, page_size, page_num, q, tcols, fuel, cs);
    lemma_leaf_rows_none(cs, 0, tcols, q);
}

proof fn lemma_leaf_rows_none(
    cells: Seq<LeafTableCellView>,
    i: int,
    tcols: Seq<Seq<char>>,
    q: SelectQueryView,
)
    requires
        0 <= i <= cells.len(),
        forall|j: int| 0 <= j < cells.len() ==> !spec_project_row(#[trigger] cells[j], tcols, q).1,
    ensures
        spec_leaf_rows(cells, i, tcols, q, Seq::empty()) == Seq::<Seq<Seq<char>>>::empty(),
    decreases cells.len() - i,
{
    if i < cells.len() {
        lemma_leaf_rows_none(cells, i + 1, tcols, q);
    }
}

proof fn lemma_first_ge_props(cells: Seq<crate::page::TableInteriorCell>, rowid: i64, i: int)
    requires
        0 <= i <= cells.len(),
    ensures
        ({
            let j = spec_first_ge(cells, i, rowid);
            &&& i <= j <= cells.len()
            &&& forall|k: int| i <= k < j ==> (#[trigger] cells[k]).rowid < rowid
            &&& j < cells.len() ==> rowid <= cells[j].rowid
        }),
    decreases cells.len() - i,
{
    if i < cells.len() && !(rowid <= cells[i].rowid) {
        lemma_first_ge_props(cells, rowid, i + 1);
    }
}

proof fn lemma_row_in_leaf_at(
    cells: Seq<LeafTableCellView>,
    i: int,
    k: int,
    tcols: Seq<Seq<char>>,
    q: SelectQueryView,
)
    requires
        0 <= i <= k < cells.len(),
        forall|a: int, b: int|
            0 <= a < b < cells.len() ==> (#[trigger] cells[a]).rowid < (#[trigger] cells[b]).rowid,
    ensures
        spec_row_in_leaf(cells, i, cells[k].rowid, tcols, q) == spec_project_from(
            cells[k].columns,
            cells[k].rowid,
            tcols,
            q,
            0,
            spec_empty_row(q.columns.len()),
            true,
        ).0,
    decreases k - i,
{
    if i < k {
        assert(cells[i].rowid < cells[k].rowid);
        lemma_row_in_leaf_at(cells, i + 1, k, tcols, q);
    }
}

proof fn lemma_children_segment(
    data: Seq<u8>,
    page_size: u16,
    cells: Seq<crate::page::TableInteriorCell>,
    k: int,
    fuel: nat,
    acc: Seq<LeafTableCellView>,
    c: LeafTableCellView,
)
    requires
        0 <= k <= cells.len(),
        spec_tree_cells_children(data, page_size, cells, k, fuel, acc) is Ok,
        spec_tree_cells_children(data, page_size, cells, k, fuel, acc)->Ok_0.contains(c),
    ensures
        acc.contains(c) || exists|m: int|
            k <= m < cells.len() && spec_tree_cells(
                data,
                page_size,
                (#[trigger] cells[m]).left_child_page_num,
                fuel,
            ) is Ok && spec_tree_cells(
                data,
                page_size,
                cells[m].left_child_page_num,
                fuel,
            )->Ok_0.contains(c),
    decreases cells.len() - k,
{
    if k < cells.len() {
        let sub = spec_tree_cells(data, page_size, cells[k].left_child_page_num, fuel)->Ok_0;
        lemma_children_segment(data, page_size, cells, k + 1, fuel, acc + sub, c);
        if (acc + sub).contains(c) && !acc.contains(c) {
            let idx = choose|idx: int| 0 <= idx < (acc + sub).len() && (acc + sub)[idx] == c;
            if idx < acc.len() {
                assert(acc[idx] == c);
                assert(acc.contains(c));
            } else {
                assert(sub[idx - acc.len()] == c);
                assert(sub.contains(c));
            }
        }
    }
}

/// Index/table agreement, the lookup half: in a well-formed table tree the
/// point lookup of any traversed cell's row id succeeds and returns that
/// cell's projection.
pub proof fn lemma_find_row_finds(
    data: Seq<u8>,
    page_size: u16,
    page_num: u32,
    fuel: nat,
    lo: int,
    hi: int,
    c: LeafTableCellView,
    tcols: Seq<Seq<char>>,
    q: SelectQueryView,
)
    requires
        spec_wf_table(data, page_size, page_num, fuel, lo, hi),
        spec_tree_cells(data, page_size, page_num, fuel) is Ok,
        spec_tree_cells(data, page_size, page_num, fuel)->Ok_0.contains(c),
    ensures
        spec_descend(data, page_size, page_num, c.rowid, tcols, q, (fuel + 1) as nat) == Ok::<
            Seq<Seq<char>>,
            Error,
        >(
            spec_project_from(
                c.columns,
                c.rowid,
                tcols,
                q,
                0,
                spec_empty_row(q.columns.len()),
                true,
            ).0,
        ),
    decreases fuel,
{
    let pv = spec_read_page(data, spec_page_off(page_num, page_size), 0, page_size as int)->Ok_0;
    let cs = spec_tree_cells(data, page_size, page_num, fuel)->Ok_0;
    match pv {
        PageView::LeafTable(p) => {
            let k = choose|k: int| 0 <= k < p.cells.len() && p.cells[k] == c;
            lemma_row_in_leaf_at(p.cells, 0, k, tcols, q);
        },
        PageView::InteriorTable(p) => {
            let f2 = (fuel - 1) as nat;
            let acc = spec_tree_cells_children(
                data,
                page_size,
                p.cells,
                0,
                f2,
                Seq::empty(),
            )->Ok_0;
            let rp = p.page_header.rightmost_pointer->0;
            let rest = spec_tree_cells(data, page_size, rp, f2)->Ok_0;
            let last_bound = p.cells[p.cells.len() - 1].rowid;
            lemma_tree_children_monotonic(data, page_size, p.cells, 0, f2, Seq::empty(), lo, hi);
            lemma_tree_rowids_monotonic(data, page_size, rp, f2, last_bound as int, hi);
            assert(cs == acc + rest);
            let idx = choose|idx: int| 0 <= idx < cs.len() && cs[idx] == c;
            lemma_first_ge_props(p.cells, c.rowid, 0);
            let j = spec_first_ge(p.cells, 0, c.rowid);
            if last_bound >= c.rowid {
                if idx >= acc.len() {
                    assert(rest[idx - acc.len()] == c);
                    assert(rest.contains(c));
                    assert(c.rowid > last_bound);
                    assert(false);
                }
                assert(acc[idx] == c);
                assert(acc.contains(c));
                lemma_children_segment(data, page_size, p.cells, 0, f2, Seq::empty(), c);
                assert(!Seq::<LeafTableCellView>::empty().contains(c));
                let m = choose|m: int|
                    0 <= m < p.cells.len() && spec_tree_cells(
                        data,
                        page_size,
                        (#[trigger] p.cells[m]).left_child_page_num,
                        f2,
                    ) is Ok && spec_tree_cells(
                        data,
                        page_size,
                        p.cells[m].left_child_page_num,
                        f2,
                    )->Ok_0.contains(c);
                lemma_tree_rowids_monotonic(
                    data,
                    page_size,
                    p.cells[m].left_child_page_num,
                    f2,
                    spec_prev_bound(p.cells, m, lo),
                    p.cells[m].rowid as int,
                );
                let seg = spec_tree_cells(data, page_size, p.cells[m].left_child_page_num, f2)->Ok_0;
                let cidx = choose|cidx: int| 0 <= cidx < seg.len() && seg[cidx] == c;
                assert(spec_prev_bound(p.cells, m, lo) < c.rowid <= p.cells[m].rowid);
                assert(j < p.cells.len()) by {
                    if j >= p.cells.len() {
                        assert(p.cells[p.cells.len() - 1].rowid < c.rowid);
                    }
                }
                assert(m == j) by {
                    if m < j {
                        assert(p.cells[m].rowid < c.rowid);
                    }
                    if m > j {
                        assert(p.cells[j].rowid <= p.cells[m - 1].rowid);
                        assert(c.rowid <= p.cells[j].rowid);
                    }
                }
                lemma_find_row_finds(
                    data,
                    page_size,
                    p.cells[j].left_child_page_num,
                    f2,
                    spec_prev_bound(p.cells, j, lo),
                    p.cells[j].rowid as int,
                    c,
                    tcols,
                    q,
                );
                assert(fuel == f2 + 1);
            } else {
                if idx < acc.len() {
                    assert(acc[idx] == c);
                    assert(acc.contains(c));
                    assert(c.rowid <= last_bound);
                    assert(false);
                }
                assert(rest[idx - acc.len()] == c);
                assert(rest.contains(c));
                lemma_find_row_finds(data, page_size, rp, f2, last_bound as int, hi, c, tcols, q);
                assert(fuel == f2 + 1);
            }
        },
        _ => {
            assert(false);
        },
    }
}

// ------------------------------------------------------------------
// Executable rendering and projection
// ------------------------------------------------------------------
fn render_column(col: &Column, rowid: i64) -> (r: String)
    ensures
        r@ == spec_render_column(col@, rowid),
{
    match col {
        Column::Str(s) => s.clone(),
        Column::I8(v) => i64_to_string(*v as i64),
        Column::I16(v) => i64_to_string(*v as i64),
        Column::I24(v) => i64_to_string(*v as i64),
        Column::Zero => {
            let r = String::from_str("0");
            proof {
                reveal_strlit("0");
                assert(r@ =~= seq!['0']);
            }
            r
        },
        Column::One => {
            let r = String::from_str("1");
            proof {
                reveal_strlit("1");
                assert(r@ =~= seq!['1']);
            }
            r
        },
        Column::Null => i64_to_string(rowid),
    }
}

#[verifier::loop_isolation(false)]
fn project_from(
    cell_cols: &Vec<Column>,
    rowid: i64,
    table_info: &TableInfo,
    query: &SelectQuery,
    initial_write: bool,
) -> (r: (Vec<String>, bool))
    ensures
        (r.0.deep_view(), r.1) == spec_project_from(
            cell_cols.deep_view(),
            rowid,
            table_info@.columns,
            query@,
            0,
            spec_empty_row(query@.columns.len()),
            initial_write,
        ),
{
    let mut row: Vec<String> = Vec::new();
    let mut p: usize = 0;
    proof {
        assert(row.deep_view() =~~= spec_empty_row(0));
    }
    while p < query.columns.len()
        invariant
            p <= query@.columns.len(),
            row.deep_view() == spec_empty_row(p as nat),
        decreases query@.columns.len() - p,
    {
        let ghost prev = row.deep_view();
        let blank = String::new();
        let ghost bv = blank@;
        row.push(blank);
        proof {
            assert(row.deep_view() =~~= prev.push(bv));
            assert(row.deep_view() =~~= spec_empty_row((p + 1) as nat));
        }
        p = p + 1;
    }
    let mut write_row = initial_write;
    let mut i: usize = 0;
    while i < table_info.columns.len()
        invariant
            i <= table_info@.columns.len(),
            row.deep_view().len() == query@.columns.len(),
            spec_project_from(
                cell_cols.deep_view(),
                rowid,
                table_info@.columns,
                query@,
                i as int,
                row.deep_view(),
                write_row,
            ) == spec_project_from(
                cell_cols.deep_view(),
                rowid,
                table_info@.columns,
                query@,
                0,
                spec_empty_row(query@.columns.len()),
                initial_write,
            ),
        decreases table_info@.columns.len() - i,
    {
        if i < cell_cols.len() {
            proof {
                assert(cell_cols.deep_view()[i as int] == cell_cols@[i as int]@);
                assert(table_info@.columns[i as int] == table_info.columns@[i as int]@);
            }
            let value = render_column(&cell_cols[i], rowid);
            let hit: bool = match (&query.where_column, &query.where_value) {
                (Some(wc), Some(wv)) => string_eq(wc, &table_info.columns[i]) && string_eq(
                    wv,
                    &value,
                ),
                _ => false,
            };
            proof {
                assert(hit == spec_where_hit(query@, table_info@.columns[i as int], value@));
            }
            write_row = write_row || hit;
            let ghost row0 = row.deep_view();
            let mut p2: usize = 0;
            while p2 < query.columns.len()
                invariant
                    p2 <= query@.columns.len(),
                    row.deep_view().len() == row0.len(),
                    row0.len() == query@.columns.len(),
                    forall|pp: int| 0 <= pp < p2 ==> row.deep_view()[pp] == (if query@.columns[pp]
                        == table_info@.columns[i as int] {
                        value@
                    } else {
                        row0[pp]
                    }),
                    forall|pp: int| p2 <= pp < row0.len() ==> row.deep_view()[pp] == row0[pp],
                decreases query@.columns.len() - p2,
            {
                proof {
                    assert(query@.columns[p2 as int] == query.columns@[p2 as int]@);
                }
                if string_eq(&query.columns[p2], &table_info.columns[i]) {
                    let v2 = value.clone();
                    let ghost v2v = v2@;
                    let ghost before = row@;
                    let ghost before_dv = row.deep_view();
                    proof {
                        assert(forall|pp: int| 0 <= pp < before.len() ==> before_dv[pp] == (
                        #[trigger] before[pp])@);
                    }
                    let slot = &mut row[p2];
                    *slot = v2;
                    proof {
                        assert(v2v == value@);
                        assert(row@[p2 as int]@ == value@);
                        assert(forall|pp: int| 0 <= pp < before.len() && pp != p2
                            ==> row@[pp] == before[pp]);
                        assert(forall|pp: int| 0 <= pp < before.len() && pp != p2
                            ==> row.deep_view()[pp] == before[pp]@);
                        assert(row.deep_view()[p2 as int] == row@[p2 as int]@);
                        assert(row.deep_view()[p2 as int] == value@);
                    }
                }
                p2 = p2 + 1;
            }
            proof {
                assert(row.deep_view() =~~= spec_place(
                    query@.columns,
                    table_info@.columns[i as int],
                    value@,
                    row0,
                ));
            }
        }
        i = i + 1;
    }
    (row, write_row)
}

#[verifier::loop_isolation(false)]
fn query_leaf_page(leaf_page: &LeafTablePage, query: &SelectQuery, table_info: &TableInfo) -> (r:
    Vec<Vec<String>>)
    ensures
        r.deep_view() == spec_leaf_rows(
            leaf_page@.cells,
            0,
            table_info@.columns,
            query@,
            Seq::empty(),
        ),
{
    let mut rows: Vec<Vec<String>> = Vec::new();
    let mut i: usize = 0;
    proof {
        assert(rows.deep_view() =~~= Seq::<Seq<Seq<char>>>::empty());
    }
    while i < leaf_page.cells.len()
        invariant
            i <= leaf_page.cells@.len(),
            spec_leaf_rows(
                leaf_page@.cells,
                i as int,
                table_info@.columns,
                query@,
                rows.deep_view(),
            ) == spec_leaf_rows(leaf_page@.cells, 0, table_info@.columns, query@, Seq::empty()),
        decreases leaf_page.cells@.len() - i,
    {
        proof {
            assert(leaf_page@.cells[i as int] == leaf_page.cells@[i as int]@);
        }
        let cell = &leaf_page.cells[i];
        let init_write = match &query.where_column {
            Some(_) => false,
            None => true,
        };
        let (row, write_row) = project_from(
            &cell.record_body.columns,
            cell.rowid,
            table_info,
            query,
            init_write,
        );
        if write_row {
            let ghost rv = row.deep_view();
            let ghost prev = rows.deep_view();
            rows.push(row);
            proof {
                assert(rows.deep_view() =~~= prev.push(rv));
            }
        }
        i = i + 1;
    }
    rows
}

// ------------------------------------------------------------------
// Executable scan plan
// ------------------------------------------------------------------
/// The byte offset of a page, pages being numbered from 1.
fn page_offset_of(page_num: u32, page_size: u16) -> (r: u64)
    requires
        page_num >= 1,
    ensures
        r as int == spec_page_off(page_num, page_size),
        r < 0x1000000000000,
{
    let a: u64 = (page_num - 1) as u64;
    let b: u64 = page_size as u64;
    proof {
        assert(a * b < 0x1000000000000) by (nonlinear_arith)
            requires
                a < 0x100000000,
                b < 0x10000,
        ;
    }
    a * b
}
#[verifier::loop_isolation(false)]
fn scan_table_page(
    data: &[u8],
    page_size: u16,
    page_num: u32,
    query: &SelectQuery,
    table_info: &TableInfo,
    fuel: u64,
    root: bool,
) -> (r: Result<Vec<Vec<String>>, Error>)
    requires
        data@.len() < 0x8000000000000000,
    ensures
        spec_scan_page(
            data@,
            page_size,
            page_num,
            query@,
            table_info@.columns,
            fuel as nat,
            root,
        ) matches Ok(rows) ==> r matches Ok(v) && v.deep_view() == rows,
        spec_scan_page(data@, page_size, page_num, query@, table_info@.columns, fuel as nat, root)
            matches Err(e) ==> r == Err::<Vec<Vec<String>>, Error>(e),
    decreases fuel, 0nat, 0nat,
{
    if page_num == 0 {
        return Err(Error::NegativePageIndex);
    }
    let off: u64 = page_offset_of(page_num, page_size);
    match read_page(data, off, 0, page_size) {
        Err(e) => Err(e),
        Ok(Page::LeafTable(p)) => Ok(query_leaf_page(&p, query, table_info)),
        Ok(Page::InteriorTable(p)) => {
            if fuel == 0 {
                return Err(Error::CorruptIndex);
            }
            let mut rows: Vec<Vec<String>> = Vec::new();
            let mut i: usize = 0;
            proof {
                assert(rows.deep_view() =~~= Seq::<Seq<Seq<char>>>::empty());
            }
            while i < p.cells.len()
                invariant
                    i <= p.cells@.len(),
                    spec_scan_cells(
                        data@,
                        page_size,
                        p@.cells,
                        i as int,
                        query@,
                        table_info@.columns,
                        (fuel - 1) as nat,
                        rows.deep_view(),
                    ) == spec_scan_cells(
                        data@,
                        page_size,
                        p@.cells,
                        0,
                        query@,
                        table_info@.columns,
                        (fuel - 1) as nat,
                        Seq::empty(),
                    ),
                decreases p.cells@.len() - i,
            {
                let child = p.cells[i].left_child_page_num;
                match scan_table_page(data, page_size, child, query, table_info, fuel - 1, false) {
                    Ok(mut sub) => {
                        let ghost subv = sub.deep_view();
                        let ghost prev = rows.deep_view();
                        rows.append(&mut sub);
                        proof {
                            assert(rows.deep_view() =~~= prev + subv);
                        }
                        i = i + 1;
                    },
                    Err(e) => {
                        return Err(e);
                    },
                }
            }
            match p.page_header.rightmost_pointer {
                Some(rp) => match scan_table_page(
                    data,
                    page_size,
                    rp,
                    query,
                    table_info,
                    fuel - 1,
                    false,
                ) {
                    Ok(mut sub) => {
                        let ghost subv = sub.deep_view();
                        let ghost prev = rows.deep_view();
                        rows.append(&mut sub);
                        proof {
                            assert(rows.deep_view() =~~= prev + subv);
                        }
                        Ok(rows)
                    },
                    Err(e) => Err(e),
                },
                None => Err(Error::CorruptPageHeader),
            }
        },
        Ok(_) => {
            if root {
                Err(Error::CorruptIndex)
            } else {
                let empty_rows: Vec<Vec<String>> = Vec::new();
                proof {
                    assert(empty_rows.deep_view() =~~= Seq::<Seq<Seq<char>>>::empty());
                }
                Ok(empty_rows)
            }
        },
    }
}

impl Db {
    /// The table names the catalog holds, in its (name-sorted) order.
    pub fn table_names(&self) -> (r: Vec<String>)
        ensures
            r.deep_view() == Seq::new(self@.tables.len(), |i: int| self@.tables[i].0),
    {
        let mut names: Vec<String> = Vec::new();
        let mut i: usize = 0;
        proof {
            assert(names.deep_view() =~~= Seq::new(0, |i: int| self@.tables[i].0));
        }
        while i < self.table_infos.len()
            invariant
                i <= self.table_infos@.len(),
                self@.tables.len() == self.table_infos@.len(),
                names.deep_view() == Seq::new(i as nat, |j: int| self@.tables[j].0),
            decreases self.table_infos@.len() - i,
        {
            let ghost prev = names.deep_view();
            let nm = self.table_infos[i].0.clone();
            let ghost nmv = nm@;
            names.push(nm);
            proof {
                assert(names.deep_view() =~~= prev.push(nmv));
                assert(nmv == self@.tables[i as int].0);
                assert(names.deep_view() =~~= Seq::new((i + 1) as nat, |j: int| self@.tables[j].0));
            }
            i = i + 1;
        }
        names
    }

    /// COUNT(*) on `table_name`: the number of rows a full traversal of its
    /// tree yields.
    pub fn count_rows(&self, table_name: &str) -> (r: Result<usize, Error>)
        requires
            self@.data.len() < 0x8000000000000000,
        ensures
            spec_count_rows(self@, table_name@) matches Ok(n) ==> r matches Ok(c) && c as int == n,
            spec_count_rows(self@, table_name@) matches Err(e) ==> r == Err::<usize, Error>(e),
    {
        let name = String::from_str(table_name);
        let ti = match find_table(&self.table_infos, &name) {
            Some(i) => i,
            None => {
                return Err(Error::UnknownTable);
            },
        };
        let q0 = SelectQuery {
            table_name: name,
            columns: Vec::new(),
            where_column: None,
            where_value: None,
        };
        proof {
            assert(q0@.columns =~~= spec_count_query(table_name@).columns);
            assert(q0@ == spec_count_query(table_name@));
        }
        let fuel = self.fuel_of();
        let info = &self.table_infos[ti].1;
        match scan_table_page(
            self.data.as_slice(),
            self.header.page_size,
            info.root_page_num,
            &q0,
            info,
            fuel,
            true,
        ) {
            Ok(rows) => Ok(rows.len()),
            Err(e) => Err(e),
        }
    }

    /// The depth budget for tree walks over this file.
    fn fuel_of(&self) -> (r: u64)
        requires
            self@.data.len() < 0x8000000000000000,
        ensures
            r as nat == spec_fuel(self@.data.len() as int, self@.page_size),
    {
        if self.header.page_size == 0 {
            2
        } else {
            (self.data.len() as u64) / (self.header.page_size as u64) + 2
        }
    }
}

// ------------------------------------------------------------------
// Executable point lookup
// ------------------------------------------------------------------
proof fn lemma_first_ge_from(
    cells: Seq<crate::page::TableInteriorCell>,
    rowid: i64,
    i: int,
    j: int,
)
    requires
        0 <= i <= j <= cells.len(),
        forall|k: int| i <= k < j ==> (#[trigger] cells[k]).rowid < rowid,
        j < cells.len() ==> rowid <= cells[j].rowid,
    ensures
        spec_first_ge(cells, i, rowid) == j,
    decreases j - i,
{
    if i < j {
        lemma_first_ge_from(cells, rowid, i + 1, j);
    }
}

#[verifier::loop_isolation(false)]
fn get_row_leaf(p: &LeafTablePage, rowid: i64, table_info: &TableInfo, query: &SelectQuery) -> (r:
    Vec<String>)
    ensures
        r.deep_view() == spec_row_in_leaf(p@.cells, 0, rowid, table_info@.columns, query@),
{
    let mut i: usize = 0;
    while i < p.cells.len()
        invariant
            i <= p.cells@.len(),
            spec_row_in_leaf(p@.cells, i as int, rowid, table_info@.columns, query@)
                == spec_row_in_leaf(p@.cells, 0, rowid, table_info@.columns, query@),
        decreases p.cells@.len() - i,
    {
        proof {
            assert(p@.cells[i as int] == p.cells@[i as int]@);
        }
        let cell = &p.cells[i];
        if cell.rowid == rowid {
            let (row, _w) = project_from(
                &cell.record_body.columns,
                cell.rowid,
                table_info,
                query,
                true,
            );
            return row;
        }
        i = i + 1;
    }
    let empty_vec: Vec<String> = Vec::new();
    proof {
        assert(empty_vec.deep_view() =~~= Seq::<Seq<char>>::empty());
    }
    empty_vec
}

#[verifier::loop_isolation(false)]
fn get_row_fueled(
    data: &[u8],
    page_size: u16,
    page: &Page,
    rowid: i64,
    table_info: &TableInfo,
    query: &SelectQuery,
    fuel: u64,
) -> (r: Result<Vec<String>, Error>)
    requires
        data@.len() < 0x8000000000000000,
    ensures
        spec_get_row(
            data@,
            page_size,
            page@,
            rowid,
            table_info@.columns,
            query@,
            fuel as nat,
        ) matches Ok(row) ==> r matches Ok(v) && v.deep_view() == row,
        spec_get_row(data@, page_size, page@, rowid, table_info@.columns, query@, fuel as nat)
            matches Err(e) ==> r == Err::<Vec<String>, Error>(e),
    decreases fuel, 1nat,
{
    match page {
        Page::LeafTable(p) => Ok(get_row_leaf(p, rowid, table_info, query)),
        Page::InteriorTable(p) => {
            if p.cells.len() == 0 {
                return Err(Error::CorruptIndex);
            }
            let last = p.cells[p.cells.len() - 1].rowid;
            if last >= rowid {
                let mut j: usize = 0;
                while j < p.cells.len() && p.cells[j].rowid < rowid
                    invariant
                        j <= p.cells@.len(),
                        forall|k: int| 0 <= k < j ==> (#[trigger] p.cells@[k]).rowid < rowid,
                    decreases p.cells@.len() - j,
                {
                    j = j + 1;
                }
                proof {
                    lemma_first_ge_from(p@.cells, rowid, 0, j as int);
                }
                if j >= p.cells.len() {
                    let empty_vec: Vec<String> = Vec::new();
                    proof {
                        assert(empty_vec.deep_view() =~~= Seq::<Seq<char>>::empty());
                    }
                    Ok(empty_vec)
                } else {
                    descend_fueled(
                        data,
                        page_size,
                        p.cells[j].left_child_page_num,
                        rowid,
                        table_info,
                        query,
                        fuel,
                    )
                }
            } else {
                match p.page_header.rightmost_pointer {
                    Some(rp) => descend_fueled(
                        data,
                        page_size,
                        rp,
                        rowid,
                        table_info,
                        query,
                        fuel,
                    ),
                    None => Err(Error::CorruptPageHeader),
                }
            }
        },
        _ => Err(Error::CorruptIndex),
    }
}

fn descend_fueled(
    data: &[u8],
    page_size: u16,
    page_num: u32,
    rowid: i64,
    table_info: &TableInfo,
    query: &SelectQuery,
    fuel: u64,
) -> (r: Result<Vec<String>, Error>)
    requires
        data@.len() < 0x8000000000000000,
    ensures
        spec_descend(
            data@,
            page_size,
            page_num,
            rowid,
            table_info@.columns,
            query@,
            fuel as nat,
        ) matches Ok(row) ==> r matches Ok(v) && v.deep_view() == row,
        spec_descend(data@, page_size, page_num, rowid, table_info@.columns, query@, fuel as nat)
            matches Err(e) ==> r == Err::<Vec<String>, Error>(e),
    decreases fuel, 0nat,
{
    if page_num == 0 {
        return Err(Error::NegativePageIndex);
    }
    let off = page_offset_of(page_num, page_size);
    match read_page(data, off, 0, page_size) {
        Err(e) => Err(e),
        Ok(child) => {
            if fuel == 0 {
                Err(Error::CorruptIndex)
            } else {
                get_row_fueled(data, page_size, &child, rowid, table_info, query, fuel - 1)
            }
        },
    }
}

// ------------------------------------------------------------------
// Executable index search
// ------------------------------------------------------------------
#[verifier::loop_isolation(false)]
fn query_idx_fueled(data: &[u8], page_size: u16, page: &Page, needle: &String, fuel: u64) -> (r:
    Result<Vec<i64>, Error>)
    requires
        data@.len() < 0x8000000000000000,
    ensures
        spec_query_idx(data@, page_size, page@, needle@, fuel as nat) matches Ok(ids) ==> r
            matches Ok(v) && v@ == ids,
        spec_query_idx(data@, page_size, page@, needle@, fuel as nat) matches Err(e) ==> r == Err::<
            Vec<i64>,
            Error,
        >(e),
    decreases fuel, 2nat, 0nat,
{
    match page {
        Page::LeafIndex(p) => {
            proof {
                if p.cells@.len() > 0 {
                    assert(p@.cells[0] == p.cells@[0]@);
                }
            }
            if p.cells.len() == 0 {
                return Err(Error::CorruptIndex);
            }
            if p.cells[0].record_body.columns.len() == 0 {
                return Err(Error::CorruptIndex);
            }
            if p.cells[0].record_body.columns.len() != 2 {
                return Err(Error::UnsupportedKeyType);
            }
            let mut ids: Vec<i64> = Vec::new();
            let mut i: usize = 0;
            proof {
                assert(ids@ =~= Seq::<i64>::empty());
            }
            while i < p.cells.len()
                invariant
                    i <= p.cells@.len(),
                    spec_idx_leaf_matches(p@.cells, i as int, needle@, ids@)
                        == spec_idx_leaf_matches(p@.cells, 0, needle@, Seq::empty()),
                decreases p.cells@.len() - i,
            {
                proof {
                    assert(p@.cells[i as int] == p.cells@[i as int]@);
                    assert(forall|k: int| 0 <= k < p.cells@[i as int].record_body.columns@.len()
                        ==> p@.cells[i as int].columns[k] == (
                    #[trigger] p.cells@[i as int].record_body.columns@[k])@);
                }
                let cell = &p.cells[i];
                if cell.record_body.columns.len() != 2 {
                    return Err(Error::UnsupportedKeyType);
                }
                match &cell.record_body.columns[0] {
                    Column::Str(key) => {
                        if string_eq(key, needle) {
                            let rid: i64 = match &cell.record_body.columns[1] {
                                Column::I8(v) => *v as i64,
                                Column::I16(v) => *v as i64,
                                Column::I24(v) => *v as i64,
                                _ => {
                                    return Err(Error::CorruptIndex);
                                },
                            };
                            ids.push(rid);
                        }
                    },
                    _ => {
                        return Err(Error::UnsupportedKeyType);
                    },
                }
                i = i + 1;
            }
            Ok(ids)
        },
        Page::InteriorIdx(p) => {
            proof {
                if p.cells@.len() > 0 {
                    assert(p@.cells[0] == p.cells@[0]@);
                    assert(p@.cells[p@.cells.len() - 1] == p.cells@[p.cells@.len() - 1]@);
                }
            }
            if p.cells.len() == 0 {
                return Err(Error::CorruptIndex);
            }
            if p.cells[0].record_body.columns.len() == 0 {
                return Err(Error::CorruptIndex);
            }
            if p.cells[0].record_body.columns.len() != 2 {
                return Err(Error::UnsupportedKeyType);
            }
            let last_pos = p.cells.len() - 1;
            if p.cells[last_pos].record_body.columns.len() == 0 {
                return Err(Error::CorruptIndex);
            }
            proof {
                assert(forall|k: int| 0 <= k < p.cells@[0].record_body.columns@.len()
                    ==> p@.cells[0].columns[k] == (
                #[trigger] p.cells@[0].record_body.columns@[k])@);
                assert(forall|k: int| 0 <= k < p.cells@[last_pos as int].record_body.columns@.len()
                    ==> p@.cells[last_pos as int].columns[k] == (
                #[trigger] p.cells@[last_pos as int].record_body.columns@[k])@);
            }
            let first_key: &String = match &p.cells[0].record_body.columns[0] {
                Column::Str(s) => s,
                _ => {
                    return Err(Error::UnsupportedKeyType);
                },
            };
            let last_key: &String = match &p.cells[last_pos].record_body.columns[0] {
                Column::Str(s) => s,
                _ => {
                    return Err(Error::UnsupportedKeyType);
                },
            };
            let needle_chars = str_to_chars(needle.as_str());
            let first_chars = str_to_chars(first_key.as_str());
            let last_chars = str_to_chars(last_key.as_str());
            if !chars_lt(&needle_chars, &first_chars) && !chars_lt(&last_chars, &needle_chars) {
                let mut ids: Vec<i64> = Vec::new();
                let mut i: usize = 0;
                proof {
                    assert(ids@ =~= Seq::<i64>::empty());
                }
                while i < p.cells.len()
                    invariant
                        i <= p.cells@.len(),
                        spec_idx_interior_matches(
                            data@,
                            page_size,
                            p@.cells,
                            i as int,
                            needle@,
                            fuel as nat,
                            ids@,
                        ) == spec_idx_interior_matches(
                            data@,
                            page_size,
                            p@.cells,
                            0,
                            needle@,
                            fuel as nat,
                            Seq::empty(),
                        ),
                    decreases p.cells@.len() - i,
                {
                    proof {
                        assert(p@.cells[i as int] == p.cells@[i as int]@);
                        assert(forall|k: int| 0 <= k < p.cells@[i as int].record_body.columns@.len()
                            ==> p@.cells[i as int].columns[k] == (
                        #[trigger] p.cells@[i as int].record_body.columns@[k])@);
                    }
                    let cell = &p.cells[i];
                    if cell.record_body.columns.len() != 2 {
                        return Err(Error::UnsupportedKeyType);
                    }
                    match &cell.record_body.columns[0] {
                        Column::Str(key) => {
                            if string_eq(key, needle) {
                                let rid: i64 = match &cell.record_body.columns[1] {
                                    Column::I8(v) => *v as i64,
                                    Column::I16(v) => *v as i64,
                                    Column::I24(v) => *v as i64,
                                    _ => {
                                        return Err(Error::CorruptIndex);
                                    },
                                };
                                ids.push(rid);
                            }
                        },
                        _ => {
                            return Err(Error::UnsupportedKeyType);
                        },
                    }
                    match idx_descend_fueled(
                        data,
                        page_size,
                        cell.left_child_page_num,
                        needle,
                        fuel,
                    ) {
                        Ok(mut sub) => {
                            let ghost subv = sub@;
                            let ghost prev = ids@;
                            ids.append(&mut sub);
                            proof {
                                assert(ids@ =~= prev + subv);
                            }
                        },
                        Err(e) => {
                            return Err(e);
                        },
                    }
                    i = i + 1;
                }
                Ok(ids)
            } else {
                match p.page_header.rightmost_pointer {
                    Some(rp) => idx_descend_fueled(data, page_size, rp, needle, fuel),
                    None => Err(Error::CorruptPageHeader),
                }
            }
        },
        _ => Err(Error::CorruptIndex),
    }
}

fn idx_descend_fueled(data: &[u8], page_size: u16, page_num: u32, needle: &String, fuel: u64) -> (r:
    Result<Vec<i64>, Error>)
    requires
        data@.len() < 0x8000000000000000,
    ensures
        spec_idx_descend(data@, page_size, page_num, needle@, fuel as nat) matches Ok(ids) ==> r
            matches Ok(v) && v@ == ids,
        spec_idx_descend(data@, page_size, page_num, needle@, fuel as nat) matches Err(e) ==> r
            == Err::<Vec<i64>, Error>(e),
    decreases fuel, 0nat, 0nat,
{
    if page_num == 0 {
        return Err(Error::NegativePageIndex);
    }
    let off = page_offset_of(page_num, page_size);
    match read_page(data, off, 0, page_size) {
        Err(e) => Err(e),
        Ok(child) => {
            if fuel == 0 {
                Err(Error::CorruptIndex)
            } else {
                query_idx_fueled(data, page_size, &child, needle, fuel - 1)
            }
        },
    }
}

/// Look the index up and search it from its root.
pub open spec fn spec_query_idx_top(db: DbView, table_name: Seq<char>, needle: Seq<char>) -> Result<
    Seq<i64>,
    Error,
> {
    match spec_assoc_lookup(db.idxs, table_name) {
        None => Err(Error::UnknownTable),
        Some(ix) => if ix.root_page_num == 0 {
            Err(Error::NegativePageIndex)
        } else {
            match spec_read_page(
                db.data,
                spec_page_off(ix.root_page_num, db.page_size),
                0,
                db.page_size as int,
            ) {
                Err(e) => Err(e),
                Ok(root) => spec_query_idx(
                    db.data,
                    db.page_size,
                    root,
                    needle,
                    spec_fuel(db.data.len() as int, db.page_size),
                ),
            }
        },
    }
}

impl Db {
    /// The row ids the table's index holds for `looking_for`, in the order
    /// the index search delivers them.
    pub fn query_idx(&self, table_name: &str, looking_for: &String) -> (r: Result<
        Option<Vec<i64>>,
        Error,
    >)
        requires
            self@.data.len() < 0x8000000000000000,
        ensures
            spec_query_idx_top(self@, table_name@, looking_for@) matches Ok(ids) ==> r matches Ok(o)
                && o matches Some(v) && v@ == ids,
            spec_query_idx_top(self@, table_name@, looking_for@) matches Err(e) ==> r == Err::<
                Option<Vec<i64>>,
                Error,
            >(e),
    {
        let name = String::from_str(table_name);
        let ip = match find_idx(&self.idx_infos, &name) {
            Some(i) => i,
            None => {
                return Err(Error::UnknownTable);
            },
        };
        let ix = &self.idx_infos[ip].1;
        if ix.root_page_num == 0 {
            return Err(Error::NegativePageIndex);
        }
        let off = page_offset_of(ix.root_page_num, self.header.page_size);
        let root = match read_page(self.data.as_slice(), off, 0, self.header.page_size) {
            Ok(pg) => pg,
            Err(e) => {
                return Err(e);
            },
        };
        let fuel = self.fuel_of();
        match query_idx_fueled(self.data.as_slice(), self.header.page_size, &root, looking_for, fuel) {
            Ok(ids) => Ok(Some(ids)),
            Err(e) => Err(e),
        }
    }

    /// Point lookup: the projected row whose row id is `rowid` beneath the
    /// decoded `page`, or an empty row when the table does not hold it.
    pub fn get_row(
        &self,
        page: &Page,
        rowid: i64,
        table_info: &TableInfo,
        query: &SelectQuery,
    ) -> (r: Result<Vec<String>, Error>)
        requires
            self@.data.len() < 0x8000000000000000,
        ensures
            spec_get_row(
                self@.data,
                self@.page_size,
                page@,
                rowid,
                table_info@.columns,
                query@,
                spec_fuel(self@.data.len() as int, self@.page_size),
            ) matches Ok(row) ==> r matches Ok(v) && v.deep_view() == row,
            spec_get_row(
                self@.data,
                self@.page_size,
                page@,
                rowid,
                table_info@.columns,
                query@,
                spec_fuel(self@.data.len() as int, self@.page_size),
            ) matches Err(e) ==> r == Err::<Vec<String>, Error>(e),
    {
        let fuel = self.fuel_of();
        get_row_fueled(
            self.data.as_slice(),
            self.header.page_size,
            page,
            rowid,
            table_info,
            query,
            fuel,
        )
    }

    /// Execute a SELECT: resolve the table, check the named columns, then
    /// run the index plan when an index on the table covers the WHERE
    /// column, and the scan plan otherwise.
    #[verifier::loop_isolation(false)]
    pub fn execute_select(&self, query: SelectQuery) -> (r: Result<Vec<Vec<String>>, Error>)
        requires
            self@.data.len() < 0x8000000000000000,
        ensures
            spec_execute_select(self@, query@) matches Ok(rows) ==> r matches Ok(v) && v.deep_view()
                == rows,
            spec_execute_select(self@, query@) matches Err(e) ==> r == Err::<
                Vec<Vec<String>>,
                Error,
            >(e),
    {
        let ti = match find_table(&self.table_infos, &query.table_name) {
            Some(i) => i,
            None => {
                return Err(Error::UnknownTable);
            },
        };
        let table_info = &self.table_infos[ti].1;
        if !cols_known(table_info, &query) {
            return Err(Error::UnknownColumn);
        }
        let fuel = self.fuel_of();
        let mut use_index = false;
        let mut idx_pos: usize = 0;
        match (&query.where_column, &query.where_value) {
            (Some(wc), Some(_wv)) => {
                match find_idx(&self.idx_infos, &query.table_name) {
                    Some(ip) => {
                        if contains_string(&self.idx_infos[ip].1.columns, wc) {
                            use_index = true;
                            idx_pos = ip;
                        }
                    },
                    None => {},
                }
            },
            _ => {},
        }
        if use_index {
            let ix = &self.idx_infos[idx_pos].1;
            if ix.root_page_num == 0 {
                return Err(Error::NegativePageIndex);
            }
            let idx_off = page_offset_of(ix.root_page_num, self.header.page_size);
            let idx_root = match read_page(self.data.as_slice(), idx_off, 0, self.header.page_size)
                {
                Ok(pg) => pg,
                Err(e) => {
                    return Err(e);
                },
            };
            let ids = match &query.where_value {
                Some(wv) => {
                    match query_idx_fueled(
                        self.data.as_slice(),
                        self.header.page_size,
                        &idx_root,
                        wv,
                        fuel,
                    ) {
                        Ok(v) => v,
                        Err(e) => {
                            return Err(e);
                        },
                    }
                },
                None => {
                    proof {
                        assert(false);
                    }
                    Vec::new()
                },
            };
            if table_info.root_page_num == 0 {
                return Err(Error::NegativePageIndex);
            }
            let t_off = page_offset_of(table_info.root_page_num, self.header.page_size);
            let table_root = match read_page(self.data.as_slice(), t_off, 0, self.header.page_size)
                {
                Ok(pg) => pg,
                Err(e) => {
                    return Err(e);
                },
            };
            let mut res: Vec<Vec<String>> = Vec::new();
            let mut i: usize = 0;
            proof {
                assert(res.deep_view() =~~= Seq::<Seq<Seq<char>>>::empty());
            }
            while i < ids.len()
                invariant
                    i <= ids@.len(),
                    spec_fetch_rows(
                        self@.data,
                        self@.page_size,
                        table_root@,
                        ids@,
                        i as int,
                        table_info@.columns,
                        query@,
                        fuel as nat,
                        res.deep_view(),
                    ) == spec_fetch_rows(
                        self@.data,
                        self@.page_size,
                        table_root@,
                        ids@,
                        0,
                        table_info@.columns,
                        query@,
                        fuel as nat,
                        Seq::empty(),
                    ),
                decreases ids@.len() - i,
            {
                match get_row_fueled(
                    self.data.as_slice(),
                    self.header.page_size,
                    &table_root,
                    ids[i],
                    table_info,
                    &query,
                    fuel,
                ) {
                    Ok(row) => {
                        if row.len() > 0 {
                            let ghost rv = row.deep_view();
                            let ghost prev = res.deep_view();
                            res.push(row);
                            proof {
                                assert(res.deep_view() =~~= prev.push(rv));
                            }
                        }
                        i = i + 1;
                    },
                    Err(e) => {
                        return Err(e);
                    },
                }
            }
            Ok(res)
        } else {
            scan_table_page(
                self.data.as_slice(),
                self.header.page_size,
                table_info.root_page_num,
                &query,
                table_info,
                fuel,
                true,
            )
        }
    }
}

// ------------------------------------------------------------------
// Column membership
// ------------------------------------------------------------------
fn contains_string(v: &Vec<String>, s: &String) -> (r: bool)
    ensures
        r == v.deep_view().contains(s@),
{
    let mut i: usize = 0;
    while i < v.len()
        invariant
            i <= v@.len(),
            forall|k: int| 0 <= k < i ==> v.deep_view()[k] != s@,
        decreases v@.len() - i,
    {
        proof {
            assert(v.deep_view()[i as int] == v@[i as int]@);
        }
        if string_eq(&v[i], s) {
            proof {
                assert(v.deep_view()[i as int] == s@);
            }
            return true;
        }
        i = i + 1;
    }
    proof {
        assert(forall|k: int| 0 <= k < v.deep_view().len() ==> v.deep_view()[k] != s@);
    }
    false
}

#[verifier::loop_isolation(false)]
fn cols_known(table_info: &TableInfo, query: &SelectQuery) -> (r: bool)
    ensures
        r == spec_cols_known(table_info@.columns, query@),
{
    let mut i: usize = 0;
    while i < query.columns.len()
        invariant
            i <= query@.columns.len(),
            forall|k: int| 0 <= k < i ==> table_info@.columns.contains(#[trigger] query@.columns[k]),
        decreases query@.columns.len() - i,
    {
        proof {
            assert(query@.columns[i as int] == query.columns@[i as int]@);
        }
        if !contains_string(&table_info.columns, &query.columns[i]) {
            return false;
        }
        i = i + 1;
    }
    match &query.where_column {
        Some(wc) => contains_string(&table_info.columns, wc),
        None => true,
    }
}

/// The position of `name` in the catalog, if the catalog holds it.
fn find_table(infos: &Vec<(String, TableInfo)>, name: &String) -> (r: Option<usize>)
    ensures
        spec_assoc_lookup(table_assoc_view(infos@), name@) matches Some(t) ==> r matches Some(i)
            && i < infos@.len() && infos@[i as int].1@ == t && infos@[i as int].0@ == name@,
        spec_assoc_lookup(table_assoc_view(infos@), name@) is None ==> r is None,
{
    let ghost assoc = table_assoc_view(infos@);
    let mut i: usize = 0;
    proof {
        assert(assoc.skip(0) =~= assoc);
    }
    while i < infos.len()
        invariant
            i <= infos@.len(),
            assoc == table_assoc_view(infos@),
            assoc.len() == infos@.len(),
            spec_assoc_lookup(assoc, name@) == spec_assoc_lookup(assoc.skip(i as int), name@),
        decreases infos@.len() - i,
    {
        proof {
            assert(assoc.skip(i as int)[0] == assoc[i as int]);
            assert(assoc.skip(i as int).drop_first() =~= assoc.skip(i as int + 1));
        }
        if string_eq(&infos[i].0, name) {
            return Some(i);
        }
        i = i + 1;
    }
    proof {
        assert(assoc.skip(i as int).len() == 0);
    }
    None
}

/// The position of `name` in the index catalog, if it holds the table.
fn find_idx(infos: &Vec<(String, IdxInfo)>, name: &String) -> (r: Option<usize>)
    ensures
        spec_assoc_lookup(idx_assoc_view(infos@), name@) matches Some(t) ==> r matches Some(i) && i
            < infos@.len() && infos@[i as int].1@ == t && infos@[i as int].0@ == name@,
        spec_assoc_lookup(idx_assoc_view(infos@), name@) is None ==> r is None,
{
    let ghost assoc = idx_assoc_view(infos@);
    let mut i: usize = 0;
    proof {
        assert(assoc.skip(0) =~= assoc);
    }
    while i < infos.len()
        invariant
            i <= infos@.len(),
            assoc == idx_assoc_view(infos@),
            assoc.len() == infos@.len(),
            spec_assoc_lookup(assoc, name@) == spec_assoc_lookup(assoc.skip(i as int), name@),
        decreases infos@.len() - i,
    {
        proof {
            assert(assoc.skip(i as int)[0] == assoc[i as int]);
            assert(assoc.skip(i as int).drop_first() =~= assoc.skip(i as int + 1));
        }
        if string_eq(&infos[i].0, name) {
            return Some(i);
        }
        i = i + 1;
    }
    proof {
        assert(assoc.skip(i as int).len() == 0);
    }
    None
}

} // verus!
