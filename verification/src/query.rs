//! Query descriptors: the accepted SELECT shape, and the tokenizers for the
//! stored `CREATE TABLE` / `CREATE INDEX` schema SQL.
//!
//! The tokenizer accepts a name list in parentheses, quoted identifiers,
//! optional type clauses after a column name, and surrounding whitespace;
//! each executable parser returns exactly what its spec mirror computes.

use crate::error::Error;
use crate::text::{
    chars_to_string, find_char, rfind_char, spec_find_char, spec_rfind_char,
    spec_split_from, spec_trim, split_from, str_to_chars, subvec, trim_chars,
};
use vstd::prelude::*;

verus! {

// ------------------------------------------------------------------
// The SELECT descriptor
// ------------------------------------------------------------------
/// An accepted SELECT: requested columns in output order, the table, and at
/// most one equality predicate.
#[derive(Debug, PartialEq)]
pub struct SelectQuery {
    pub table_name: String,
    pub columns: Vec<String>,
    pub where_column: Option<String>,
    pub where_value: Option<String>,
}

pub ghost struct SelectQueryView {
    pub table_name: Seq<char>,
    pub columns: Seq<Seq<char>>,
    pub where_column: Option<Seq<char>>,
    pub where_value: Option<Seq<char>>,
}

impl View for SelectQuery {
    type V = SelectQueryView;

    open spec fn view(&self) -> SelectQueryView {
        SelectQueryView {
            table_name: self.table_name@,
            columns: self.columns.deep_view(),
            where_column: match &self.where_column {
                Some(c) => Some(c@),
                None => None,
            },
            where_value: match &self.where_value {
                Some(v) => Some(v@),
                None => None,
            },
        }
    }
}

// ------------------------------------------------------------------
// Spec-level schema tokenizing
// ------------------------------------------------------------------
/// Whether `s` begins with `p`.
pub open spec fn spec_starts_with(s: Seq<char>, p: Seq<char>) -> bool {
    s.len() >= p.len() && forall|j: int| 0 <= j < p.len() ==> s[j] == p[j]
}

/// One declaration's column name: the piece trimmed, then either the text
/// between double quotes, or the text up to the first space.
pub open spec fn spec_column_name(piece: Seq<char>) -> Result<Seq<char>, Error> {
    let t = spec_trim(piece);
    if t.len() > 0 && t[0] == '"' {
        let j = spec_find_char(t, '"', 1);
        if j >= t.len() {
            Err(Error::BadSchemaSql)
        } else {
            Ok(t.subrange(1, j))
        }
    } else {
        Ok(t.subrange(0, spec_find_char(t, ' ', 0)))
    }
}

/// The column names of the declarations `i..` of `pieces`, appended to `acc`.
pub open spec fn spec_column_names(pieces: Seq<Seq<char>>, i: int, acc: Seq<Seq<char>>) -> Result<
    Seq<Seq<char>>,
    Error,
>
    decreases pieces.len() - i,
{
    if i >= pieces.len() {
        Ok(acc)
    } else {
        match spec_column_name(pieces[i]) {
            Err(e) => Err(e),
            Ok(name) => spec_column_names(pieces, i + 1, acc.push(name)),
        }
    }
}

/// Tokenize a `CREATE TABLE` statement: the declarations sit between the
/// first opening parenthesis and the last closing one, separated by commas;
/// each contributes its column name, in declaration order.
pub open spec fn spec_create_table(sql: Seq<char>) -> Result<Seq<Seq<char>>, Error> {
    let o = spec_find_char(sql, '(', 0);
    let c = spec_rfind_char(sql, ')', sql.len() as int);
    if o >= sql.len() || c <= o {
        Err(Error::BadSchemaSql)
    } else {
        spec_column_names(spec_split_from(sql.subrange(o + 1, c), 0, ','), 0, Seq::empty())
    }
}

/// The first index at or after `from` where the word `on` stands between
/// spaces, case-insensitively; the length of `s` if there is none.
pub open spec fn spec_find_on(s: Seq<char>, from: int) -> int
    decreases s.len() - from,
{
    if from >= s.len() || from + 4 > s.len() {
        s.len() as int
    } else if s[from] == ' ' && (s[from + 1] == 'o' || s[from + 1] == 'O') && (s[from + 2] == 'n'
        || s[from + 2] == 'N') && s[from + 3] == ' ' {
        from
    } else {
        spec_find_on(s, from + 1)
    }
}

/// Each piece trimmed.
pub open spec fn spec_trimmed_pieces(pieces: Seq<Seq<char>>) -> Seq<Seq<char>> {
    pieces.map_values(|p: Seq<char>| spec_trim(p))
}

pub ghost struct CreateIdxQueryView {
    pub idx_name: Seq<char>,
    pub table_name: Seq<char>,
    pub columns: Seq<Seq<char>>,
}

/// Tokenize a `CREATE INDEX` statement: the index name stands between the
/// statement head and the word `on`; the table name runs to the opening
/// parenthesis; the indexed columns sit in the parentheses.
pub open spec fn spec_create_idx(sql: Seq<char>) -> Result<CreateIdxQueryView, Error> {
    let k = spec_find_on(sql, 0);
    if k >= sql.len() || k < 12 {
        Err(Error::BadSchemaSql)
    } else {
        let o = spec_find_char(sql, '(', k + 4);
        let c = spec_rfind_char(sql, ')', sql.len() as int);
        if o >= sql.len() || c <= o {
            Err(Error::BadSchemaSql)
        } else {
            Ok(
                CreateIdxQueryView {
                    idx_name: spec_trim(sql.subrange(12, k)),
                    table_name: spec_trim(sql.subrange(k + 4, o)),
                    columns: spec_trimmed_pieces(spec_split_from(sql.subrange(o + 1, c), 0, ',')),
                },
            )
        }
    }
}

pub ghost enum CreateQueryView {
    CreateTable(Seq<Seq<char>>),
    CreateIdx(CreateIdxQueryView),
}

/// Classify and tokenize one stored schema statement.
pub open spec fn spec_create_query(sql: Seq<char>) -> Result<CreateQueryView, Error> {
    if spec_starts_with(sql, "CREATE TABLE"@) {
        match spec_create_table(sql) {
            Err(e) => Err(e),
            Ok(cols) => Ok(CreateQueryView::CreateTable(cols)),
        }
    } else if spec_starts_with(sql, "CREATE INDEX"@) {
        match spec_create_idx(sql) {
            Err(e) => Err(e),
            Ok(q) => Ok(CreateQueryView::CreateIdx(q)),
        }
    } else {
        Err(Error::BadSchemaSql)
    }
}

// ------------------------------------------------------------------
// Executable schema tokenizing
// ------------------------------------------------------------------
fn starts_with_chars(v: &Vec<char>, p: &Vec<char>) -> (r: bool)
    ensures
        r == spec_starts_with(v@, p@),
{
    if v.len() < p.len() {
        return false;
    }
    let mut i: usize = 0;
    while i < p.len()
        invariant
            i <= p@.len() <= v@.len(),
            forall|j: int| 0 <= j < i ==> v@[j] == p@[j],
        decreases p@.len() - i,
    {
        if v[i] != p[i] {
            return false;
        }
        i = i + 1;
    }
    true
}

fn find_on(v: &Vec<char>, from: usize) -> (r: usize)
    requires
        from <= v@.len(),
    ensures
        r as int == spec_find_on(v@, from as int),
        from <= r <= v@.len(),
        r < v@.len() ==> r + 4 <= v@.len(),
{
    let mut i: usize = from;
    loop
        invariant
            from <= i <= v@.len(),
            spec_find_on(v@, from as int) == spec_find_on(v@, i as int),
        ensures
            from <= i <= v@.len(),
            spec_find_on(v@, from as int) == spec_find_on(v@, i as int),
            i as int + 4 <= v@.len() ==> i as int == spec_find_on(v@, i as int),
        decreases v@.len() - i,
    {
        if v.len() < 4 || i > v.len() - 4 {
            break ;
        }
        if v[i] == ' ' && (v[i + 1] == 'o' || v[i + 1] == 'O') && (v[i + 2] == 'n' || v[i + 2]
            == 'N') && v[i + 3] == ' ' {
            break ;
        }
        i = i + 1;
    }
    if v.len() < 4 || i > v.len() - 4 {
        proof {
            lemma_find_on_tail(v@, i as int);
        }
        v.len()
    } else {
        i
    }
}

proof fn lemma_find_on_tail(s: Seq<char>, i: int)
    requires
        0 <= i,
        i + 4 > s.len(),
    ensures
        spec_find_on(s, i) == s.len(),
    decreases s.len() - i,
{
    if i < s.len() && i + 4 <= s.len() {
        lemma_find_on_tail(s, i + 1);
    }
}

fn column_name(piece: &Vec<char>) -> (r: Result<String, Error>)
    ensures
        spec_column_name(piece@) matches Ok(name) ==> r matches Ok(s) && s@ == name,
        spec_column_name(piece@) matches Err(e) ==> r == Err::<String, Error>(e),
{
    let t = trim_chars(piece);
    if t.len() > 0 && t[0] == '"' {
        let j = find_char(&t, '"', 1);
        if j >= t.len() {
            Err(Error::BadSchemaSql)
        } else {
            let name = subvec(&t, 1, j);
            Ok(chars_to_string(&name))
        }
    } else {
        let e = find_char(&t, ' ', 0);
        let name = subvec(&t, 0, e);
        Ok(chars_to_string(&name))
    }
}

/// The column names of a `CREATE TABLE` statement, in declaration order.
#[derive(Debug, PartialEq)]
pub struct CreateTableQuery {
    pub columns: Vec<String>,
}

impl View for CreateTableQuery {
    type V = Seq<Seq<char>>;

    open spec fn view(&self) -> Seq<Seq<char>> {
        self.columns.deep_view()
    }
}

impl CreateTableQuery {
    /// Tokenize a `CREATE TABLE` statement.
    #[verifier::loop_isolation(false)]
    pub fn from_sql(sql: &str) -> (r: Result<CreateTableQuery, Error>)
        ensures
            spec_create_table(sql@) matches Ok(cols) ==> r matches Ok(q) && q@ == cols,
            spec_create_table(sql@) matches Err(e) ==> r == Err::<CreateTableQuery, Error>(e),
    {
        let v = str_to_chars(sql);
        let o = find_char(&v, '(', 0);
        let c = rfind_char(&v, ')');
        if o >= v.len() || c == v.len() || c <= o {
            return Err(Error::BadSchemaSql);
        }
        let inner = subvec(&v, o + 1, c);
        let pieces = split_from(&inner, 0, ',');
        let mut columns: Vec<String> = Vec::new();
        let mut i: usize = 0;
        proof {
            assert(columns.deep_view() =~~= Seq::<Seq<char>>::empty());
        }
        while i < pieces.len()
            invariant
                i <= pieces@.len(),
                pieces.deep_view().len() == pieces@.len(),
                spec_column_names(pieces.deep_view(), i as int, columns.deep_view())
                    == spec_column_names(pieces.deep_view(), 0, Seq::empty()),
            decreases pieces@.len() - i,
        {
            proof {
                assert(pieces.deep_view()[i as int] == pieces@[i as int]@);
            }
            match column_name(&pieces[i]) {
                Ok(name) => {
                    let ghost nv = name@;
                    let ghost prev = columns.deep_view();
                    columns.push(name);
                    proof {
                        assert(columns.deep_view() =~~= prev.push(nv));
                    }
                    i = i + 1;
                },
                Err(e) => {
                    return Err(e);
                },
            }
        }
        Ok(CreateTableQuery { columns })
    }
}

/// The name, table and column set of a `CREATE INDEX` statement.
#[derive(Debug, PartialEq)]
pub struct CreateIdxQuery {
    pub idx_name: String,
    pub table_name: String,
    pub columns: Vec<String>,
}

impl View for CreateIdxQuery {
    type V = CreateIdxQueryView;

    open spec fn view(&self) -> CreateIdxQueryView {
        CreateIdxQueryView {
            idx_name: self.idx_name@,
            table_name: self.table_name@,
            columns: self.columns.deep_view(),
        }
    }
}

impl CreateIdxQuery {
    /// Tokenize a `CREATE INDEX` statement.
    #[verifier::loop_isolation(false)]
    pub fn from_sql(sql: &str) -> (r: Result<CreateIdxQuery, Error>)
        ensures
            spec_create_idx(sql@) matches Ok(q) ==> r matches Ok(p) && p@ == q,
            spec_create_idx(sql@) matches Err(e) ==> r == Err::<CreateIdxQuery, Error>(e),
    {
        let v = str_to_chars(sql);
        let k = find_on(&v, 0);
        if k >= v.len() || k < 12 {
            return Err(Error::BadSchemaSql);
        }
        let o = find_char(&v, '(', k + 4);
        let c = rfind_char(&v, ')');
        if o >= v.len() || c == v.len() || c <= o {
            return Err(Error::BadSchemaSql);
        }
        let raw_name = subvec(&v, 12, k);
        let idx_name_chars = trim_chars(&raw_name);
        let raw_table = subvec(&v, k + 4, o);
        let table_name_chars = trim_chars(&raw_table);
        let inner = subvec(&v, o + 1, c);
        let pieces = split_from(&inner, 0, ',');
        let mut columns: Vec<String> = Vec::new();
        let mut i: usize = 0;
        proof {
            assert(columns.deep_view() =~~= spec_trimmed_pieces(pieces.deep_view()).take(0));
        }
        while i < pieces.len()
            invariant
                i <= pieces@.len(),
                pieces.deep_view().len() == pieces@.len(),
                columns.deep_view() == spec_trimmed_pieces(pieces.deep_view()).take(i as int),
            decreases pieces@.len() - i,
        {
            proof {
                assert(pieces.deep_view()[i as int] == pieces@[i as int]@);
            }
            let t = trim_chars(&pieces[i]);
            let ghost tv = t@;
            let ghost prev = columns.deep_view();
            columns.push(chars_to_string(&t));
            proof {
                assert(columns.deep_view() =~~= prev.push(tv));
                assert(spec_trimmed_pieces(pieces.deep_view()).take(i as int + 1)
                    =~~= spec_trimmed_pieces(pieces.deep_view()).take(i as int).push(
                    spec_trimmed_pieces(pieces.deep_view())[i as int],
                ));
            }
            i = i + 1;
        }
        proof {
            assert(columns.deep_view() =~~= spec_trimmed_pieces(pieces.deep_view()));
        }
        Ok(
            CreateIdxQuery {
                idx_name: chars_to_string(&idx_name_chars),
                table_name: chars_to_string(&table_name_chars),
                columns,
            },
        )
    }
}

/// A classified schema statement.
#[derive(Debug, PartialEq)]
pub enum CreateQuery {
    CreateIdx(CreateIdxQuery),
    CreateTable(CreateTableQuery),
}

impl View for CreateQuery {
    type V = CreateQueryView;

    open spec fn view(&self) -> CreateQueryView {
        match self {
            CreateQuery::CreateTable(q) => CreateQueryView::CreateTable(q@),
            CreateQuery::CreateIdx(q) => CreateQueryView::CreateIdx(q@),
        }
    }
}

impl CreateQuery {
    /// Classify and tokenize one stored schema statement.
    pub fn from_sql(sql: &str) -> (r: Result<CreateQuery, Error>)
        ensures
            spec_create_query(sql@) matches Ok(q) ==> r matches Ok(p) && p@ == q,
            spec_create_query(sql@) matches Err(e) ==> r == Err::<CreateQuery, Error>(e),
    {
        let v = str_to_chars(sql);
        let ct = str_to_chars("CREATE TABLE");
        let ci = str_to_chars("CREATE INDEX");
        if starts_with_chars(&v, &ct) {
            match CreateTableQuery::from_sql(sql) {
                Ok(q) => Ok(CreateQuery::CreateTable(q)),
                Err(e) => Err(e),
            }
        } else if starts_with_chars(&v, &ci) {
            match CreateIdxQuery::from_sql(sql) {
                Ok(q) => Ok(CreateQuery::CreateIdx(q)),
                Err(e) => Err(e),
            }
        } else {
            Err(Error::BadSchemaSql)
        }
    }
}

} // verus!
