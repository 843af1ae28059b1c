//! Typed pages, cells, records and column values, together with the
//! spec-level decoders that the executable decoders are proved against.
//!
//! Every decoder works on the immutable file image `data: &[u8]` and an
//! absolute byte offset.  The spec mirror of each decoder is a total function
//! on `Seq<u8>`; the executable function returns exactly the mirror's result.

use crate::error::Error;
use crate::util::{
    lemma_varint_len_from_bounds, read_varint, spec_varint_len, spec_varint_value,
};
use vstd::prelude::*;
use vstd::slice::slice_to_vec;
use vstd::utf8::{decode_utf8, valid_utf8};

verus! {

// ------------------------------------------------------------------
// Data model
// ------------------------------------------------------------------
/// The four kinds of page.
#[derive(Clone, Copy, Debug, PartialEq, Eq, Structural)]
pub enum PageType {
    InteriorIndex,
    InteriorTable,
    LeafIndex,
    LeafTable,
}

/// The fixed-size page header: one type byte, the cell count at bytes 3..5,
/// and, on interior pages only, the rightmost child page at bytes 8..12.
#[derive(Clone, Copy, Debug, PartialEq, Eq, Structural)]
pub struct PageHeader {
    pub page_type: PageType,
    pub num_cells: u16,
    pub rightmost_pointer: Option<u32>,
}

/// A decoded column value.  Small integers keep their on-disk width; the
/// Zero and One sentinels carry no body; text is UTF-8.
#[derive(Debug, PartialEq)]
pub enum Column {
    Str(String),
    I8(i8),
    I16(i16),
    I24(i32),
    Zero,
    One,
    Null,
}

/// The spec-level value of a `Column`: text becomes its character sequence.
pub ghost enum ColumnView {
    Str(Seq<char>),
    I8(i8),
    I16(i16),
    I24(i32),
    Zero,
    One,
    Null,
}

impl View for Column {
    type V = ColumnView;

    open spec fn view(&self) -> ColumnView {
        match self {
            Column::Str(s) => ColumnView::Str(s@),
            Column::I8(v) => ColumnView::I8(*v),
            Column::I16(v) => ColumnView::I16(*v),
            Column::I24(v) => ColumnView::I24(*v),
            Column::Zero => ColumnView::Zero,
            Column::One => ColumnView::One,
            Column::Null => ColumnView::Null,
        }
    }
}

impl DeepView for Column {
    type V = ColumnView;

    open spec fn deep_view(&self) -> ColumnView {
        self.view()
    }
}

/// The width class a serial type selects.
#[derive(Clone, Copy, Debug, PartialEq, Eq, Structural)]
pub enum ColumnType {
    Str,
    I8,
    I16,
    I24,
    Zero,
    One,
    Null,
}

/// The serial types of one record, in column order.
#[derive(Debug, PartialEq)]
pub struct RecordHeader {
    pub column_types: Vec<i64>,
}

impl View for RecordHeader {
    type V = Seq<i64>;

    open spec fn view(&self) -> Seq<i64> {
        self.column_types@
    }
}

/// The decoded column values of a table record.
#[derive(Debug, PartialEq)]
pub struct RecordBody {
    pub columns: Vec<Column>,
}

impl RecordBody {
    /// An empty record body.
    pub fn new() -> (r: RecordBody)
        ensures
            r@ == Seq::<ColumnView>::empty(),
    {
        let r = RecordBody { columns: Vec::new() };
        proof {
            assert(r@ =~= Seq::<ColumnView>::empty());
        }
        r
    }
}

impl View for RecordBody {
    type V = Seq<ColumnView>;

    open spec fn view(&self) -> Seq<ColumnView> {
        self.columns.deep_view()
    }
}

/// The decoded column values of an index record: the key columns followed by
/// the trailing row-id column.
#[derive(Debug, PartialEq)]
pub struct IdxRecordBody {
    pub columns: Vec<Column>,
}

impl View for IdxRecordBody {
    type V = Seq<ColumnView>;

    open spec fn view(&self) -> Seq<ColumnView> {
        self.columns.deep_view()
    }
}

/// A leaf-table cell: payload size, row id, and the record.
#[derive(Debug, PartialEq)]
pub struct LeafTableCell {
    pub size: i64,
    pub rowid: i64,
    pub record_header: RecordHeader,
    pub record_body: RecordBody,
}

pub ghost struct LeafTableCellView {
    pub size: i64,
    pub rowid: i64,
    pub types: Seq<i64>,
    pub columns: Seq<ColumnView>,
}

impl View for LeafTableCell {
    type V = LeafTableCellView;

    open spec fn view(&self) -> LeafTableCellView {
        LeafTableCellView {
            size: self.size,
            rowid: self.rowid,
            types: self.record_header@,
            columns: self.record_body@,
        }
    }
}

/// An interior-table cell: a left child page and the inclusive greatest row
/// id reachable through it.
#[derive(Clone, Copy, Debug, PartialEq, Eq, Structural)]
pub struct TableInteriorCell {
    pub left_child_page_num: u32,
    pub rowid: i64,
}

/// An interior-index cell: a left child page and a key record whose trailing
/// column is the row id.
#[derive(Debug, PartialEq)]
pub struct IdxInteriorCell {
    pub left_child_page_num: u32,
    pub record_header: RecordHeader,
    pub record_body: IdxRecordBody,
}

pub ghost struct IdxInteriorCellView {
    pub left_child_page_num: u32,
    pub types: Seq<i64>,
    pub columns: Seq<ColumnView>,
}

impl View for IdxInteriorCell {
    type V = IdxInteriorCellView;

    open spec fn view(&self) -> IdxInteriorCellView {
        IdxInteriorCellView {
            left_child_page_num: self.left_child_page_num,
            types: self.record_header@,
            columns: self.record_body@,
        }
    }
}

/// A leaf-index cell: a key record whose trailing column is the row id.
#[derive(Debug, PartialEq)]
pub struct IdxLeafCell {
    pub record_header: RecordHeader,
    pub record_body: IdxRecordBody,
}

pub ghost struct IdxLeafCellView {
    pub types: Seq<i64>,
    pub columns: Seq<ColumnView>,
}

impl View for IdxLeafCell {
    type V = IdxLeafCellView;

    open spec fn view(&self) -> IdxLeafCellView {
        IdxLeafCellView { types: self.record_header@, columns: self.record_body@ }
    }
}

/// A decoded leaf-table page.
#[derive(Debug, PartialEq)]
pub struct LeafTablePage {
    pub page_header: PageHeader,
    pub cells: Vec<LeafTableCell>,
}

pub ghost struct LeafTablePageView {
    pub page_header: PageHeader,
    pub cells: Seq<LeafTableCellView>,
}

impl View for LeafTablePage {
    type V = LeafTablePageView;

    open spec fn view(&self) -> LeafTablePageView {
        LeafTablePageView {
            page_header: self.page_header,
            cells: Seq::new(self.cells@.len(), |i: int| self.cells@[i]@),
        }
    }
}

/// A decoded interior-table page.
#[derive(Debug, PartialEq)]
pub struct InteriorTablePage {
    pub page_header: PageHeader,
    pub cells: Vec<TableInteriorCell>,
}

pub ghost struct InteriorTablePageView {
    pub page_header: PageHeader,
    pub cells: Seq<TableInteriorCell>,
}

impl View for InteriorTablePage {
    type V = InteriorTablePageView;

    open spec fn view(&self) -> InteriorTablePageView {
        InteriorTablePageView { page_header: self.page_header, cells: self.cells@ }
    }
}

/// A decoded interior-index page.
#[derive(Debug, PartialEq)]
pub struct InteriorIdxPage {
    pub page_header: PageHeader,
    pub cells: Vec<IdxInteriorCell>,
}

pub ghost struct InteriorIdxPageView {
    pub page_header: PageHeader,
    pub cells: Seq<IdxInteriorCellView>,
}

impl View for InteriorIdxPage {
    type V = InteriorIdxPageView;

    open spec fn view(&self) -> InteriorIdxPageView {
        InteriorIdxPageView {
            page_header: self.page_header,
            cells: Seq::new(self.cells@.len(), |i: int| self.cells@[i]@),
        }
    }
}

/// A decoded leaf-index page.
#[derive(Debug, PartialEq)]
pub struct LeafIdxPage {
    pub page_header: PageHeader,
    pub cells: Vec<IdxLeafCell>,
}

pub ghost struct LeafIdxPageView {
    pub page_header: PageHeader,
    pub cells: Seq<IdxLeafCellView>,
}

impl View for LeafIdxPage {
    type V = LeafIdxPageView;

    open spec fn view(&self) -> LeafIdxPageView {
        LeafIdxPageView {
            page_header: self.page_header,
            cells: Seq::new(self.cells@.len(), |i: int| self.cells@[i]@),
        }
    }
}

/// A decoded page: an exclusive choice of the four kinds.
#[derive(Debug, PartialEq)]
pub enum Page {
    LeafTable(LeafTablePage),
    InteriorTable(InteriorTablePage),
    LeafIndex(LeafIdxPage),
    InteriorIdx(InteriorIdxPage),
}

pub ghost enum PageView {
    LeafTable(LeafTablePageView),
    InteriorTable(InteriorTablePageView),
    LeafIndex(LeafIdxPageView),
    InteriorIdx(InteriorIdxPageView),
}

impl View for Page {
    type V = PageView;

    open spec fn view(&self) -> PageView {
        match self {
            Page::LeafTable(p) => PageView::LeafTable(p@),
            Page::InteriorTable(p) => PageView::InteriorTable(p@),
            Page::LeafIndex(p) => PageView::LeafIndex(p@),
            Page::InteriorIdx(p) => PageView::InteriorIdx(p@),
        }
    }
}

/// A table descriptor: the root page and the column names in declaration
/// order (a column's index in the list is its position in each record).
#[derive(Debug, PartialEq)]
pub struct TableInfo {
    pub root_page_num: u32,
    pub columns: Vec<String>,
}

pub ghost struct TableInfoView {
    pub root_page_num: u32,
    pub columns: Seq<Seq<char>>,
}

impl View for TableInfo {
    type V = TableInfoView;

    open spec fn view(&self) -> TableInfoView {
        TableInfoView { root_page_num: self.root_page_num, columns: self.columns.deep_view() }
    }
}

/// An index descriptor: the root page, the index name, and the indexed
/// column names.
#[derive(Debug, PartialEq)]
pub struct IdxInfo {
    pub root_page_num: u32,
    pub idx_name: String,
    pub columns: Vec<String>,
}

pub ghost struct IdxInfoView {
    pub root_page_num: u32,
    pub idx_name: Seq<char>,
    pub columns: Seq<Seq<char>>,
}

impl View for IdxInfo {
    type V = IdxInfoView;

    open spec fn view(&self) -> IdxInfoView {
        IdxInfoView {
            root_page_num: self.root_page_num,
            idx_name: self.idx_name@,
            columns: self.columns.deep_view(),
        }
    }
}

/// The decoded first page: the schema table's leaf page and the two
/// name-keyed catalogs built from it, each sorted by name.
#[derive(Debug, PartialEq)]
pub struct FirstPage {
    pub page: LeafTablePage,
    pub table_infos: Vec<(String, TableInfo)>,
    pub idx_infos: Vec<(String, IdxInfo)>,
}

// ------------------------------------------------------------------
// Spec-level primitive readers
// ------------------------------------------------------------------
/// Map the payload of a successful result to its view.
pub open spec fn spec_result_view<T: View>(r: Result<T, Error>) -> Result<T::V, Error> {
    match r {
        Ok(t) => Ok(t@),
        Err(e) => Err(e),
    }
}

/// The big-endian 16-bit integer at `off`.
pub open spec fn spec_be16(data: Seq<u8>, off: int) -> u16 {
    (data[off] * 256 + data[off + 1]) as u16
}

/// The big-endian 32-bit integer at `off`.
pub open spec fn spec_be32(data: Seq<u8>, off: int) -> u32 {
    (data[off] * 0x1000000 + data[off + 1] * 0x10000 + data[off + 2] * 0x100 + data[off + 3]) as u32
}

/// Read two bytes at `off` as a big-endian integer, or report the short read.
pub open spec fn spec_read_be16(data: Seq<u8>, off: int) -> Result<u16, Error> {
    if 0 <= off && off + 2 <= data.len() {
        Ok(spec_be16(data, off))
    } else {
        Err(Error::ShortRead(off as u64))
    }
}

/// Read four bytes at `off` as a big-endian integer, or report the short read.
pub open spec fn spec_read_be32(data: Seq<u8>, off: int) -> Result<u32, Error> {
    if 0 <= off && off + 4 <= data.len() {
        Ok(spec_be32(data, off))
    } else {
        Err(Error::ShortRead(off as u64))
    }
}

/// Decode the varint at `off`.  Nine bytes must be available, as the
/// decoder always fetches a full nine-byte window.
pub open spec fn spec_varint_at(data: Seq<u8>, off: int) -> Result<(i64, u8), Error> {
    if 0 <= off && off + 9 <= data.len() {
        let s = data.subrange(off, off + 9);
        Ok(((spec_varint_value(s)) as i64, (spec_varint_len(s)) as u8))
    } else {
        Err(Error::ShortRead(off as u64))
    }
}

// ------------------------------------------------------------------
// Executable primitive readers
// ------------------------------------------------------------------
pub(crate) fn read_be16_at(data: &[u8], off: u64) -> (r: Result<u16, Error>)
    ensures
        r == spec_read_be16(data@, off as int),
{
    let len: u64 = data.len() as u64;
    if len >= 2 && off <= len - 2 {
        let b0 = data[off as usize];
        let b1 = data[(off + 1) as usize];
        Ok((b0 as u16) * 256 + (b1 as u16))
    } else {
        Err(Error::ShortRead(off))
    }
}

pub(crate) fn read_be32_at(data: &[u8], off: u64) -> (r: Result<u32, Error>)
    ensures
        r == spec_read_be32(data@, off as int),
{
    let len: u64 = data.len() as u64;
    if len >= 4 && off <= len - 4 {
        let b0 = data[off as usize];
        let b1 = data[(off + 1) as usize];
        let b2 = data[(off + 2) as usize];
        let b3 = data[(off + 3) as usize];
        Ok((b0 as u32) * 0x1000000 + (b1 as u32) * 0x10000 + (b2 as u32) * 0x100 + (b3 as u32))
    } else {
        Err(Error::ShortRead(off))
    }
}

pub(crate) fn read_varint_at(data: &[u8], off: u64) -> (r: Result<(i64, u8), Error>)
    ensures
        r == spec_varint_at(data@, off as int),
        r matches Ok(p) ==> 1 <= p.1 <= 9 && off + p.1 <= data@.len(),
{
    let len: u64 = data.len() as u64;
    if len >= 9 && off <= len - 9 {
        let window = &data[off as usize..(off + 9) as usize];
        let (v, n) = read_varint(window);
        proof {
            assert(window@ == data@.subrange(off as int, off as int + 9));
            lemma_varint_len_from_bounds(window@, 0);
        }
        Ok((v, n))
    } else {
        Err(Error::ShortRead(off))
    }
}

// ------------------------------------------------------------------
// Spec-level record decoding
// ------------------------------------------------------------------
/// The signed value of one big-endian byte.
pub open spec fn spec_i8_of(b: u8) -> i8 {
    (if b >= 128 {
        b - 256
    } else {
        b as int
    }) as i8
}

/// The signed value of two big-endian bytes.
pub open spec fn spec_i16_of(b0: u8, b1: u8) -> i16 {
    let v = b0 * 256 + b1;
    (if v >= 0x8000 {
        v - 0x10000
    } else {
        v as int
    }) as i16
}

/// The sign-extended signed value of three big-endian bytes.
pub open spec fn spec_i24_of(b0: u8, b1: u8, b2: u8) -> i32 {
    let v = b0 * 0x10000 + b1 * 0x100 + b2;
    (if v >= 0x800000 {
        v - 0x1000000
    } else {
        v as int
    }) as i32
}

/// Decode one column body of serial type `t` at `off`: the value and the
/// offset just past the body.
pub open spec fn spec_decode_column(data: Seq<u8>, off: int, t: i64) -> Result<
    (ColumnView, int),
    Error,
> {
    match crate::util::spec_content_size_type(t) {
        Err(e) => Err(e),
        Ok((size, ct)) => {
            if 0 <= off && off + size <= data.len() {
                let body = data.subrange(off, off + size as int);
                let end = off + size as int;
                match ct {
                    ColumnType::Null => Ok((ColumnView::Null, end)),
                    ColumnType::Zero => Ok((ColumnView::Zero, end)),
                    ColumnType::One => Ok((ColumnView::One, end)),
                    ColumnType::I8 => Ok((ColumnView::I8(spec_i8_of(body[0])), end)),
                    ColumnType::I16 => Ok((ColumnView::I16(spec_i16_of(body[0], body[1])), end)),
                    ColumnType::I24 => Ok(
                        (ColumnView::I24(spec_i24_of(body[0], body[1], body[2])), end),
                    ),
                    ColumnType::Str => if valid_utf8(body) {
                        Ok((ColumnView::Str(decode_utf8(body)), end))
                    } else {
                        Err(Error::BadUtf8)
                    },
                }
            } else {
                Err(Error::ShortRead(off as u64))
            }
        },
    }
}

/// Decode the bodies of the columns `i..` of `types` starting at `off`,
/// appended to `acc`: the full column list and the offset past the last body.
pub open spec fn spec_read_columns_from(
    data: Seq<u8>,
    types: Seq<i64>,
    i: int,
    off: int,
    acc: Seq<ColumnView>,
) -> Result<(Seq<ColumnView>, int), Error>
    decreases types.len() - i,
{
    if i >= types.len() {
        Ok((acc, off))
    } else {
        match spec_decode_column(data, off, types[i]) {
            Err(e) => Err(e),
            Ok((c, end)) => spec_read_columns_from(data, types, i + 1, end, acc.push(c)),
        }
    }
}

/// Decode all column bodies named by `types` starting at `off`.
pub open spec fn spec_read_columns(data: Seq<u8>, types: Seq<i64>, off: int) -> Result<
    (Seq<ColumnView>, int),
    Error,
> {
    spec_read_columns_from(data, types, 0, off, Seq::empty())
}

/// Read the serial types occupying the `remaining` bytes at `off`, appended
/// to `acc`: the full type list and the offset past the last varint read.
pub open spec fn spec_record_types_from(
    data: Seq<u8>,
    off: int,
    remaining: int,
    acc: Seq<i64>,
) -> Result<(Seq<i64>, int), Error>
    decreases remaining + 9,
    via spec_record_types_from_dec
{
    if remaining <= 0 {
        Ok((acc, off))
    } else {
        match spec_varint_at(data, off) {
            Err(e) => Err(e),
            Ok((t, o)) => spec_record_types_from(data, off + o as int, remaining - o as int, acc.push(t)),
        }
    }
}

#[via_fn]
proof fn spec_record_types_from_dec(data: Seq<u8>, off: int, remaining: int, acc: Seq<i64>) {
    if remaining > 0 {
        if 0 <= off && off + 9 <= data.len() {
            lemma_varint_len_from_bounds(data.subrange(off, off + 9), 0);
        }
    }
}

/// Decode the record header at `ptr`: the header size varint, then serial
/// types filling the rest of the declared header size.  Returns the types
/// and the number of bytes the header occupies.
pub open spec fn spec_record_header(data: Seq<u8>, ptr: int) -> Result<(Seq<i64>, int), Error> {
    match spec_varint_at(data, ptr) {
        Err(e) => Err(e),
        Ok((hsize, hlen)) => match spec_record_types_from(
            data,
            ptr + hlen as int,
            hsize - hlen as int,
            Seq::empty(),
        ) {
            Err(e) => Err(e),
            Ok((types, end)) => Ok((types, end - ptr)),
        },
    }
}

// ------------------------------------------------------------------
// Executable record decoding
// ------------------------------------------------------------------
/// Relies on String::from_utf8: it succeeds exactly on valid UTF-8 input
/// and returns the string those bytes encode.
#[verifier::external_body]
fn string_from_utf8(bytes: Vec<u8>) -> (r: Option<String>)
    ensures
        r is Some <==> valid_utf8(bytes@),
        r matches Some(s) ==> s@ == decode_utf8(bytes@),
{
    String::from_utf8(bytes).ok()
}

/// Decode the column body of serial type `t` at `off`.
fn decode_column(data: &[u8], off: u64, t: i64) -> (r: Result<(Column, u64), Error>)
    requires
        data@.len() < 0x8000000000000000,
    ensures
        spec_decode_column(data@, off as int, t) matches Ok(p) ==> r matches Ok(q) && q.0@ == p.0
            && q.1 as int == p.1,
        spec_decode_column(data@, off as int, t) matches Err(e) ==> r == Err::<(Column, u64), Error>(e),
        r matches Ok(q) ==> q.1 <= data@.len() && off <= q.1,
{
    let len: u64 = data.len() as u64;
    match crate::util::get_content_size_type(t) {
        Err(e) => Err(e),
        Ok((size, ct)) => {
            if off <= len && size <= len - off {
                let end = off + size;
                match ct {
                    ColumnType::Null => Ok((Column::Null, end)),
                    ColumnType::Zero => Ok((Column::Zero, end)),
                    ColumnType::One => Ok((Column::One, end)),
                    ColumnType::I8 => {
                        let b0 = data[off as usize];
                        let v: i8 = if b0 >= 128 {
                            ((b0 as i16) - 256) as i8
                        } else {
                            b0 as i8
                        };
                        Ok((Column::I8(v), end))
                    },
                    ColumnType::I16 => {
                        let b0 = data[off as usize];
                        let b1 = data[(off + 1) as usize];
                        let w: i32 = (b0 as i32) * 256 + (b1 as i32);
                        let v: i16 = if w >= 0x8000 {
                            (w - 0x10000) as i16
                        } else {
                            w as i16
                        };
                        Ok((Column::I16(v), end))
                    },
                    ColumnType::I24 => {
                        let b0 = data[off as usize];
                        let b1 = data[(off + 1) as usize];
                        let b2 = data[(off + 2) as usize];
                        let w: i32 = (b0 as i32) * 0x10000 + (b1 as i32) * 0x100 + (b2 as i32);
                        let v: i32 = if w >= 0x800000 {
                            w - 0x1000000
                        } else {
                            w
                        };
                        Ok((Column::I24(v), end))
                    },
                    ColumnType::Str => {
                        let body = slice_to_vec(&data[off as usize..end as usize]);
                        proof {
                            assert(body@ == data@.subrange(off as int, off as int + size as int));
                        }
                        match string_from_utf8(body) {
                            Some(s) => Ok((Column::Str(s), end)),
                            None => Err(Error::BadUtf8),
                        }
                    },
                }
            } else {
                Err(Error::ShortRead(off))
            }
        },
    }
}

impl RecordHeader {
    /// Decode the record header at `pointer`: the serial types of one
    /// record and the number of bytes the header occupies.
    pub fn from_file(data: &[u8], pointer: u64) -> (r: Result<(RecordHeader, u64), Error>)
        requires
            data@.len() < 0x8000000000000000,
        ensures
            spec_record_header(data@, pointer as int) matches Ok(p) ==> r matches Ok(q) && q.0@
                == p.0 && q.1 as int == p.1,
            spec_record_header(data@, pointer as int) matches Err(e) ==> r == Err::<
                (RecordHeader, u64),
                Error,
            >(e),
            r matches Ok(q) ==> pointer + q.1 <= data@.len(),
    {
        let (hsize, hlen) = match read_varint_at(data, pointer) {
            Ok(p) => p,
            Err(e) => {
                return Err(e);
            },
        };
        let mut column_types: Vec<i64> = Vec::new();
        let start: u64 = pointer + hlen as u64;
        let mut cur: u64 = start;
        proof {
            assert(column_types@ =~= Seq::<i64>::empty());
        }
        if hsize > hlen as i64 {
            let target: u64 = (hsize - hlen as i64) as u64;
            while cur - start < target
                invariant
                    data@.len() < 0x8000000000000000,
                    start <= cur <= data@.len(),
                    start == pointer + hlen,
                    target as int == hsize - hlen as int,
                    spec_varint_at(data@, pointer as int) == Ok::<(i64, u8), Error>(
                        (hsize, hlen),
                    ),
                    spec_record_types_from(
                        data@,
                        start as int,
                        target as int,
                        Seq::<i64>::empty(),
                    ) == spec_record_types_from(
                        data@,
                        cur as int,
                        target as int - (cur as int - start as int),
                        column_types@,
                    ),
                decreases (if (cur as int) - (start as int) < (target as int) {
                    (target as int) - ((cur as int) - (start as int))
                } else {
                    0
                }),
            {
                match read_varint_at(data, cur) {
                    Ok((t, o)) => {
                        column_types.push(t);
                        cur = cur + o as u64;
                    },
                    Err(e) => {
                        return Err(e);
                    },
                }
            }
        }
        Ok((RecordHeader { column_types }, (cur - pointer)))
    }

    /// Decode the column bodies named by this header, starting at `pointer`.
    /// Returns the values and the number of bytes the bodies occupy.
    pub fn read_columns(&self, data: &[u8], pointer: u64) -> (r: Result<(Vec<Column>, u64), Error>)
        requires
            data@.len() < 0x8000000000000000,
        ensures
            spec_read_columns(data@, self@, pointer as int) matches Ok(p) ==> r matches Ok(q)
                && q.0.deep_view() == p.0 && pointer + q.1 == p.1,
            spec_read_columns(data@, self@, pointer as int) matches Err(e) ==> r == Err::<
                (Vec<Column>, u64),
                Error,
            >(e),
    {
        let mut columns: Vec<Column> = Vec::new();
        let mut cur: u64 = pointer;
        let mut i: usize = 0;
        proof {
            assert(columns.deep_view() =~= Seq::<ColumnView>::empty());
        }
        while i < self.column_types.len()
            invariant
                data@.len() < 0x8000000000000000,
                i <= self@.len(),
                pointer <= cur,
                spec_read_columns_from(data@, self@, i as int, cur as int, columns.deep_view())
                    == spec_read_columns(data@, self@, pointer as int),
            decreases self@.len() - i,
        {
            let t = self.column_types[i];
            match decode_column(data, cur, t) {
                Ok((c, end)) => {
                    let ghost cv = c@;
                    let ghost prev = columns.deep_view();
                    columns.push(c);
                    proof {
                        assert(columns.deep_view() =~= prev.push(cv));
                    }
                    cur = end;
                    i = i + 1;
                },
                Err(e) => {
                    return Err(e);
                },
            }
        }
        Ok((columns, cur - pointer))
    }
}

// ------------------------------------------------------------------
// Spec-level cell and page decoding
// ------------------------------------------------------------------
/// The element-wise view of a sequence of viewable values.
pub open spec fn seq_view<T: View>(v: Seq<T>) -> Seq<T::V> {
    Seq::new(v.len(), |i: int| v[i]@)
}

/// Decode the leaf-table cell at absolute offset `pos`: payload size varint,
/// row id varint, then the record.
pub open spec fn spec_leaf_table_cell(data: Seq<u8>, pos: int) -> Result<LeafTableCellView, Error> {
    match spec_varint_at(data, pos) {
        Err(e) => Err(e),
        Ok((size, o1)) => match spec_varint_at(data, pos + o1 as int) {
            Err(e) => Err(e),
            Ok((rowid, o2)) => match spec_record_header(data, pos + o1 as int + o2 as int) {
                Err(e) => Err(e),
                Ok((types, hc)) => match spec_read_columns(
                    data,
                    types,
                    pos + o1 as int + o2 as int + hc,
                ) {
                    Err(e) => Err(e),
                    Ok((cols, _)) => Ok(
                        LeafTableCellView { size, rowid, types, columns: cols },
                    ),
                },
            },
        },
    }
}

/// Decode the interior-table cell at `pos`: a big-endian child page number,
/// which must not be 0 (pages are numbered from 1), and the row id varint.
pub open spec fn spec_table_interior_cell(data: Seq<u8>, pos: int) -> Result<
    TableInteriorCell,
    Error,
> {
    match spec_read_be32(data, pos) {
        Err(e) => Err(e),
        Ok(child) => if child == 0 {
            Err(Error::NegativePageIndex)
        } else {
            match spec_varint_at(data, pos + 4) {
                Err(e) => Err(e),
                Ok((rowid, _)) => Ok(TableInteriorCell { left_child_page_num: child, rowid }),
            }
        },
    }
}

/// Decode the leaf-index cell at `pos`: a payload size varint, then the key
/// record with its trailing row-id column.
pub open spec fn spec_idx_leaf_cell(data: Seq<u8>, pos: int) -> Result<IdxLeafCellView, Error> {
    match spec_varint_at(data, pos) {
        Err(e) => Err(e),
        Ok((_size, o1)) => match spec_record_header(data, pos + o1 as int) {
            Err(e) => Err(e),
            Ok((types, hc)) => match spec_read_columns(data, types, pos + o1 as int + hc) {
                Err(e) => Err(e),
                Ok((cols, _)) => Ok(IdxLeafCellView { types, columns: cols }),
            },
        },
    }
}

/// Decode the interior-index cell at `pos`: a big-endian child page number,
/// which must not be 0, a payload size varint, then the key record.
pub open spec fn spec_idx_interior_cell(data: Seq<u8>, pos: int) -> Result<
    IdxInteriorCellView,
    Error,
> {
    match spec_read_be32(data, pos) {
        Err(e) => Err(e),
        Ok(child) => if child == 0 {
            Err(Error::NegativePageIndex)
        } else {
            match spec_varint_at(data, pos + 4) {
                Err(e) => Err(e),
                Ok((_size, o1)) => match spec_record_header(data, pos + 4 + o1 as int) {
                    Err(e) => Err(e),
                    Ok((types, hc)) => match spec_read_columns(
                        data,
                        types,
                        pos + 4 + o1 as int + hc,
                    ) {
                        Err(e) => Err(e),
                        Ok((cols, _)) => Ok(
                            IdxInteriorCellView {
                                left_child_page_num: child,
                                types,
                                columns: cols,
                            },
                        ),
                    },
                },
            }
        },
    }
}

/// Decode cells `i..` named by the pointer array, appended to `acc`.
pub open spec fn spec_leaf_table_cells(
    data: Seq<u8>,
    page_off: int,
    ptrs: Seq<u16>,
    i: int,
    acc: Seq<LeafTableCellView>,
) -> Result<Seq<LeafTableCellView>, Error>
    decreases ptrs.len() - i,
{
    if i >= ptrs.len() {
        Ok(acc)
    } else {
        match spec_leaf_table_cell(data, page_off + ptrs[i]) {
            Err(e) => Err(e),
            Ok(c) => spec_leaf_table_cells(data, page_off, ptrs, i + 1, acc.push(c)),
        }
    }
}

/// Decode cells `i..` named by the pointer array, appended to `acc`.
pub open spec fn spec_table_interior_cells(
    data: Seq<u8>,
    page_off: int,
    ptrs: Seq<u16>,
    i: int,
    acc: Seq<TableInteriorCell>,
) -> Result<Seq<TableInteriorCell>, Error>
    decreases ptrs.len() - i,
{
    if i >= ptrs.len() {
        Ok(acc)
    } else {
        match spec_table_interior_cell(data, page_off + ptrs[i]) {
            Err(e) => Err(e),
            Ok(c) => spec_table_interior_cells(data, page_off, ptrs, i + 1, acc.push(c)),
        }
    }
}

/// Decode cells `i..` named by the pointer array, appended to `acc`.
pub open spec fn spec_idx_leaf_cells(
    data: Seq<u8>,
    page_off: int,
    ptrs: Seq<u16>,
    i: int,
    acc: Seq<IdxLeafCellView>,
) -> Result<Seq<IdxLeafCellView>, Error>
    decreases ptrs.len() - i,
{
    if i >= ptrs.len() {
        Ok(acc)
    } else {
        match spec_idx_leaf_cell(data, page_off + ptrs[i]) {
            Err(e) => Err(e),
            Ok(c) => spec_idx_leaf_cells(data, page_off, ptrs, i + 1, acc.push(c)),
        }
    }
}

/// Decode cells `i..` named by the pointer array, appended to `acc`.
pub open spec fn spec_idx_interior_cells(
    data: Seq<u8>,
    page_off: int,
    ptrs: Seq<u16>,
    i: int,
    acc: Seq<IdxInteriorCellView>,
) -> Result<Seq<IdxInteriorCellView>, Error>
    decreases ptrs.len() - i,
{
    if i >= ptrs.len() {
        Ok(acc)
    } else {
        match spec_idx_interior_cell(data, page_off + ptrs[i]) {
            Err(e) => Err(e),
            Ok(c) => spec_idx_interior_cells(data, page_off, ptrs, i + 1, acc.push(c)),
        }
    }
}

/// Read cell pointers `i..n` of the pointer array at `arr_off`, appended to `acc`.
pub open spec fn spec_cell_ptrs(
    data: Seq<u8>,
    arr_off: int,
    i: int,
    n: int,
    acc: Seq<u16>,
) -> Result<Seq<u16>, Error>
    decreases n - i,
{
    if i >= n {
        Ok(acc)
    } else {
        match spec_read_be16(data, arr_off + 2 * i) {
            Err(e) => Err(e),
            Ok(p) => spec_cell_ptrs(data, arr_off, i + 1, n, acc.push(p)),
        }
    }
}

/// Decode the page header at `off`: the type byte, the cell count, and, on
/// interior pages, the rightmost child page.  Twelve bytes are always
/// fetched, as the decoder reads a full header window.
pub open spec fn spec_page_header(data: Seq<u8>, off: int) -> Result<PageHeader, Error> {
    if 0 <= off && off + 12 <= data.len() {
        let b = data[off];
        if b == 0x02 || b == 0x05 || b == 0x0a || b == 0x0d {
            let pt = if b == 0x02 {
                PageType::InteriorIndex
            } else if b == 0x05 {
                PageType::InteriorTable
            } else if b == 0x0a {
                PageType::LeafIndex
            } else {
                PageType::LeafTable
            };
            let rightmost = if b == 0x02 || b == 0x05 {
                Some(spec_be32(data, off + 8))
            } else {
                None
            };
            Ok(
                PageHeader {
                    page_type: pt,
                    num_cells: spec_be16(data, off + 3),
                    rightmost_pointer: rightmost,
                },
            )
        } else {
            Err(Error::CorruptPageType(b))
        }
    } else {
        Err(Error::ShortRead(off as u64))
    }
}

/// The length in bytes of a page header of the given kind.
pub open spec fn spec_header_size(pt: PageType) -> int {
    if pt is LeafTable || pt is LeafIndex {
        8
    } else {
        12
    }
}

/// Pointer sanity: every cell pointer points into the cell content area,
/// at or after `hdr_end` (the first byte past the page header and its cell
/// pointer array) and strictly before the end of the page.
pub open spec fn spec_ptrs_in_bounds(ptrs: Seq<u16>, hdr_end: int, page_size: int) -> bool {
    forall|i: int| 0 <= i < ptrs.len() ==> hdr_end <= #[trigger] ptrs[i] && (ptrs[i] as int)
        < page_size
}

/// Decode the page at `page_off`.  The page header sits `hdr_off` bytes into
/// the page (100 on the first page, 0 elsewhere); the cell pointer array
/// follows it, and every cell is fetched through its pointer, which is
/// relative to the start of the page.
pub open spec fn spec_read_page(
    data: Seq<u8>,
    page_off: int,
    hdr_off: int,
    page_size: int,
) -> Result<PageView, Error> {
    match spec_page_header(data, page_off + hdr_off) {
        Err(e) => Err(e),
        Ok(h) => {
            let hdr_size = spec_header_size(h.page_type);
            match spec_cell_ptrs(
                data,
                page_off + hdr_off + hdr_size,
                0,
                h.num_cells as int,
                Seq::empty(),
            ) {
                Err(e) => Err(e),
                Ok(ptrs) => {
                    if spec_ptrs_in_bounds(
                        ptrs,
                        hdr_off + hdr_size + 2 * (h.num_cells as int),
                        page_size,
                    ) {
                        match h.page_type {
                            PageType::LeafTable => match spec_leaf_table_cells(
                                data,
                                page_off,
                                ptrs,
                                0,
                                Seq::empty(),
                            ) {
                                Err(e) => Err(e),
                                Ok(cells) => Ok(
                                    PageView::LeafTable(
                                        LeafTablePageView { page_header: h, cells },
                                    ),
                                ),
                            },
                            PageType::InteriorTable => match spec_table_interior_cells(
                                data,
                                page_off,
                                ptrs,
                                0,
                                Seq::empty(),
                            ) {
                                Err(e) => Err(e),
                                Ok(cells) => Ok(
                                    PageView::InteriorTable(
                                        InteriorTablePageView { page_header: h, cells },
                                    ),
                                ),
                            },
                            PageType::LeafIndex => match spec_idx_leaf_cells(
                                data,
                                page_off,
                                ptrs,
                                0,
                                Seq::empty(),
                            ) {
                                Err(e) => Err(e),
                                Ok(cells) => Ok(
                                    PageView::LeafIndex(LeafIdxPageView { page_header: h, cells }),
                                ),
                            },
                            PageType::InteriorIndex => match spec_idx_interior_cells(
                                data,
                                page_off,
                                ptrs,
                                0,
                                Seq::empty(),
                            ) {
                                Err(e) => Err(e),
                                Ok(cells) => Ok(
                                    PageView::InteriorIdx(
                                        InteriorIdxPageView { page_header: h, cells },
                                    ),
                                ),
                            },
                        }
                    } else {
                        Err(Error::CorruptPageHeader)
                    }
                },
            }
        },
    }
}


/// All cells of a leaf-table page, fetched through its pointer array.
pub open spec fn spec_leaf_table_cells_all(data: Seq<u8>, page_off: int, ptrs: Seq<u16>) -> Result<
    Seq<LeafTableCellView>,
    Error,
> {
    spec_leaf_table_cells(data, page_off, ptrs, 0, Seq::empty())
}

/// All cells of an interior-table page, fetched through its pointer array.
pub open spec fn spec_table_interior_cells_all(
    data: Seq<u8>,
    page_off: int,
    ptrs: Seq<u16>,
) -> Result<Seq<TableInteriorCell>, Error> {
    spec_table_interior_cells(data, page_off, ptrs, 0, Seq::empty())
}

/// All cells of a leaf-index page, fetched through its pointer array.
pub open spec fn spec_idx_leaf_cells_all(data: Seq<u8>, page_off: int, ptrs: Seq<u16>) -> Result<
    Seq<IdxLeafCellView>,
    Error,
> {
    spec_idx_leaf_cells(data, page_off, ptrs, 0, Seq::empty())
}

/// All cells of an interior-index page, fetched through its pointer array.
pub open spec fn spec_idx_interior_cells_all(
    data: Seq<u8>,
    page_off: int,
    ptrs: Seq<u16>,
) -> Result<Seq<IdxInteriorCellView>, Error> {
    spec_idx_interior_cells(data, page_off, ptrs, 0, Seq::empty())
}

/// The whole cell pointer array: n big-endian 16-bit pointers at `arr_off`.
pub open spec fn spec_cell_pointer_array(data: Seq<u8>, arr_off: int, n: int) -> Result<
    Seq<u16>,
    Error,
> {
    spec_cell_ptrs(data, arr_off, 0, n, Seq::empty())
}

// ------------------------------------------------------------------
// Decoded-page laws
// ------------------------------------------------------------------
/// Pointer sanity: whenever a page decodes successfully, its header and
/// cell pointer array decode too, and every cell pointer points into the
/// cell content area: at or past the first byte after the header and the
/// whole cell pointer array, and strictly before the end of the page.
pub proof fn lemma_pointer_sanity(data: Seq<u8>, page_off: int, hdr_off: int, page_size: int)
    requires
        spec_read_page(data, page_off, hdr_off, page_size) is Ok,
    ensures
        spec_page_header(data, page_off + hdr_off) matches Ok(h) && (spec_cell_pointer_array(
            data,
            page_off + hdr_off + spec_header_size(h.page_type),
            h.num_cells as int,
        ) matches Ok(ptrs) && forall|i: int|
            0 <= i < ptrs.len() ==> hdr_off + spec_header_size(h.page_type) + 2 * (
            h.num_cells as int) <= #[trigger] ptrs[i] && (ptrs[i] as int) < page_size),
{
}

/// Idempotent read: decoding the same offsets of the same file image twice
/// yields structurally equal results.
pub proof fn lemma_read_page_deterministic(
    data: Seq<u8>,
    page_off: int,
    hdr_off: int,
    page_size: int,
    r1: Result<PageView, Error>,
    r2: Result<PageView, Error>,
)
    requires
        r1 == spec_read_page(data, page_off, hdr_off, page_size),
        r2 == spec_read_page(data, page_off, hdr_off, page_size),
    ensures
        r1 == r2,
{
}

// ------------------------------------------------------------------
// Executable cell and page decoding
// ------------------------------------------------------------------
fn read_leaf_table_cell(data: &[u8], pos: u64) -> (r: Result<LeafTableCell, Error>)
    requires
        data@.len() < 0x8000000000000000,
    ensures
        spec_leaf_table_cell(data@, pos as int) matches Ok(c) ==> r matches Ok(q) && q@ == c,
        spec_leaf_table_cell(data@, pos as int) matches Err(e) ==> r == Err::<LeafTableCell, Error>(
            e,
        ),
{
    let (size, o1) = match read_varint_at(data, pos) {
        Ok(p) => p,
        Err(e) => {
            return Err(e);
        },
    };
    let (rowid, o2) = match read_varint_at(data, pos + o1 as u64) {
        Ok(p) => p,
        Err(e) => {
            return Err(e);
        },
    };
    let hdr_at: u64 = pos + o1 as u64 + o2 as u64;
    let (record_header, hc) = match RecordHeader::from_file(data, hdr_at) {
        Ok(p) => p,
        Err(e) => {
            return Err(e);
        },
    };
    let (columns, _consumed) = match record_header.read_columns(data, hdr_at + hc) {
        Ok(p) => p,
        Err(e) => {
            return Err(e);
        },
    };
    Ok(LeafTableCell { size, rowid, record_header, record_body: RecordBody { columns } })
}

fn read_table_interior_cell(data: &[u8], pos: u64) -> (r: Result<TableInteriorCell, Error>)
    requires
        data@.len() < 0x8000000000000000,
    ensures
        r == spec_table_interior_cell(data@, pos as int),
{
    let child = match read_be32_at(data, pos) {
        Ok(c) => c,
        Err(e) => {
            return Err(e);
        },
    };
    if child == 0 {
        return Err(Error::NegativePageIndex);
    }
    let (rowid, _) = match read_varint_at(data, pos + 4) {
        Ok(p) => p,
        Err(e) => {
            return Err(e);
        },
    };
    Ok(TableInteriorCell { left_child_page_num: child, rowid })
}

fn read_idx_leaf_cell(data: &[u8], pos: u64) -> (r: Result<IdxLeafCell, Error>)
    requires
        data@.len() < 0x8000000000000000,
    ensures
        spec_idx_leaf_cell(data@, pos as int) matches Ok(c) ==> r matches Ok(q) && q@ == c,
        spec_idx_leaf_cell(data@, pos as int) matches Err(e) ==> r == Err::<IdxLeafCell, Error>(e),
{
    let (_size, o1) = match read_varint_at(data, pos) {
        Ok(p) => p,
        Err(e) => {
            return Err(e);
        },
    };
    let hdr_at: u64 = pos + o1 as u64;
    let (record_header, hc) = match RecordHeader::from_file(data, hdr_at) {
        Ok(p) => p,
        Err(e) => {
            return Err(e);
        },
    };
    let (columns, _consumed) = match record_header.read_columns(data, hdr_at + hc) {
        Ok(p) => p,
        Err(e) => {
            return Err(e);
        },
    };
    Ok(IdxLeafCell { record_header, record_body: IdxRecordBody { columns } })
}

fn read_idx_interior_cell(data: &[u8], pos: u64) -> (r: Result<IdxInteriorCell, Error>)
    requires
        data@.len() < 0x8000000000000000,
    ensures
        spec_idx_interior_cell(data@, pos as int) matches Ok(c) ==> r matches Ok(q) && q@ == c,
        spec_idx_interior_cell(data@, pos as int) matches Err(e) ==> r == Err::<
            IdxInteriorCell,
            Error,
        >(e),
{
    let child = match read_be32_at(data, pos) {
        Ok(c) => c,
        Err(e) => {
            return Err(e);
        },
    };
    if child == 0 {
        return Err(Error::NegativePageIndex);
    }
    let (_size, o1) = match read_varint_at(data, pos + 4) {
        Ok(p) => p,
        Err(e) => {
            return Err(e);
        },
    };
    let hdr_at: u64 = pos + 4 + o1 as u64;
    let (record_header, hc) = match RecordHeader::from_file(data, hdr_at) {
        Ok(p) => p,
        Err(e) => {
            return Err(e);
        },
    };
    let (columns, _consumed) = match record_header.read_columns(data, hdr_at + hc) {
        Ok(p) => p,
        Err(e) => {
            return Err(e);
        },
    };
    Ok(
        IdxInteriorCell {
            left_child_page_num: child,
            record_header,
            record_body: IdxRecordBody { columns },
        },
    )
}

fn get_leaf_table_cells(data: &[u8], page_offset: u64, ptrs: &Vec<u16>) -> (r: Result<Vec<LeafTableCell>, Error>)
    requires
        data@.len() < 0x8000000000000000,
        (page_offset as int) < 0x8000000000000000,
    ensures
        spec_leaf_table_cells_all(data@, page_offset as int, ptrs@) matches Ok(cs) ==> r matches Ok(v) && seq_view(v@) == cs,
        spec_leaf_table_cells_all(data@, page_offset as int, ptrs@) matches Err(e) ==> r == Err::<Vec<LeafTableCell>, Error>(e),
{
    let mut cells: Vec<LeafTableCell> = Vec::new();
    let mut i: usize = 0;
    proof {
        assert(seq_view(cells@) =~= Seq::<LeafTableCellView>::empty());
    }
    while i < ptrs.len()
        invariant
            data@.len() < 0x8000000000000000,
            (page_offset as int) < 0x8000000000000000,
            i <= ptrs@.len(),
            spec_leaf_table_cells(data@, page_offset as int, ptrs@, i as int, seq_view(cells@))
                == spec_leaf_table_cells_all(data@, page_offset as int, ptrs@),
        decreases ptrs@.len() - i,
    {
        let pos: u64 = page_offset + ptrs[i] as u64;
        match read_leaf_table_cell(data, pos) {
            Ok(c) => {
                let ghost cv = c@;
                let ghost prev = seq_view(cells@);
                cells.push(c);
                proof {
                    assert(seq_view(cells@) =~= prev.push(cv));
                }
                i = i + 1;
            },
            Err(e) => {
                return Err(e);
            },
        }
    }
    Ok(cells)
}

fn get_interior_table_cells(data: &[u8], page_offset: u64, ptrs: &Vec<u16>) -> (r: Result<Vec<TableInteriorCell>, Error>)
    requires
        data@.len() < 0x8000000000000000,
        (page_offset as int) < 0x8000000000000000,
    ensures
        spec_table_interior_cells_all(data@, page_offset as int, ptrs@) matches Ok(cs) ==> r matches Ok(v) && v@ == cs,
        spec_table_interior_cells_all(data@, page_offset as int, ptrs@) matches Err(e) ==> r == Err::<Vec<TableInteriorCell>, Error>(e),
{
    let mut cells: Vec<TableInteriorCell> = Vec::new();
    let mut i: usize = 0;
    proof {
        assert(cells@ =~= Seq::<TableInteriorCell>::empty());
    }
    while i < ptrs.len()
        invariant
            data@.len() < 0x8000000000000000,
            (page_offset as int) < 0x8000000000000000,
            i <= ptrs@.len(),
            spec_table_interior_cells(data@, page_offset as int, ptrs@, i as int, cells@)
                == spec_table_interior_cells_all(data@, page_offset as int, ptrs@),
        decreases ptrs@.len() - i,
    {
        let pos: u64 = page_offset + ptrs[i] as u64;
        match read_table_interior_cell(data, pos) {
            Ok(c) => {
                cells.push(c);
                i = i + 1;
            },
            Err(e) => {
                return Err(e);
            },
        }
    }
    Ok(cells)
}

fn get_leaf_idx_cells(data: &[u8], page_offset: u64, ptrs: &Vec<u16>) -> (r: Result<Vec<IdxLeafCell>, Error>)
    requires
        data@.len() < 0x8000000000000000,
        (page_offset as int) < 0x8000000000000000,
    ensures
        spec_idx_leaf_cells_all(data@, page_offset as int, ptrs@) matches Ok(cs) ==> r
            matches Ok(v) && seq_view(v@) == cs,
        spec_idx_leaf_cells_all(data@, page_offset as int, ptrs@) matches Err(e) ==> r
            == Err::<Vec<IdxLeafCell>, Error>(e),
{
    let mut cells: Vec<IdxLeafCell> = Vec::new();
    let mut i: usize = 0;
    proof {
        assert(seq_view(cells@) =~= Seq::<IdxLeafCellView>::empty());
    }
    while i < ptrs.len()
        invariant
            data@.len() < 0x8000000000000000,
            (page_offset as int) < 0x8000000000000000,
            i <= ptrs@.len(),
            spec_idx_leaf_cells(data@, page_offset as int, ptrs@, i as int, seq_view(cells@))
                == spec_idx_leaf_cells_all(data@, page_offset as int, ptrs@),
        decreases ptrs@.len() - i,
    {
        let pos: u64 = page_offset + ptrs[i] as u64;
        match read_idx_leaf_cell(data, pos) {
            Ok(c) => {
                let ghost cv = c@;
                let ghost prev = seq_view(cells@);
                cells.push(c);
                proof {
                    assert(seq_view(cells@) =~= prev.push(cv));
                }
                i = i + 1;
            },
            Err(e) => {
                return Err(e);
            },
        }
    }
    Ok(cells)
}

fn get_interior_idx_cells(data: &[u8], page_offset: u64, ptrs: &Vec<u16>) -> (r: Result<Vec<IdxInteriorCell>, Error>)
    requires
        data@.len() < 0x8000000000000000,
        (page_offset as int) < 0x8000000000000000,
    ensures
        spec_idx_interior_cells_all(data@, page_offset as int, ptrs@) matches Ok(cs) ==> r matches Ok(v) && seq_view(v@) == cs,
        spec_idx_interior_cells_all(data@, page_offset as int, ptrs@) matches Err(e) ==> r == Err::<Vec<IdxInteriorCell>, Error>(e),
{
    let mut cells: Vec<IdxInteriorCell> = Vec::new();
    let mut i: usize = 0;
    proof {
        assert(seq_view(cells@) =~= Seq::<IdxInteriorCellView>::empty());
    }
    while i < ptrs.len()
        invariant
            data@.len() < 0x8000000000000000,
            (page_offset as int) < 0x8000000000000000,
            i <= ptrs@.len(),
            spec_idx_interior_cells(data@, page_offset as int, ptrs@, i as int, seq_view(cells@))
                == spec_idx_interior_cells_all(data@, page_offset as int, ptrs@),
        decreases ptrs@.len() - i,
    {
        let pos: u64 = page_offset + ptrs[i] as u64;
        match read_idx_interior_cell(data, pos) {
            Ok(c) => {
                let ghost cv = c@;
                let ghost prev = seq_view(cells@);
                cells.push(c);
                proof {
                    assert(seq_view(cells@) =~= prev.push(cv));
                }
                i = i + 1;
            },
            Err(e) => {
                return Err(e);
            },
        }
    }
    Ok(cells)
}

fn read_cell_ptrs(data: &[u8], arr_off: u64, n: u16) -> (r: Result<Vec<u16>, Error>)
    requires
        data@.len() < 0x8000000000000000,
        arr_off as int <= 0x8000000000000000 + 0x10000,
    ensures
        spec_cell_pointer_array(data@, arr_off as int, n as int) matches Ok(ps) ==> r
            matches Ok(v) && v@ == ps,
        spec_cell_pointer_array(data@, arr_off as int, n as int) matches Err(e) ==> r
            == Err::<Vec<u16>, Error>(e),
{
    let mut ptrs: Vec<u16> = Vec::new();
    let mut i: usize = 0;
    proof {
        assert(ptrs@ =~= Seq::<u16>::empty());
    }
    while i < n as usize
        invariant
            data@.len() < 0x8000000000000000,
            arr_off as int <= 0x8000000000000000 + 0x10000,
            i <= n as usize,
            spec_cell_ptrs(data@, arr_off as int, i as int, n as int, ptrs@)
                == spec_cell_pointer_array(data@, arr_off as int, n as int),
        decreases n as int - i,
    {
        match read_be16_at(data, arr_off + 2 * (i as u64)) {
            Ok(p) => {
                ptrs.push(p);
                i = i + 1;
            },
            Err(e) => {
                return Err(e);
            },
        }
    }
    Ok(ptrs)
}

fn read_page_header(data: &[u8], off: u64) -> (r: Result<PageHeader, Error>)
    ensures
        r == spec_page_header(data@, off as int),
{
    let len: u64 = data.len() as u64;
    if len >= 12 && off <= len - 12 {
        let b = data[off as usize];
        if b == 0x02 || b == 0x05 || b == 0x0a || b == 0x0d {
            let page_type = if b == 0x02 {
                PageType::InteriorIndex
            } else if b == 0x05 {
                PageType::InteriorTable
            } else if b == 0x0a {
                PageType::LeafIndex
            } else {
                PageType::LeafTable
            };
            let h3 = data[(off + 3) as usize];
            let h4 = data[(off + 4) as usize];
            let num_cells: u16 = (h3 as u16) * 256 + (h4 as u16);
            let rightmost_pointer: Option<u32> = if b == 0x02 || b == 0x05 {
                let b0 = data[(off + 8) as usize];
                let b1 = data[(off + 9) as usize];
                let b2 = data[(off + 10) as usize];
                let b3 = data[(off + 11) as usize];
                Some(
                    (b0 as u32) * 0x1000000 + (b1 as u32) * 0x10000 + (b2 as u32) * 0x100 + (
                    b3 as u32),
                )
            } else {
                None
            };
            Ok(PageHeader { page_type, num_cells, rightmost_pointer })
        } else {
            Err(Error::CorruptPageType(b))
        }
    } else {
        Err(Error::ShortRead(off))
    }
}

fn check_ptrs_in_bounds(ptrs: &Vec<u16>, hdr_end: u64, page_size: u16) -> (b: bool)
    ensures
        b == spec_ptrs_in_bounds(ptrs@, hdr_end as int, page_size as int),
{
    let mut i: usize = 0;
    while i < ptrs.len()
        invariant
            i <= ptrs@.len(),
            forall|j: int| 0 <= j < i ==> hdr_end <= #[trigger] ptrs@[j] && (ptrs@[j] as int)
                < page_size as int,
        decreases ptrs@.len() - i,
    {
        let p = ptrs[i];
        if (p as u64) < hdr_end || p >= page_size {
            return false;
        }
        i = i + 1;
    }
    true
}

/// Decode the page at `page_offset`.  The page header sits
/// `page_header_offset` bytes into the page (100 on the first page, 0
/// elsewhere).  Every cell pointer is checked to land in the cell content
/// area — past the header and its pointer array, before the end of the
/// page — before any cell is decoded.
pub fn read_page(data: &[u8], page_offset: u64, page_header_offset: u64, page_size: u16) -> (r: Result<Page, Error>)
    requires
        data@.len() < 0x8000000000000000,
        (page_offset as int) + (page_header_offset as int) < 0x8000000000000000,
    ensures
        spec_result_view(r) == spec_read_page(
            data@,
            page_offset as int,
            page_header_offset as int,
            page_size as int,
        ),
{
    let hdr_at: u64 = page_offset + page_header_offset;
    let page_header = match read_page_header(data, hdr_at) {
        Ok(h) => h,
        Err(e) => {
            return Err(e);
        },
    };
    let hdr_size: u64 = match page_header.page_type {
        PageType::LeafTable | PageType::LeafIndex => 8,
        PageType::InteriorTable | PageType::InteriorIndex => 12,
    };
    let ptrs = match read_cell_ptrs(data, hdr_at + hdr_size, page_header.num_cells) {
        Ok(v) => v,
        Err(e) => {
            return Err(e);
        },
    };
    let arr_end: u64 = page_header_offset + hdr_size + 2 * (page_header.num_cells as u64);
    if !check_ptrs_in_bounds(&ptrs, arr_end, page_size) {
        return Err(Error::CorruptPageHeader);
    }
    match page_header.page_type {
        PageType::LeafTable => {
            let cells = match get_leaf_table_cells(data, page_offset, &ptrs) {
                Ok(v) => v,
                Err(e) => {
                    return Err(e);
                },
            };
            Ok(Page::LeafTable(LeafTablePage { page_header, cells }))
        },
        PageType::InteriorTable => {
            let cells = match get_interior_table_cells(data, page_offset, &ptrs) {
                Ok(v) => v,
                Err(e) => {
                    return Err(e);
                },
            };
            Ok(Page::InteriorTable(InteriorTablePage { page_header, cells }))
        },
        PageType::LeafIndex => {
            let cells = match get_leaf_idx_cells(data, page_offset, &ptrs) {
                Ok(v) => v,
                Err(e) => {
                    return Err(e);
                },
            };
            Ok(Page::LeafIndex(LeafIdxPage { page_header, cells }))
        },
        PageType::InteriorIndex => {
            let cells = match get_interior_idx_cells(data, page_offset, &ptrs) {
                Ok(v) => v,
                Err(e) => {
                    return Err(e);
                },
            };
            Ok(Page::InteriorIdx(InteriorIdxPage { page_header, cells }))
        },
    }
}

} // verus!
