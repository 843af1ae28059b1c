//! Everything that can go wrong while decoding pages or answering queries.

use vstd::prelude::*;

verus! {

/// Errors of the storage and query layers.  Codec errors carry the absolute
/// byte offset of the failed read; type errors carry the offending byte or
/// serial type.  All errors propagate to the caller; nothing is swallowed.
#[derive(Clone, Copy, Debug, PartialEq, Eq)]
pub enum Error {
    /// A read at the carried absolute offset ran past the end of the file image.
    ShortRead(u64),
    /// A page type byte outside the four known kinds.
    CorruptPageType(u8),
    /// A cell pointer lying outside the cell content area: before the end
    /// of the header and its cell pointer array, or past the page's end.
    CorruptPageHeader,
    /// A varint longer than nine bytes was demanded of the codec.
    BadVarint,
    /// A text column whose body is not valid UTF-8.
    BadUtf8,
    /// A serial type outside the supported set.
    UnknownSerialType(i64),
    /// A schema-table row missing the name, root page or SQL column,
    /// or holding it with the wrong type.
    MissingSchemaColumn,
    /// Stored schema SQL that does not parse.
    BadSchemaSql,
    /// A queried table that the catalog does not hold.
    UnknownTable,
    /// A selected or filtered column that the table does not declare.
    UnknownColumn,
    /// An index key column that is not text.
    UnsupportedKeyType,
    /// A B-tree invariant violation: an empty index page, a page of the wrong
    /// kind inside a tree, or a parent chain longer than the page count.
    CorruptIndex,
    /// An interior cell naming child page 0, or a catalog root page of 0;
    /// pages are numbered from 1.
    NegativePageIndex,
}

} // verus!
