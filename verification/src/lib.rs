//! A single-file embedded table store: rows keyed by a `u32`, kept in a paged
//! B-tree whose pages are fixed-size byte buffers. The crate covers the row
//! codec, the node layout, the page cache, the cursor operations, ordered
//! insertion with duplicate rejection, the leaf-split protocol, and the
//! statement front end. File and terminal I/O stay outside: the library takes
//! the database file's bytes at open and hands back the pages to write at
//! close.

pub mod layout;
pub mod bytes_le;
pub mod row;
pub mod node;
pub mod pager;
pub mod cursor;
pub mod table;
pub mod engine;
pub mod statement;
