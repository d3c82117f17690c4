//! A single-file storage engine: a fixed-page, slotted B+tree mapping 64-bit
//! row keys to variable-size record payloads, backed by a write-through page
//! cache over a block image that the caller persists to disk.

use vstd::prelude::*;

pub mod bytes;
pub mod cell;
pub mod columns;
pub mod cursor;
pub mod database;
pub mod journal;
pub mod page;
pub mod pager;
pub mod row;
pub mod table;

verus! {

/// Size in bytes of one page, the unit of disk I/O.
pub const PAGE_SIZE: usize = 4096;

/// Size in bytes of the page header that starts every page.
pub const PAGE_HEADER_SIZE: usize = 12;

/// Highest number of pages a single tree may occupy.
pub const TABLE_MAX_PAGES: usize = 100;

/// Sentinel page number meaning "no child"; equal to `TABLE_MAX_PAGES`.
pub const INVALID_PAGE_NUM: u32 = 100;

} // verus!
