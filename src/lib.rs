//! Physical frames and x86_64 four-level paging, modelled over an arena of
//! frame-indexed tables, with the recursive self-mapping in slot 511.

pub mod frame;
pub mod page;
pub mod entry;

pub mod memory;
pub mod mapper;
pub mod temporary_page;
pub mod paging;
pub mod remap;
