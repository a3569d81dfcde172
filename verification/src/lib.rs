//! Client-side driver core for a columnar database's HTTP transport:
//! incremental decoding of the RowBinary wire format from buffered byte
//! chunks, the commit/rollback chunk list underneath it, the grow-and-retry
//! scratch-buffer protocol, SQL template binding, and request planning.

pub mod buflist;
pub mod cursor;
pub mod error;
pub mod fixed_string;
pub mod query;
pub mod rowbinary;
pub mod sql;
