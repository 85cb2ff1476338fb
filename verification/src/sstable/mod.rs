pub mod record;
pub mod block;
pub mod footer;
pub mod index;
pub mod layout;
pub mod writer;
pub mod reader;
pub mod table;
pub mod laws;
pub mod scan_laws;
