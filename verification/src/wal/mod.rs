pub mod checksum;
pub mod reader;
pub mod record;
pub mod laws;
