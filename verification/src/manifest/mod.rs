pub mod laws;
pub mod log;
pub mod record;
pub mod version;
