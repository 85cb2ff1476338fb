pub mod edit_laws;
pub mod laws;
pub mod level_laws;
pub mod merge_spec;
pub mod merger;
pub mod picker;
pub mod tombstones;
pub mod worker;
