pub mod endian;
pub mod ids;
pub mod order;
pub mod sequence;
pub mod traits;
pub mod key_value;
pub mod text;
pub mod error;
pub mod codec;
