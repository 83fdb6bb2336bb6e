pub mod bit_ops;
pub mod types;
