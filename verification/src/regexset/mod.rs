pub mod string;
pub mod bytes;
