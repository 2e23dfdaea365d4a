pub mod generic;
pub mod blocks;
