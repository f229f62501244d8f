pub mod decode;
pub mod header;
pub mod records;
