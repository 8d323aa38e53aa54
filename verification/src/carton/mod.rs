pub mod carton;
pub mod carton_file_stream;
pub mod error;
pub mod file;
pub mod file_stream;
pub mod file_table;
pub mod metadata;
pub mod stream;
pub mod string_table;
