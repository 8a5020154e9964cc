pub mod bytes;
pub mod line_records;
pub mod utils;
pub mod read_text_file_lines_stream;
pub mod write_file_stream;
pub mod read_file_stream;
