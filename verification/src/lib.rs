//! Extraction of a single database table into the NATIVE bulk-load binary
//! format: a type-directed, byte-exact encoder for column headers, per-row
//! null bitmaps and per-type value representations.

pub mod bytes_le;
pub mod calendar;
pub mod column_type;
pub mod dsn;
pub mod encoding;
pub mod errors;
pub mod file_format;
pub mod numeric;
pub mod sql_data_type;
