//! Tab-separated text tables: a header line of field names, then one line per record.

pub mod text;
pub mod value;
pub mod record;
pub mod table;
pub mod laws;
pub mod person;

pub use person::Person;
pub use record::{TsvError, TsvSerialize};
pub use table::{from_tsv_string, to_tsv_string};
pub use value::TsvValue;
