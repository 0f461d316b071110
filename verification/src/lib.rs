//! A verified parser for static host-to-address mapping files in the
//! conventional "hosts" format: one network address per line followed by
//! the names it resolves, with full-line `#` comments and blank lines
//! ignored.  Addresses are parsed from their textual literals and only
//! loopback or private-range addresses are accepted into records.

pub mod address;
pub mod parser;
pub mod record;
pub mod text;

pub use address::Address;
pub use address::AddressParseError;
pub use parser::Parser;
pub use parser::ParserError;
pub use parser::Part;
pub use record::Record;
pub use record::RecordError;
