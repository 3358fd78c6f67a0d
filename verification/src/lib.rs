//! INI documents: sections (named, or the unnamed general section) holding
//! key/value properties, read from INI text and written back to it.
//!
//! - `assoc`: lists of pairs read as finite maps, and their laws.
//! - `text`: white space, trimming, and building strings.
//! - `properties`: the key/value pairs of one section.
//! - `document`: a whole document and the setter, entry and iterators over it.
//! - `grammar`: the INI text format, stated over character sequences.
//! - `parser`: the reader that turns text into a document, verified against `grammar`.
//! - `writer`: the document's INI text.
//! - `laws`: what holds across the operations.
//! - `reader_laws`: what the reader does with single characters and runs of text.
//! - `round_trip`: reading back what the writer wrote.
pub mod assoc;
pub mod document;
pub mod grammar;
pub mod laws;
pub mod parser;
pub mod properties;
pub mod reader_laws;
pub mod round_trip;
pub mod text;
pub mod writer;

pub use document::{Ini, SectionEntry, SectionIterator, SectionMutIterator, SectionSetter};
pub use parser::{Error, Parser, Scan};
pub use properties::Properties;
pub use writer::escape_str;
