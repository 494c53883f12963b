//! Domain-name utilities: the DNS wire-format encoding of a dot-separated
//! name, the chain of parent suffixes of a name, and two small helpers for
//! shortening and cleaning strings shown to people.
//!
//! Everything is modelled at the byte level: a name is its UTF-8 byte
//! sequence, labels are the runs of bytes between `.` bytes, and the wire
//! format is each label prefixed by its length, closed by a zero byte.

pub mod encode;
pub mod model;
pub mod scan;
pub mod suffixes;
pub mod text;

pub use encode::dns_encode;
pub use encode::LabelTooLong;
pub use suffixes::iter_parent_names;
pub use text::sanitaze_error_data_from_rpc;
pub use text::truncate_str;
