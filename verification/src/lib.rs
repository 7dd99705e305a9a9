//! Sans-IO parser and builder for RFC 7578 `multipart/form-data` bodies.
//!
//! - `multipart`: the streaming parser, fed chunk by chunk, that reports header and body events
//!   and collects the completed form parts.
//! - `builder`: the serializer of parts into a body.
//! - `headers`: parsing of header values with parameters such as `Content-Disposition`.
//! - `form_data`: the form parts, and how a part's headers describe it.

pub mod builder;
pub mod chunking;
pub mod bytes;
pub mod error;
pub mod fields;
pub mod messages;
pub mod form_data;
pub mod headers;
pub mod multipart;
pub mod round_trip;
pub mod string_map;
pub mod text;

pub use builder::MultipartBuilder;
pub use error::{BuilderError, ErrorKind, MultipartError};
pub use form_data::FormData;
pub use headers::{parse_options_header, HeaderSyntaxError};
pub use multipart::{MultipartParser, MultipartPart, MultipartState};
pub use string_map::StringMap;
