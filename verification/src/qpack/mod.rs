//! QPACK: the header fields of HTTP/3.
//!
//! Fields are written as entries of two tables, or with new strings. The static
//! table is known to both sides. The dynamic one is built by the encoder, whose
//! instructions go over a stream of their own; a field section says how many
//! insertions have to be there before it can be read.
//!
//! [`QpackDecoder`] follows instructions with
//! [`QpackDecoder::feed_encoder_stream`] and reads sections with
//! [`QpackDecoder::decode_field_section`]. It does not wait: a section that
//! requires insertions that are still to come is refused.
//!
//! [`QpackEncoder::encode_field_section`] does without the dynamic table, so it
//! needs no stream. [`QpackEncoder::encode`] uses the table of an encoder made by
//! [`QpackEncoder::with_dynamic_table`], and gives the instructions and the section.
pub mod decoder;
pub mod dynamic_table;
pub mod encoder;
pub mod integer;
pub mod static_table;
pub mod strings;
pub mod wire;

pub use decoder::{QpackDecoder, DEFAULT_MAX_TABLE_CAPACITY};
pub use encoder::{Encoded, QpackEncoder};
