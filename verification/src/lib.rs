//! Compression codecs, and QPACK, with proofs.
//!
//! The codecs work a call at a time on slices of input and output; [`traits`] says
//! how they are driven, and [`machine`] what most of them have in common. What a
//! codec does is stated by functions from the input so far to the output so far, and
//! where there are an encoder and a decoder, it is proved that the one undoes the
//! other.

pub mod be;
pub mod bitqueue;
pub mod bits;
pub mod calls;
pub mod canonical;
pub mod checksum;
pub mod error;
pub mod groups;
pub mod hpack;
pub mod le;
pub mod lz;
pub mod lzham;
pub mod lzma2;
pub mod lzma2_internal;
pub mod lznt1;
pub mod lzs;
pub mod lzss;
pub mod lzx;
pub mod machine;
pub mod mtf;
pub mod packbits;
pub mod ppmd;
pub mod pump;
pub mod qpack;
pub mod rangecoder;
pub mod rar1;
pub mod rar3;
pub mod rar5;
pub mod rar_filters;
pub mod rar_transforms;
pub mod rc;
pub mod rle90;
pub mod sit13;
pub mod traits;
