//! A deterministic DAG-CBOR codec for the IPLD data model.
//!
//! Encoding is canonical: one value, one byte string. Decoding accepts a
//! fixed set of CBOR framings, and the links of an encoded block can be
//! listed without building the value.

pub mod error;
pub mod cursor;
pub mod bytes;
pub mod framing;
pub mod link;
pub mod float;
pub mod ipld;
pub mod wire;
pub mod codec;
pub mod encode;
pub mod decode;
pub mod scan;
pub mod scalars;
pub mod containers;
pub mod string_map;
pub mod prim;
pub mod laws;

pub use codec::{Codec, DagCbor, DagCborCodec, Decode, Encode, References, SkipOne};
pub use containers::{read_list, read_list_il};
pub use cursor::{ByteCursor, SeekFrom};
pub use decode::read_link;
pub use error::{Error, UnsupportedCodec};
pub use framing::{
    read_bytes, read_f32, read_f64, read_len, read_str, read_u16, read_u32, read_u64, read_u8,
    write_null, write_tag, write_u16, write_u32, write_u64, write_u8,
};
pub use ipld::Ipld;
pub use link::Cid;
pub use prim::Op;
pub use scalars::{F32, F64};
pub use string_map::{read_map, read_map_il, StringMap};
