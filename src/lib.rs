//! Packing, serialization and parsing of structured values in the IDL wire
//! format: a packer that turns a nominal struct type into a wire layout, a
//! serializer that emits the bytes of a value under such a layout, and a
//! parser that reads them back.
pub mod ast;
pub mod deparse_values;
pub mod encoding;
pub mod inhabit;
pub mod pack;
pub mod parse_primitives;
pub mod parse_values;
pub mod round_trip;
pub mod wire_format;

pub use ast::{
    MojomError, MojomType, MojomValue, MojomWireType, Ordinal, PackedArrayType, PackedLeafType,
    PackedStructuredType,
};
pub use deparse_values::deparse_struct;
pub use pack::{bytes_to_align, pack_mojom_type, pack_struct};
pub use parse_primitives::ParserData;
pub use parse_values::parse_struct;
