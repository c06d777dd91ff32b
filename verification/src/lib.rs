//! Declarative binary-protocol toolkit: a resolved protocol description drives
//! a byte-level codec (decode/encode with bit packing, presence bitmaps and
//! recursion), a zero-allocation walk engine (extent, validation, zeroing,
//! excision) and a frame layer that partitions records into accepted and
//! rejected ones.

pub mod ast;
pub mod codec;
pub mod frame;
pub mod laws;
pub mod lint;
pub mod walk;
pub mod value;
pub mod wire;

pub use ast::{AbstractType, FspecMapping, Protocol, ResolvedProtocol, TypeDefSection, TypeSpec};
pub use codec::{Codec, CodecError, Endianness};
pub use frame::{decode_frame, FrameDecodeResult};
pub use lint::{lint, LintMessage, LintRule, Severity};
pub use value::Value;
pub use walk::Endianness as WalkEndianness;
pub use walk::{
    message_extent, validate_message_in_place, zero_padding_reserved_in_place,
    validate_and_zero_message_in_place, remove_message_in_place, write_u32_in_place, BinaryWalker,
    BinaryWalkerMut,
};
