//! `Value`: the value of an annotation.
use crate::error::Error;
use vstd::prelude::*;

verus! {

/// Which value it is. Floating-point numbers are held by their bits.
pub enum Which {
    Void,
    Bool(bool),
    Int8(i8),
    Int16(i16),
    Int32(i32),
    Int64(i64),
    Uint8(u8),
    Uint16(u16),
    Uint32(u32),
    Uint64(u64),
    Float32(u32),
    Float64(u64),
    Text(Result<crate::text::Reader, Error>),
    Data(Result<Vec<u8>, Error>),
    List,
    Enum(u16),
    Struct,
    Interface,
    AnyPointer,
}

pub struct Reader {
    pub which: Result<Which, Error>,
}

} // verus!
