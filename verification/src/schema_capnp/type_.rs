//! `Type`: the type of a field or of a constant.
use crate::error::Error;
use vstd::prelude::*;

verus! {

/// Which type it is.
#[derive(Clone, Copy, Debug, PartialEq, Eq, Structural)]
pub enum Which {
    Void,
    Bool,
    Int8,
    Int16,
    Int32,
    Int64,
    Uint8,
    Uint16,
    Uint32,
    Uint64,
    Float32,
    Float64,
    Text,
    Data,
    List,
    Enum,
    Struct,
    Interface,
    AnyPointer,
}

pub struct Reader {
    pub which: Result<Which, Error>,
}

} // verus!
