//! `Field`: a member of a struct.
use crate::error::Error;
use crate::schema_capnp::{annotation, type_};
use crate::{struct_list, text};
use vstd::prelude::*;

verus! {

/// The discriminant value of a field that is no member of the union.
pub const NO_DISCRIMINANT: u16 = 0xffff;

/// A field that holds a value of its own.
pub struct Slot {
    pub type_: Result<type_::Reader, Error>,
}

/// Which kind of field it is: a slot, or a group with its type's ID.
pub enum Which {
    Slot(Slot),
    Group(u64),
}

pub struct Reader {
    pub name: Result<text::Reader, Error>,
    pub discriminant_value: u16,
    pub annotations: Result<struct_list::Reader<annotation::Reader>, Error>,
    pub which: Result<Which, Error>,
}

} // verus!
