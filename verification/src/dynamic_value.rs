//! Values together with their types.
use crate::error::Error;
use crate::introspect::Type;
use crate::schema_capnp::value;
use vstd::prelude::*;

verus! {

/// A value and the type as which it is read.
pub struct Reader<'a> {
    pub value: &'a value::Reader,
    pub ty: Type,
}

/// The error that stands in the place of a value, if one does: of its kind, or of
/// its text or data.
pub open spec fn stored_error(value: value::Reader) -> Option<Error> {
    match value.which {
        Err(e) => Some(e),
        Ok(value::Which::Text(Err(e))) => Some(e),
        Ok(value::Which::Data(Err(e))) => Some(e),
        Ok(_) => None,
    }
}

impl<'a> Reader<'a> {
    /// A readable value, to be read as the given type.
    pub fn new(value: &'a value::Reader, ty: Type) -> (r: Result<Self, Error>)
        ensures
            match stored_error(*value) {
                Some(e) => r == Err::<Self, Error>(e),
                None => r == Ok::<Self, Error>(Reader { value, ty }),
            },
    {
        match &value.which {
            Err(e) => Err(e.clone()),
            Ok(value::Which::Text(Err(e))) => Err(e.clone()),
            Ok(value::Which::Data(Err(e))) => Err(e.clone()),
            Ok(_) => Ok(Reader { value, ty }),
        }
    }
}

} // verus!
