//! `Enumerant`: a member of an enum.
use crate::error::Error;
use crate::schema_capnp::annotation;
use crate::{struct_list, text};
use vstd::prelude::*;

verus! {

pub struct Reader {
    pub name: Result<text::Reader, Error>,
    pub annotations: Result<struct_list::Reader<annotation::Reader>, Error>,
}

} // verus!
