//! `Annotation`: an annotation applied to a node, field or enumerant.
use crate::error::Error;
use crate::schema_capnp::value;
use vstd::prelude::*;

verus! {

pub struct Reader {
    /// The ID of the annotation node.
    pub id: u64,
    pub value: Result<value::Reader, Error>,
}

} // verus!
