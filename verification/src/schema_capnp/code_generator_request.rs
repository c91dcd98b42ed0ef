//! `CodeGeneratorRequest`: the nodes that a compiler hands to a code generator.
use crate::error::Error;
use crate::schema_capnp::node;
use crate::{struct_list, text};
use std::sync::Arc;
use vstd::prelude::*;

verus! {

/// A file that another one imports.
pub struct Import {
    pub id: u64,
    pub name: Result<text::Reader, Error>,
}

/// A file for which code is to be generated.
pub struct RequestedFile {
    pub id: u64,
    pub imports: Result<struct_list::Reader<Import>, Error>,
}

pub struct Reader {
    pub nodes: Result<struct_list::Reader<Arc<node::Reader>>, Error>,
    pub requested_files: Result<struct_list::Reader<RequestedFile>, Error>,
}

/// A message whose root is a code generator request.
pub struct Message {
    pub root: Result<Reader, Error>,
}

} // verus!
