//! `Node`: a file, struct, enum, interface, constant or annotation declaration.
use crate::error::{Error, ErrorView};
use crate::schema_capnp::{annotation, enumerant, field, type_};
use crate::{struct_list, text};
use vstd::prelude::*;

verus! {

/// A node that is declared inside another one.
pub struct NestedNode {
    pub name: Result<text::Reader, Error>,
    pub id: u64,
}

/// The characters of a name that may be unreadable or no UTF-8.
pub open spec fn name_chars(name: Result<text::Reader, Error>) -> Result<Seq<char>, ErrorView> {
    match name {
        Ok(t) => t.decoded(),
        Err(e) => Err(e@),
    }
}

/// Reads a name as a string.
pub fn name_string(name: &Result<text::Reader, Error>) -> (r: Result<String, Error>)
    ensures
        match r {
            Ok(s) => name_chars(*name) == Ok::<Seq<char>, ErrorView>(s@),
            Err(e) => name_chars(*name) == Err::<Seq<char>, ErrorView>(e@),
        },
{
    match name {
        Ok(t) => t.to_string(),
        Err(e) => Err(e.clone()),
    }
}

pub struct Struct {
    pub fields: Result<struct_list::Reader<field::Reader>, Error>,
}

pub struct Enum {
    pub enumerants: Result<struct_list::Reader<enumerant::Reader>, Error>,
}

/// A method of an interface: the IDs of the structs of its parameters and of
/// its results.
#[derive(Clone, Copy)]
pub struct Method {
    pub param_struct_type: u64,
    pub result_struct_type: u64,
}

pub struct Interface {
    pub methods: Result<struct_list::Reader<Method>, Error>,
}

pub struct Const {
    pub type_: Result<type_::Reader, Error>,
}

/// Which kind of node it is.
pub enum Which {
    File,
    Struct(Struct),
    Enum(Enum),
    Interface(Interface),
    Const(Const),
    Annotation,
}

/// How much of a message a value takes.
#[derive(Clone, Copy)]
pub struct MessageSize {
    pub word_count: u64,
    pub cap_count: u32,
}

pub struct Reader {
    pub id: u64,
    /// The ID of the node in which this one is declared; 0 for none.
    pub scope_id: u64,
    pub nested_nodes: Result<struct_list::Reader<NestedNode>, Error>,
    pub annotations: Result<struct_list::Reader<annotation::Reader>, Error>,
    /// The size of all that the node holds.
    pub total_size: Result<MessageSize, Error>,
    /// Whether all that the node holds can be copied into another message.
    pub copy: Result<(), Error>,
    pub which: Result<Which, Error>,
}

} // verus!
