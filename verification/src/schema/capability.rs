//! Interfaces.
use crate::introspect::RawCapabilitySchema;
use crate::schema_capnp::node;
use vstd::prelude::*;

verus! {

/// A capability schema
#[derive(Clone, Copy)]
pub struct CapabilitySchema<'a> {
    raw: &'a RawCapabilitySchema,
}

impl<'a> CapabilitySchema<'a> {
    /// The schema as it was given.
    pub closed spec fn raw(self) -> RawCapabilitySchema {
        *self.raw
    }

    /// The node that declares the interface.
    pub open spec fn proto(self) -> node::Reader {
        *self.raw().encoded_node->Some_0
    }

    /// Whether the node is known.
    pub open spec fn has_proto(self) -> bool {
        self.raw().encoded_node is Some
    }

    /// The schema of an interface whose node is known.
    pub fn new(raw: &'a RawCapabilitySchema) -> (r: Self)
        requires
            raw.encoded_node is Some,
        ensures
            r.raw() == *raw,
            r.has_proto(),
            r.proto() == *raw.encoded_node->Some_0,
    {
        CapabilitySchema { raw }
    }

    pub fn get_proto(self) -> (r: &'a node::Reader)
        requires
            self.has_proto(),
        ensures
            *r == self.proto(),
    {
        self.raw.encoded_node.as_ref().unwrap()
    }
}

impl<'a> From<&'a RawCapabilitySchema> for CapabilitySchema<'a> {
    /// The schema of an interface. Where its node is not known, nothing can be asked of
    /// the schema.
    fn from(re: &'a RawCapabilitySchema) -> (r: CapabilitySchema<'a>)
        ensures
            r.raw() == *re,
    {
        CapabilitySchema { raw: re }
    }
}

impl<'a> vstd::std_specs::convert::FromSpecImpl<&'a RawCapabilitySchema> for CapabilitySchema<'a> {
    open spec fn obeys_from_spec() -> bool {
        true
    }

    closed spec fn from_spec(re: &'a RawCapabilitySchema) -> CapabilitySchema<'a> {
        CapabilitySchema { raw: re }
    }
}

} // verus!
