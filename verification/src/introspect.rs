//! Run-time descriptions of types.
use crate::registry::DynamicSchemaToken;
use crate::schema_capnp::node;
use std::sync::Arc;
use vstd::prelude::*;

verus! {

/// A type.
pub struct Type {
    pub variant: TypeVariant,
}

/// The kinds of type.
pub enum TypeVariant {
    Void,
    Bool,
    Int8,
    Int16,
    Int32,
    Int64,
    UInt8,
    UInt16,
    UInt32,
    UInt64,
    Float32,
    Float64,
    Text,
    Data,
    Struct(RawBrandedStructSchema),
    AnyPointer,
    Capability(RawCapabilitySchema),
    Enum(RawEnumSchema),
    List(Arc<Type>),
}

/// Where the types of a struct's fields come from: from the schema nodes
/// themselves, or from a table by field index.
pub enum FieldTypes {
    Dynamic,
    Table(Vec<Type>),
}

/// The type of the annotation at `index` on a node, or on its child of the
/// given index.
pub struct AnnotationType {
    pub child_index: Option<u16>,
    pub index: u32,
    pub ty: Type,
}

/// Where the types of annotations come from: from the annotations' own values,
/// or from a table.
pub enum AnnotationTypes {
    Dynamic,
    Table(Vec<AnnotationType>),
}

/// A struct node, without generics applied.
pub struct RawStructSchema {
    /// The node that declares the struct.
    pub encoded_node: Arc<node::Reader>,
    /// The indices of the fields outside the union, in ascending order.
    pub nonunion_members: Vec<u16>,
    /// The indices of the union's fields, by ascending discriminant.
    pub members_by_discriminant: Vec<u16>,
}

/// A struct node, with generics applied.
pub struct RawBrandedStructSchema {
    pub generic: Arc<RawStructSchema>,
    pub field_types: Arc<FieldTypes>,
    pub annotation_types: Arc<AnnotationTypes>,
    /// The run-time schema that the struct belongs to, if any.
    pub dynamic_schema: Option<DynamicSchemaToken>,
}

/// An enum node.
pub struct RawEnumSchema {
    /// The node that declares the enum, where it is known.
    pub encoded_node: Option<Arc<node::Reader>>,
    pub annotation_types: Arc<AnnotationTypes>,
}

/// An interface node.
pub struct RawCapabilitySchema {
    /// The node that declares the interface, where it is known.
    pub encoded_node: Option<Arc<node::Reader>>,
}

impl Clone for RawBrandedStructSchema {
    fn clone(&self) -> (r: Self)
        ensures
            r == *self,
    {
        RawBrandedStructSchema {
            generic: self.generic.clone(),
            field_types: self.field_types.clone(),
            annotation_types: self.annotation_types.clone(),
            dynamic_schema: self.dynamic_schema,
        }
    }
}

/// A shared copy of a node that may be unknown.
fn share(node: &Option<Arc<node::Reader>>) -> (r: Option<Arc<node::Reader>>)
    ensures
        r == *node,
{
    match node {
        Some(n) => Some(n.clone()),
        None => None,
    }
}

impl Clone for RawEnumSchema {
    fn clone(&self) -> (r: Self)
        ensures
            r == *self,
    {
        RawEnumSchema {
            encoded_node: share(&self.encoded_node),
            annotation_types: self.annotation_types.clone(),
        }
    }
}

impl Clone for RawCapabilitySchema {
    fn clone(&self) -> (r: Self)
        ensures
            r == *self,
    {
        RawCapabilitySchema { encoded_node: share(&self.encoded_node) }
    }
}

impl Clone for TypeVariant {
    fn clone(&self) -> (r: Self)
        ensures
            r == *self,
    {
        match self {
            TypeVariant::Void => TypeVariant::Void,
            TypeVariant::Bool => TypeVariant::Bool,
            TypeVariant::Int8 => TypeVariant::Int8,
            TypeVariant::Int16 => TypeVariant::Int16,
            TypeVariant::Int32 => TypeVariant::Int32,
            TypeVariant::Int64 => TypeVariant::Int64,
            TypeVariant::UInt8 => TypeVariant::UInt8,
            TypeVariant::UInt16 => TypeVariant::UInt16,
            TypeVariant::UInt32 => TypeVariant::UInt32,
            TypeVariant::UInt64 => TypeVariant::UInt64,
            TypeVariant::Float32 => TypeVariant::Float32,
            TypeVariant::Float64 => TypeVariant::Float64,
            TypeVariant::Text => TypeVariant::Text,
            TypeVariant::Data => TypeVariant::Data,
            TypeVariant::Struct(s) => TypeVariant::Struct(s.clone()),
            TypeVariant::AnyPointer => TypeVariant::AnyPointer,
            TypeVariant::Capability(c) => TypeVariant::Capability(c.clone()),
            TypeVariant::Enum(e) => TypeVariant::Enum(e.clone()),
            TypeVariant::List(t) => TypeVariant::List(t.clone()),
        }
    }
}

impl Clone for Type {
    fn clone(&self) -> (r: Self)
        ensures
            r == *self,
    {
        Type { variant: self.variant.clone() }
    }
}

impl From<TypeVariant> for Type {
    fn from(variant: TypeVariant) -> (r: Type) {
        Type { variant }
    }
}

impl vstd::std_specs::convert::FromSpecImpl<TypeVariant> for Type {
    open spec fn obeys_from_spec() -> bool {
        true
    }

    open spec fn from_spec(variant: TypeVariant) -> Type {
        Type { variant }
    }
}

} // verus!
