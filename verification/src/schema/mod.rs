//! Convenience wrappers of the datatypes of the schema language.
pub mod annotations;
pub mod build_laws;
pub mod capability;
pub mod dynamic;
pub mod enums;
pub mod laws;
pub mod members;
pub mod nodes;
pub mod parents;
pub mod scopes;
pub mod structs;
pub mod type_laws;

pub use annotations::{Annotation, AnnotationList};
pub use capability::CapabilitySchema;
pub use dynamic::DynamicSchema;
pub use enums::{EnumSchema, Enumerant, EnumerantList};
pub use structs::{Field, FieldList, FieldSubset, StructSchema};
pub use crate::registry::{DynamicSchemaRegistry, DynamicSchemaToken};
