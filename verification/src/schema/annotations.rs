//! Annotations of nodes, fields and enumerants.
use crate::dynamic_value;
use crate::dynamic_value::stored_error;
use crate::error::{read, Error};
use crate::introspect::{AnnotationTypes, RawCapabilitySchema, RawEnumSchema, Type, TypeVariant};
use crate::schema::nodes::{const_type, dynamic_annotation_marker, type_of_const};
use crate::schema_capnp::{annotation, type_, value};
use crate::struct_list;
use crate::traits::{IndexMove, ListIter};
use std::sync::Arc;
use vstd::prelude::*;

verus! {

/// Whether a type's kind alone tells the type, as far as run-time schemas know
/// it.
pub open spec fn is_covered(which: type_::Which) -> bool {
    which != type_::Which::List && which != type_::Which::Struct
}

/// Whether `ty` is what a type's kind alone tells: of an enum and of an
/// interface, not which one.
pub open spec fn is_type_of_kind(which: type_::Which, ty: TypeVariant) -> bool {
    match which {
        type_::Which::Enum => {
            &&& ty matches TypeVariant::Enum(e)
            &&& e.encoded_node is None
            &&& *e.annotation_types == AnnotationTypes::Dynamic
        },
        type_::Which::Interface => {
            &&& ty matches TypeVariant::Capability(c)
            &&& c.encoded_node is None
        },
        type_::Which::AnyPointer => ty == TypeVariant::AnyPointer,
        _ => const_type(which) == Some(ty),
    }
}

/// The type that a kind alone tells.
pub(crate) fn type_of_kind(which: &type_::Which) -> (r: Type)
    requires
        is_covered(*which),
    ensures
        is_type_of_kind(*which, r.variant),
{
    let variant = match which {
        type_::Which::Enum => TypeVariant::Enum(
            RawEnumSchema {
                encoded_node: None,
                annotation_types: Arc::new(dynamic_annotation_marker()),
            },
        ),
        type_::Which::Interface => TypeVariant::Capability(
            RawCapabilitySchema { encoded_node: None },
        ),
        type_::Which::AnyPointer => TypeVariant::AnyPointer,
        other => match type_of_const(other) {
            Some(ty) => ty,
            None => {
                assert(false);
                TypeVariant::Void
            },
        },
    };
    Type { variant }
}

/// The kind of type that a value has.
pub open spec fn kind_of_value(which: value::Which) -> type_::Which {
    match which {
        value::Which::Void => type_::Which::Void,
        value::Which::Bool(_) => type_::Which::Bool,
        value::Which::Int8(_) => type_::Which::Int8,
        value::Which::Int16(_) => type_::Which::Int16,
        value::Which::Int32(_) => type_::Which::Int32,
        value::Which::Int64(_) => type_::Which::Int64,
        value::Which::Uint8(_) => type_::Which::Uint8,
        value::Which::Uint16(_) => type_::Which::Uint16,
        value::Which::Uint32(_) => type_::Which::Uint32,
        value::Which::Uint64(_) => type_::Which::Uint64,
        value::Which::Float32(_) => type_::Which::Float32,
        value::Which::Float64(_) => type_::Which::Float64,
        value::Which::Text(_) => type_::Which::Text,
        value::Which::Data(_) => type_::Which::Data,
        value::Which::List => type_::Which::List,
        value::Which::Enum(_) => type_::Which::Enum,
        value::Which::Struct => type_::Which::Struct,
        value::Which::Interface => type_::Which::Interface,
        value::Which::AnyPointer => type_::Which::AnyPointer,
    }
}

/// The kind of type that a value has.
fn value_kind(which: &value::Which) -> (r: type_::Which)
    ensures
        r == kind_of_value(*which),
{
    match which {
        value::Which::Void => type_::Which::Void,
        value::Which::Bool(_) => type_::Which::Bool,
        value::Which::Int8(_) => type_::Which::Int8,
        value::Which::Int16(_) => type_::Which::Int16,
        value::Which::Int32(_) => type_::Which::Int32,
        value::Which::Int64(_) => type_::Which::Int64,
        value::Which::Uint8(_) => type_::Which::Uint8,
        value::Which::Uint16(_) => type_::Which::Uint16,
        value::Which::Uint32(_) => type_::Which::Uint32,
        value::Which::Uint64(_) => type_::Which::Uint64,
        value::Which::Float32(_) => type_::Which::Float32,
        value::Which::Float64(_) => type_::Which::Float64,
        value::Which::Text(_) => type_::Which::Text,
        value::Which::Data(_) => type_::Which::Data,
        value::Which::List => type_::Which::List,
        value::Which::Enum(_) => type_::Which::Enum,
        value::Which::Struct => type_::Which::Struct,
        value::Which::Interface => type_::Which::Interface,
        value::Which::AnyPointer => type_::Which::AnyPointer,
    }
}

/// An annotation.
pub struct Annotation<'a> {
    proto: &'a annotation::Reader,
    ty: Type,
}

impl<'a> Annotation<'a> {
    /// The annotation in the schema.
    pub closed spec fn proto(self) -> annotation::Reader {
        *self.proto
    }

    /// The type of the annotation's value.
    pub closed spec fn ty(self) -> Type {
        self.ty
    }

    /// Gets the value held in this annotation.
    pub fn get_value(self) -> (r: Result<dynamic_value::Reader<'a>, Error>)
        ensures
            match self.proto().value {
                Ok(value) => match stored_error(value) {
                    Some(e) => r == Err::<dynamic_value::Reader<'a>, Error>(e),
                    None => {
                        &&& r matches Ok(reader)
                        &&& *reader.value == value
                        &&& reader.ty == self.ty()
                    },
                },
                Err(e) => r == Err::<dynamic_value::Reader<'a>, Error>(e),
            },
    {
        match read(&self.proto.value) {
            Ok(value) => dynamic_value::Reader::new(value, self.ty),
            Err(e) => Err(e),
        }
    }

    /// Gets the ID of the annotation node.
    pub fn get_id(&self) -> (r: u64)
        ensures
            r == self.proto().id,
    {
        self.proto.id
    }

    /// Gets the type of the value held in this annotation.
    pub fn get_type(&self) -> (r: Type)
        ensures
            r == self.ty(),
    {
        self.ty.clone()
    }
}

/// A list of annotations.
#[derive(Clone, Copy)]
pub struct AnnotationList<'a> {
    annotations: &'a struct_list::Reader<annotation::Reader>,
    child_index: Option<u16>,
    get_annotation_type: &'a AnnotationTypes,
}

impl<'a> View for AnnotationList<'a> {
    type V = Seq<annotation::Reader>;

    closed spec fn view(&self) -> Seq<annotation::Reader> {
        self.annotations@
    }
}

impl<'a> AnnotationList<'a> {
    /// The index of the annotated child, where it is no node that is annotated.
    pub closed spec fn child_index(self) -> Option<u16> {
        self.child_index
    }

    /// Where the types of the annotations come from.
    pub closed spec fn types(self) -> AnnotationTypes {
        *self.get_annotation_type
    }

    /// Whether the entry at `k` of a table of types is the first one for the
    /// annotation at `index`.
    pub open spec fn is_entry(self, index: u32, k: int) -> bool {
        &&& self.types() matches AnnotationTypes::Table(table)
        &&& 0 <= k < table@.len()
        &&& table@[k].child_index == self.child_index()
        &&& table@[k].index == index
        &&& forall|j: int|
            0 <= j < k ==> !((#[trigger] table@[j]).child_index == self.child_index()
                && table@[j].index == index)
    }

    /// Whether the type of the annotation at `index` is known: it has an entry
    /// in the table, or a value whose kind tells it.
    pub open spec fn has_type(self, index: u32) -> bool {
        match self.types() {
            AnnotationTypes::Table(_) => exists|k: int| self.is_entry(index, k),
            AnnotationTypes::Dynamic => {
                &&& self@[index as int].value matches Ok(v)
                &&& v.which matches Ok(which)
                &&& is_covered(kind_of_value(which))
            },
        }
    }

    /// Whether `ty` is the type of the annotation at `index`.
    pub open spec fn is_type_at(self, index: u32, ty: Type) -> bool {
        match self.types() {
            AnnotationTypes::Table(table) => exists|k: int|
                self.is_entry(index, k) && table@[k].ty == ty,
            AnnotationTypes::Dynamic => is_type_of_kind(
                kind_of_value(self@[index as int].value->Ok_0.which->Ok_0),
                ty.variant,
            ),
        }
    }

    pub(crate) fn of(
        annotations: &'a struct_list::Reader<annotation::Reader>,
        child_index: Option<u16>,
        get_annotation_type: &'a AnnotationTypes,
    ) -> (r: Self)
        ensures
            r@ == annotations@,
            r.child_index() == child_index,
            r.types() == *get_annotation_type,
    {
        AnnotationList { annotations, child_index, get_annotation_type }
    }

    pub fn len(&self) -> (r: u32)
        ensures
            r == self@.len(),
    {
        self.annotations.len()
    }

    pub fn is_empty(&self) -> (r: bool)
        ensures
            r == (self@.len() == 0),
    {
        self.len() == 0
    }

    pub fn get(self, index: u32) -> (r: Annotation<'a>)
        requires
            index < self@.len(),
            self.has_type(index),
        ensures
            r.proto() == self@[index as int],
            self.is_type_at(index, r.ty()),
    {
        let proto = self.annotations.get(index);
        let ty = match self.get_annotation_type {
            AnnotationTypes::Table(table) => {
                let mut k: usize = 0;
                let ghost entry = choose|e: int| self.is_entry(index, e);
                while !(table[k].child_index == self.child_index && table[k].index == index)
                    invariant
                        *self.get_annotation_type == AnnotationTypes::Table(*table),
                        self.is_entry(index, entry),
                        0 <= k <= entry,
                        forall|j: int|
                            0 <= j < k ==> !((#[trigger] table@[j]).child_index
                                == self.child_index && table@[j].index == index),
                    decreases entry - k,
                {
                    assert(k < entry < table.len());
                    k += 1;
                }
                assert(self.is_entry(index, k as int));
                table[k].ty.clone()
            },
            AnnotationTypes::Dynamic => {
                match &proto.value {
                    Ok(v) => match &v.which {
                        Ok(which) => type_of_kind(&value_kind(which)),
                        Err(_) => {
                            assert(false);
                            Type { variant: TypeVariant::Void }
                        },
                    },
                    Err(_) => {
                        assert(false);
                        Type { variant: TypeVariant::Void }
                    },
                }
            },
        };
        Annotation { proto, ty }
    }

    /// Returns the first annotation in the list that matches `id`.
    /// Otherwise returns `None`.
    pub fn find(self, id: u64) -> (r: Option<Annotation<'a>>)
        requires
            forall|i: int|
                #![trigger self@[i]]
                0 <= i < self@.len() && (forall|j: int| 0 <= j < i ==> (#[trigger] self@[j]).id
                    != id) ==> self.has_type(i as u32),
        ensures
            match r {
                Some(a) => exists|i: int|
                    {
                        &&& 0 <= i < self@.len()
                        &&& a.proto() == #[trigger] self@[i]
                        &&& self@[i].id == id
                        &&& self.is_type_at(i as u32, a.ty())
                        &&& forall|j: int| 0 <= j < i ==> (#[trigger] self@[j]).id != id
                    },
                None => forall|i: int| 0 <= i < self@.len() ==> (#[trigger] self@[i]).id != id,
            },
    {
        let mut iter = self.iter();
        loop
            invariant
                iter.list() == self,
                iter.size() == self@.len(),
                0 <= iter.index() <= self@.len(),
                forall|i: int|
                    #![trigger self@[i]]
                    0 <= i < self@.len() && (forall|j: int|
                        0 <= j < i ==> (#[trigger] self@[j]).id != id) ==> self.has_type(i as u32),
                forall|j: int| 0 <= j < iter.index() ==> (#[trigger] self@[j]).id != id,
            decreases self@.len() - iter.index(),
        {
            let ghost i = iter.index() as int;
            assert(i < self@.len() ==> self@[i] == self@[i]);
            match iter.next() {
                Some(annotation) => {
                    if annotation.get_id() == id {
                        assert(annotation.proto() == self@[i]);
                        return Some(annotation);
                    }
                },
                None => {
                    return None;
                },
            }
        }
    }

    /// Walks the annotations.
    pub fn iter(self) -> (r: ListIter<Self, Annotation<'a>>)
        ensures
            r.list() == self,
            r.index() == 0,
            r.size() == self@.len(),
    {
        ListIter::new(self, self.len())
    }
}

impl<'a> IndexMove<u32, Annotation<'a>> for AnnotationList<'a> {
    open spec fn index_ok(&self, index: u32) -> bool {
        index < self@.len() && self.has_type(index)
    }

    open spec fn is_at(&self, index: u32, element: Annotation<'a>) -> bool {
        element.proto() == self@[index as int] && self.is_type_at(index, element.ty())
    }

    fn index_move(&self, index: u32) -> (r: Annotation<'a>) {
        self.get(index)
    }
}

} // verus!
