//! Enums and their enumerants.
use crate::error::{read, Error, ErrorKind};
use crate::introspect::RawEnumSchema;
use crate::schema::annotations::AnnotationList;
use crate::schema::structs::is_annotations;
use crate::schema_capnp::{enumerant, node};
use crate::struct_list;
use crate::traits::{IndexMove, ShortListIter};
use vstd::prelude::*;

verus! {

/// Whether a node is an enum, or of an unreadable kind.
pub open spec fn may_be_enum(node: node::Reader) -> bool {
    node.which is Err || node.which->Ok_0 is Enum
}

/// The enumerants of an enum node, or the error that reading them gives.
pub open spec fn enumerants_of(node: node::Reader) -> Result<Seq<enumerant::Reader>, Error> {
    match node.which {
        Err(e) => Err(e),
        Ok(which) => match which->Enum_0.enumerants {
            Err(e) => Err(e),
            Ok(enumerants) => Ok(enumerants@),
        },
    }
}

/// An enum, with generics applied. (Generics may affect types of annotations.)
#[derive(Clone, Copy)]
pub struct EnumSchema<'a> {
    raw: &'a RawEnumSchema,
}

impl<'a> EnumSchema<'a> {
    /// The schema as it was given.
    pub closed spec fn raw(self) -> RawEnumSchema {
        *self.raw
    }

    /// The node that declares the enum.
    pub open spec fn proto(self) -> node::Reader {
        *self.raw().encoded_node->Some_0
    }

    /// Whether the node is known.
    pub open spec fn has_proto(self) -> bool {
        self.raw().encoded_node is Some
    }

    /// The schema of an enum whose node is known.
    pub fn new(raw: &'a RawEnumSchema) -> (r: Self)
        requires
            raw.encoded_node is Some,
        ensures
            r.raw() == *raw,
            r.has_proto(),
            r.proto() == *raw.encoded_node->Some_0,
    {
        EnumSchema { raw }
    }

    pub fn get_proto(self) -> (r: &'a node::Reader)
        requires
            self.has_proto(),
        ensures
            *r == self.proto(),
    {
        self.raw.encoded_node.as_ref().unwrap()
    }

    pub fn get_enumerants(self) -> (r: Result<EnumerantList<'a>, Error>)
        requires
            self.has_proto(),
            may_be_enum(self.proto()),
        ensures
            match enumerants_of(self.proto()) {
                Ok(enumerants) => r matches Ok(list) && list@ == enumerants && list.parent() == self,
                Err(e) => r == Err::<EnumerantList<'a>, Error>(e),
            },
    {
        match read(&self.get_proto().which)? {
            node::Which::Enum(s) => {
                let enumerants = read(&s.enumerants)?;
                Ok(EnumerantList { enumerants, parent: self })
            },
            _ => {
                assert(false);
                Err(Error::from_kind(ErrorKind::Failed))
            },
        }
    }

    pub fn get_annotations(self) -> (r: Result<AnnotationList<'a>, Error>)
        requires
            self.has_proto(),
        ensures
            is_annotations(
                r,
                self.proto().annotations,
                None,
                *self.raw().annotation_types,
            ),
    {
        let annotations = read(&self.get_proto().annotations)?;
        Ok(AnnotationList::of(annotations, None, &self.raw.annotation_types))
    }
}

impl<'a> From<&'a RawEnumSchema> for EnumSchema<'a> {
    /// The schema of an enum. Where its node is not known, nothing can be asked of
    /// the schema.
    fn from(re: &'a RawEnumSchema) -> (r: EnumSchema<'a>)
        ensures
            r.raw() == *re,
    {
        EnumSchema { raw: re }
    }
}

impl<'a> vstd::std_specs::convert::FromSpecImpl<&'a RawEnumSchema> for EnumSchema<'a> {
    open spec fn obeys_from_spec() -> bool {
        true
    }

    closed spec fn from_spec(re: &'a RawEnumSchema) -> EnumSchema<'a> {
        EnumSchema { raw: re }
    }
}

/// An enumerant, with generics applied. (Generics may affect types of annotations.)
#[derive(Clone, Copy)]
pub struct Enumerant<'a> {
    ordinal: u16,
    parent: EnumSchema<'a>,
    proto: &'a enumerant::Reader,
}

impl<'a> Enumerant<'a> {
    /// The enumerant in the schema.
    pub closed spec fn proto(self) -> enumerant::Reader {
        *self.proto
    }

    /// The place of the enumerant among those of its enum.
    pub closed spec fn ordinal(self) -> u16 {
        self.ordinal
    }

    /// The enum that the enumerant belongs to.
    pub closed spec fn parent(self) -> EnumSchema<'a> {
        self.parent
    }

    pub fn get_containing_enum(self) -> (r: EnumSchema<'a>)
        ensures
            r == self.parent(),
    {
        self.parent
    }

    pub fn get_ordinal(self) -> (r: u16)
        ensures
            r == self.ordinal(),
    {
        self.ordinal
    }

    pub fn get_proto(self) -> (r: &'a enumerant::Reader)
        ensures
            *r == self.proto(),
    {
        self.proto
    }

    pub fn get_annotations(self) -> (r: Result<AnnotationList<'a>, Error>)
        ensures
            is_annotations(
                r,
                self.proto().annotations,
                Some(self.ordinal()),
                *self.parent().raw().annotation_types,
            ),
    {
        let annotations = read(&self.proto.annotations)?;
        Ok(
            AnnotationList::of(annotations, Some(self.ordinal), &self.parent.raw.annotation_types),
        )
    }
}

/// A list of enumerants.
#[derive(Clone, Copy)]
pub struct EnumerantList<'a> {
    enumerants: &'a struct_list::Reader<enumerant::Reader>,
    parent: EnumSchema<'a>,
}

impl<'a> View for EnumerantList<'a> {
    type V = Seq<enumerant::Reader>;

    closed spec fn view(&self) -> Seq<enumerant::Reader> {
        self.enumerants@
    }
}

impl<'a> EnumerantList<'a> {
    /// The enum that the enumerants belong to.
    pub closed spec fn parent(self) -> EnumSchema<'a> {
        self.parent
    }

    /// The number of enumerants, counted in 16 bits.
    pub fn len(&self) -> (r: u16)
        ensures
            r == self@.len() as u16,
            r <= self@.len(),
    {
        let count: u32 = self.enumerants.len();
        assert(count as u16 <= count) by (bit_vector);
        count as u16
    }

    pub fn is_empty(&self) -> (r: bool)
        ensures
            r == (self@.len() as u16 == 0),
    {
        self.len() == 0
    }

    pub fn get(self, ordinal: u16) -> (r: Enumerant<'a>)
        requires
            ordinal < self@.len(),
        ensures
            r.proto() == self@[ordinal as int],
            r.ordinal() == ordinal,
            r.parent() == self.parent(),
    {
        Enumerant { proto: self.enumerants.get(ordinal as u32), ordinal, parent: self.parent }
    }

    /// Walks the enumerants.
    pub fn iter(self) -> (r: ShortListIter<Self, Enumerant<'a>>)
        ensures
            r.list() == self,
            r.index() == 0,
            r.size() == self@.len() as u16,
            r.size() <= self@.len(),
    {
        ShortListIter::new(self, self.len())
    }
}

impl<'a> IndexMove<u16, Enumerant<'a>> for EnumerantList<'a> {
    open spec fn index_ok(&self, index: u16) -> bool {
        index < self@.len()
    }

    open spec fn is_at(&self, index: u16, element: Enumerant<'a>) -> bool {
        &&& element.proto() == self@[index as int]
        &&& element.ordinal() == index
        &&& element.parent() == self.parent()
    }

    fn index_move(&self, index: u16) -> (r: Enumerant<'a>) {
        self.get(index)
    }
}

} // verus!
