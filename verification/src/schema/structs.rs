//! Structs and their fields.
use crate::error::{read, Error, ErrorKind, ErrorView};
use crate::introspect::{AnnotationTypes, FieldTypes, RawBrandedStructSchema, Type, TypeVariant};
use crate::schema::annotations::{is_covered, is_type_of_kind, type_of_kind, AnnotationList};
use crate::schema_capnp::{annotation, field, node};
use crate::struct_list;
use crate::traits::{IndexMove, ShortListIter};
use vstd::prelude::*;

verus! {

/// Whether a node is a struct, or of an unreadable kind.
pub open spec fn may_be_struct(node: node::Reader) -> bool {
    node.which is Err || node.which->Ok_0 is Struct
}

/// The fields of a struct node, or the error that reading them gives.
pub open spec fn fields_of(node: node::Reader) -> Result<Seq<field::Reader>, Error> {
    match node.which {
        Err(e) => Err(e),
        Ok(which) => match which->Struct_0.fields {
            Err(e) => Err(e),
            Ok(fields) => Ok(fields@),
        },
    }
}

/// Whether a field has a readable name that is not `name`.
pub open spec fn is_other(field: field::Reader, name: Seq<char>) -> bool {
    field.name matches Ok(text) && !text.is(name)
}

/// Whether a field has a readable name that is `name`.
pub open spec fn is_named(field: field::Reader, name: Seq<char>) -> bool {
    field.name matches Ok(text) && text.is(name)
}

/// Whether a field's own declaration tells its type.
pub open spec fn has_slot_type(field: field::Reader) -> bool {
    &&& field.which matches Ok(field::Which::Slot(slot))
    &&& slot.type_ matches Ok(ty)
    &&& ty.which matches Ok(which)
    &&& is_covered(which)
}

/// Whether `ty` is the type that a field's own declaration tells.
pub open spec fn is_slot_type(field: field::Reader, ty: TypeVariant) -> bool {
    &&& field.which matches Ok(field::Which::Slot(slot))
    &&& slot.type_ matches Ok(t)
    &&& t.which matches Ok(which)
    &&& is_type_of_kind(which, ty)
}

/// A struct node, with generics applied.
#[derive(Clone, Copy)]
pub struct StructSchema<'a> {
    raw: &'a RawBrandedStructSchema,
    proto: &'a node::Reader,
}

/// The outcome of reading the annotations of something.
pub open spec fn is_annotations(
    r: Result<AnnotationList, Error>,
    annotations: Result<struct_list::Reader<annotation::Reader>, Error>,
    child_index: Option<u16>,
    types: AnnotationTypes,
) -> bool {
    match annotations {
        Err(e) => r == Err::<AnnotationList, Error>(e),
        Ok(list) => {
            &&& r matches Ok(l)
            &&& l@ == list@
            &&& l.child_index() == child_index
            &&& l.types() == types
        },
    }
}

impl<'a> StructSchema<'a> {
    /// The schema as it was given.
    pub closed spec fn raw(self) -> RawBrandedStructSchema {
        *self.raw
    }

    /// The node that declares the struct.
    pub closed spec fn proto(self) -> node::Reader {
        *self.proto
    }

    /// The union's fields by discriminant.
    pub open spec fn members(self) -> Seq<u16> {
        self.raw().generic.members_by_discriminant@
    }

    pub fn new(raw: &'a RawBrandedStructSchema) -> (r: Self)
        ensures
            r.raw() == *raw,
            r.proto() == *raw.generic.encoded_node,
    {
        StructSchema { raw, proto: &raw.generic.encoded_node }
    }

    pub fn get_proto(&self) -> (r: &'a node::Reader)
        ensures
            *r == self.proto(),
    {
        self.proto
    }

    pub fn get_fields(self) -> (r: Result<FieldList<'a>, Error>)
        requires
            may_be_struct(self.proto()),
        ensures
            match fields_of(self.proto()) {
                Ok(fields) => r matches Ok(list) && list@ == fields && list.parent() == self,
                Err(e) => r == Err::<FieldList<'a>, Error>(e),
            },
    {
        let fields = self.read_fields()?;
        Ok(FieldList { fields, parent: self })
    }

    /// The fields as the node holds them.
    fn read_fields(self) -> (r: Result<&'a struct_list::Reader<field::Reader>, Error>)
        requires
            may_be_struct(self.proto()),
        ensures
            match r {
                Ok(fields) => fields_of(self.proto()) == Ok::<Seq<field::Reader>, Error>(fields@),
                Err(e) => fields_of(self.proto()) == Err::<Seq<field::Reader>, Error>(e),
            },
    {
        match read(&self.proto.which)? {
            node::Which::Struct(s) => read(&s.fields),
            _ => {
                assert(false);
                Err(Error::from_kind(ErrorKind::Failed))
            },
        }
    }

    /// The field at the place `discriminant` among the union's fields.
    pub fn get_field_by_discriminant(self, discriminant: u16) -> (r: Result<
        Option<Field<'a>>,
        Error,
    >)
        requires
            discriminant < self.members().len() ==> {
                &&& may_be_struct(self.proto())
                &&& fields_of(self.proto()) matches Ok(fields) ==> self.members()[discriminant as int]
                    < fields.len()
            },
        ensures
            if discriminant < self.members().len() {
                let index = self.members()[discriminant as int];
                match fields_of(self.proto()) {
                    Ok(fields) => {
                        &&& r matches Ok(Some(field))
                        &&& field.is_field(self, index)
                        &&& field.proto() == fields[index as int]
                    },
                    Err(e) => r == Err::<Option<Field<'a>>, Error>(e),
                }
            } else {
                r == Ok::<Option<Field<'a>>, Error>(None)
            },
    {
        let members = &self.raw.generic.members_by_discriminant;
        if (discriminant as usize) < members.len() {
            let idx: u16 = members[discriminant as usize];
            let fields = self.get_fields()?;
            Ok(Some(fields.get(idx)))
        } else {
            Ok(None)
        }
    }

    /// Looks up a field by name. Returns `None` if no matching field is found.
    pub fn find_field_by_name(&self, name: &str) -> (r: Result<Option<Field<'a>>, Error>)
        requires
            may_be_struct(self.proto()),
        ensures
            match fields_of(self.proto()) {
                Err(e) => r == Err::<Option<Field<'a>>, Error>(e),
                Ok(fields) => {
                    let count = fields.len() as u16;
                    match r {
                        Ok(Some(field)) => {
                            let k = field.index();
                            &&& k < count
                            &&& field.is_field(*self, k)
                            &&& field.proto() == fields[k as int]
                            &&& is_named(fields[k as int], name@)
                            &&& forall|j: int| 0 <= j < k ==> is_other(#[trigger] fields[j], name@)
                        },
                        Ok(None) => forall|j: int|
                            0 <= j < count ==> is_other(#[trigger] fields[j], name@),
                        Err(e) => exists|k: int|
                            {
                                &&& 0 <= k < count
                                &&& (#[trigger] fields[k]).name == Err::<crate::text::Reader, Error>(
                                    e,
                                )
                                &&& forall|j: int|
                                    0 <= j < k ==> is_other(#[trigger] fields[j], name@)
                            },
                    }
                },
            },
    {
        let list = self.get_fields()?;
        let ghost fields = list@;
        let mut iter = list.iter();
        loop
            invariant
                list@ == fields,
                list.parent() == *self,
                iter.list() == list,
                iter.size() == fields.len() as u16,
                iter.size() <= fields.len(),
                iter.index() <= iter.size(),
                fields_of(self.proto()) == Ok::<Seq<field::Reader>, Error>(fields),
                forall|j: int| 0 <= j < iter.index() ==> is_other(#[trigger] fields[j], name@),
            decreases iter.size() - iter.index(),
        {
            let ghost k = iter.index() as int;
            match iter.next() {
                Some(field) => {
                    assert(field.proto() == fields[k]);
                    let text = read(&field.get_proto().name)?;
                    if text.eq_str(name) {
                        return Ok(Some(field));
                    }
                },
                None => {
                    return Ok(None);
                },
            }
        }
    }

    /// Like `find_field_by_name()`, but returns an error if the field is not found.
    pub fn get_field_by_name(&self, name: &str) -> (r: Result<Field<'a>, Error>)
        requires
            may_be_struct(self.proto()),
        ensures
            match fields_of(self.proto()) {
                Err(e) => r == Err::<Field<'a>, Error>(e),
                Ok(fields) => {
                    let count = fields.len() as u16;
                    match r {
                        Ok(field) => {
                            let k = field.index();
                            &&& k < count
                            &&& field.is_field(*self, k)
                            &&& field.proto() == fields[k as int]
                            &&& is_named(fields[k as int], name@)
                            &&& forall|j: int| 0 <= j < k ==> is_other(#[trigger] fields[j], name@)
                        },
                        Err(e) => {
                            ||| {
                                &&& e@ == (ErrorView {
                                    kind: ErrorKind::FieldNotFound,
                                    extra: name@,
                                })
                                &&& forall|j: int|
                                    0 <= j < count ==> is_other(#[trigger] fields[j], name@)
                            }
                            ||| exists|k: int|
                                {
                                    &&& 0 <= k < count
                                    &&& (#[trigger] fields[k]).name == Err::<
                                        crate::text::Reader,
                                        Error,
                                    >(e)
                                    &&& forall|j: int|
                                        0 <= j < k ==> is_other(#[trigger] fields[j], name@)
                                }
                        },
                    }
                },
            },
    {
        match self.find_field_by_name(name)? {
            Some(field) => Ok(field),
            None => {
                let mut error = Error::from_kind(ErrorKind::FieldNotFound);
                error.extra = name.to_owned();
                Err(error)
            },
        }
    }

    /// The fields inside the union, by discriminant.
    pub fn get_union_fields(self) -> (r: Result<FieldSubset<'a>, Error>)
        requires
            may_be_struct(self.proto()),
        ensures
            match fields_of(self.proto()) {
                Ok(fields) => {
                    &&& r matches Ok(subset)
                    &&& subset.fields() == fields
                    &&& subset.indices() == self.members()
                    &&& subset.parent() == self
                },
                Err(e) => r == Err::<FieldSubset<'a>, Error>(e),
            },
    {
        let fields = self.read_fields()?;
        Ok(
            FieldSubset {
                fields,
                indices: &self.raw.generic.members_by_discriminant,
                parent: self,
            },
        )
    }

    /// The fields outside the union.
    pub fn get_non_union_fields(self) -> (r: Result<FieldSubset<'a>, Error>)
        requires
            may_be_struct(self.proto()),
        ensures
            match fields_of(self.proto()) {
                Ok(fields) => {
                    &&& r matches Ok(subset)
                    &&& subset.fields() == fields
                    &&& subset.indices() == self.raw().generic.nonunion_members@
                    &&& subset.parent() == self
                },
                Err(e) => r == Err::<FieldSubset<'a>, Error>(e),
            },
    {
        let fields = self.read_fields()?;
        Ok(FieldSubset { fields, indices: &self.raw.generic.nonunion_members, parent: self })
    }

    pub fn get_annotations(self) -> (r: Result<AnnotationList<'a>, Error>)
        ensures
            is_annotations(
                r,
                self.proto().annotations,
                None,
                *self.raw().annotation_types,
            ),
    {
        let annotations = read(&self.proto.annotations)?;
        Ok(AnnotationList::of(annotations, None, &self.raw.annotation_types))
    }
}

impl<'a> From<&'a RawBrandedStructSchema> for StructSchema<'a> {
    fn from(rs: &'a RawBrandedStructSchema) -> (r: StructSchema<'a>)
        ensures
            r.raw() == *rs,
            r.proto() == *rs.generic.encoded_node,
    {
        StructSchema::new(rs)
    }
}

impl<'a> vstd::std_specs::convert::FromSpecImpl<&'a RawBrandedStructSchema> for StructSchema<'a> {
    open spec fn obeys_from_spec() -> bool {
        true
    }

    closed spec fn from_spec(rs: &'a RawBrandedStructSchema) -> StructSchema<'a> {
        StructSchema { raw: rs, proto: &*rs.generic.encoded_node }
    }
}

/// A field of a struct, with generics applied.
#[derive(Clone, Copy)]
pub struct Field<'a> {
    proto: &'a field::Reader,
    index: u16,
    parent: StructSchema<'a>,
}

impl<'a> Field<'a> {
    /// The field in the schema.
    pub closed spec fn proto(self) -> field::Reader {
        *self.proto
    }

    /// The place of the field among the fields of its struct.
    pub closed spec fn index(self) -> u16 {
        self.index
    }

    /// The struct that the field belongs to.
    pub closed spec fn parent(self) -> StructSchema<'a> {
        self.parent
    }

    /// Whether it is the field at `index` of `parent`.
    pub open spec fn is_field(self, parent: StructSchema<'a>, index: u16) -> bool {
        self.parent() == parent && self.index() == index
    }

    pub fn get_proto(self) -> (r: &'a field::Reader)
        ensures
            *r == self.proto(),
    {
        self.proto
    }

    /// Whether the type of the field is known.
    pub open spec fn has_type(self) -> bool {
        match *self.parent().raw().field_types {
            FieldTypes::Table(table) => self.index() < table@.len(),
            FieldTypes::Dynamic => {
                &&& may_be_struct(self.parent().proto())
                &&& fields_of(self.parent().proto()) matches Ok(fields)
                &&& self.index() < fields.len() as u16
                &&& has_slot_type(fields[self.index() as int])
            },
        }
    }

    pub fn get_type(&self) -> (r: Type)
        requires
            self.has_type(),
        ensures
            match *self.parent().raw().field_types {
                FieldTypes::Table(table) => r == table@[self.index() as int],
                FieldTypes::Dynamic => is_slot_type(
                    fields_of(self.parent().proto())->Ok_0[self.index() as int],
                    r.variant,
                ),
            },
    {
        match &*self.parent.raw.field_types {
            FieldTypes::Table(table) => table[self.index as usize].clone(),
            FieldTypes::Dynamic => {
                let list = match self.parent.get_fields() {
                    Ok(list) => list,
                    Err(_) => {
                        assert(false);
                        return Type { variant: TypeVariant::Void };
                    },
                };
                let field = list.get(self.index);
                match &field.get_proto().which {
                    Ok(field::Which::Slot(slot)) => match &slot.type_ {
                        Ok(ty) => match &ty.which {
                            Ok(which) => type_of_kind(which),
                            Err(_) => {
                                assert(false);
                                Type { variant: TypeVariant::Void }
                            },
                        },
                        Err(_) => {
                            assert(false);
                            Type { variant: TypeVariant::Void }
                        },
                    },
                    _ => {
                        assert(false);
                        Type { variant: TypeVariant::Void }
                    },
                }
            },
        }
    }

    pub fn get_index(&self) -> (r: u16)
        ensures
            r == self.index(),
    {
        self.index
    }

    pub fn get_annotations(self) -> (r: Result<AnnotationList<'a>, Error>)
        ensures
            is_annotations(
                r,
                self.proto().annotations,
                Some(self.index()),
                *self.parent().raw().annotation_types,
            ),
    {
        let annotations = read(&self.proto.annotations)?;
        Ok(
            AnnotationList::of(annotations, Some(self.index), &self.parent.raw.annotation_types),
        )
    }
}

/// A list of fields of a struct, with generics applied.
#[derive(Clone, Copy)]
pub struct FieldList<'a> {
    fields: &'a struct_list::Reader<field::Reader>,
    parent: StructSchema<'a>,
}

impl<'a> View for FieldList<'a> {
    type V = Seq<field::Reader>;

    closed spec fn view(&self) -> Seq<field::Reader> {
        self.fields@
    }
}

impl<'a> FieldList<'a> {
    /// The struct that the fields belong to.
    pub closed spec fn parent(self) -> StructSchema<'a> {
        self.parent
    }

    /// The number of fields, counted in 16 bits.
    pub fn len(&self) -> (r: u16)
        ensures
            r == self@.len() as u16,
            r <= self@.len(),
    {
        let count: u32 = self.fields.len();
        assert(count as u16 <= count) by (bit_vector);
        count as u16
    }

    pub fn is_empty(&self) -> (r: bool)
        ensures
            r == (self@.len() as u16 == 0),
    {
        self.len() == 0
    }

    pub fn get(self, index: u16) -> (r: Field<'a>)
        requires
            index < self@.len(),
        ensures
            r.proto() == self@[index as int],
            r.is_field(self.parent(), index),
    {
        Field { proto: self.fields.get(index as u32), index, parent: self.parent }
    }

    /// Walks the fields.
    pub fn iter(self) -> (r: ShortListIter<Self, Field<'a>>)
        ensures
            r.list() == self,
            r.index() == 0,
            r.size() == self@.len() as u16,
            r.size() <= self@.len(),
    {
        ShortListIter::new(self, self.len())
    }
}

impl<'a> IndexMove<u16, Field<'a>> for FieldList<'a> {
    open spec fn index_ok(&self, index: u16) -> bool {
        index < self@.len()
    }

    open spec fn is_at(&self, index: u16, element: Field<'a>) -> bool {
        element.proto() == self@[index as int] && element.is_field(self.parent(), index)
    }

    fn index_move(&self, index: u16) -> (r: Field<'a>) {
        self.get(index)
    }
}

/// A list of a subset of fields of a struct, with generics applied.
#[derive(Clone, Copy)]
pub struct FieldSubset<'a> {
    fields: &'a struct_list::Reader<field::Reader>,
    indices: &'a Vec<u16>,
    parent: StructSchema<'a>,
}

impl<'a> FieldSubset<'a> {
    /// All fields of the struct.
    pub closed spec fn fields(self) -> Seq<field::Reader> {
        self.fields@
    }

    /// The places of the fields of the subset.
    pub closed spec fn indices(self) -> Seq<u16> {
        self.indices@
    }

    /// The struct that the fields belong to.
    pub closed spec fn parent(self) -> StructSchema<'a> {
        self.parent
    }

    /// The number of fields, counted in 16 bits.
    pub fn len(&self) -> (r: u16)
        ensures
            r == self.indices().len() as u16,
            r <= self.indices().len(),
    {
        let count: usize = self.indices.len();
        assert(count as u16 <= count) by (bit_vector);
        count as u16
    }

    pub fn is_empty(&self) -> (r: bool)
        ensures
            r == (self.indices().len() as u16 == 0),
    {
        self.len() == 0
    }

    pub fn get(self, index: u16) -> (r: Field<'a>)
        requires
            index < self.indices().len(),
            self.indices()[index as int] < self.fields().len(),
        ensures
            r.proto() == self.fields()[self.indices()[index as int] as int],
            r.is_field(self.parent(), self.indices()[index as int]),
    {
        let index: u16 = self.indices[index as usize];
        Field { proto: self.fields.get(index as u32), index, parent: self.parent }
    }

    /// Walks the fields.
    pub fn iter(self) -> (r: ShortListIter<Self, Field<'a>>)
        ensures
            r.list() == self,
            r.index() == 0,
            r.size() == self.indices().len() as u16,
            r.size() <= self.indices().len(),
    {
        ShortListIter::new(self, self.len())
    }
}

impl<'a> IndexMove<u16, Field<'a>> for FieldSubset<'a> {
    open spec fn index_ok(&self, index: u16) -> bool {
        &&& index < self.indices().len()
        &&& self.indices()[index as int] < self.fields().len()
    }

    open spec fn is_at(&self, index: u16, element: Field<'a>) -> bool {
        &&& element.proto() == self.fields()[self.indices()[index as int] as int]
        &&& element.is_field(self.parent(), self.indices()[index as int])
    }

    fn index_move(&self, index: u16) -> (r: Field<'a>) {
        self.get(index)
    }
}

} // verus!
