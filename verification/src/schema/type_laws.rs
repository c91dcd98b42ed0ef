//! What holds of the types, fields, enumerants and annotations of every schema.
use crate::dynamic_value::stored_error;
use crate::error::Error;
use crate::introspect::{AnnotationTypes, Type, TypeVariant};
use crate::schema::annotations::{
    is_covered, is_type_of_kind, kind_of_value, Annotation, AnnotationList,
};
use crate::schema::capability::CapabilitySchema;
use crate::schema::enums::{enumerants_of, may_be_enum, EnumSchema, Enumerant, EnumerantList};
use crate::schema::nodes::const_type;
use crate::schema::structs::{
    fields_of, has_slot_type, is_annotations, is_named, is_other, is_slot_type, may_be_struct,
    Field, FieldList, FieldSubset, StructSchema,
};
use crate::schema_capnp::{annotation, enumerant, field, node, type_, value};
use crate::struct_list;
use crate::text;
use crate::traits::IndexMove;
use vstd::prelude::*;

verus! {

/// Whether a type is that of the given kind: the variant of the same name. Of an enum
/// and of an interface, it is not known which one.
pub open spec fn is_variant_of(which: type_::Which, ty: TypeVariant) -> bool {
    &&& which is Void <==> ty is Void
    &&& which is Bool <==> ty is Bool
    &&& which is Int8 <==> ty is Int8
    &&& which is Int16 <==> ty is Int16
    &&& which is Int32 <==> ty is Int32
    &&& which is Int64 <==> ty is Int64
    &&& which is Uint8 <==> ty is UInt8
    &&& which is Uint16 <==> ty is UInt16
    &&& which is Uint32 <==> ty is UInt32
    &&& which is Uint64 <==> ty is UInt64
    &&& which is Float32 <==> ty is Float32
    &&& which is Float64 <==> ty is Float64
    &&& which is Text <==> ty is Text
    &&& which is Data <==> ty is Data
    &&& which is List <==> ty is List
    &&& which is Enum <==> ty is Enum
    &&& which is Struct <==> ty is Struct
    &&& which is Interface <==> ty is Capability
    &&& which is AnyPointer <==> ty is AnyPointer
}

/// The type that a kind alone tells is the variant of the same name; and every such
/// variant is one, where nothing is said of which enum or interface it is.
pub proof fn law_kinds_tell_their_types(which: type_::Which, ty: TypeVariant)
    requires
        !(which is List),
        !(which is Struct),
    ensures
        is_covered(which),
        is_type_of_kind(which, ty) ==> is_variant_of(which, ty),
        is_variant_of(which, ty) && !(ty is Enum) && !(ty is Capability) ==> is_type_of_kind(
            which,
            ty,
        ),
        is_type_of_kind(which, ty) && ty is Enum ==> ty->Enum_0.encoded_node is None
            && *ty->Enum_0.annotation_types == AnnotationTypes::Dynamic,
        is_type_of_kind(which, ty) && ty is Capability ==> ty->Capability_0.encoded_node is None,
{
}

/// Of a list and of a struct, the kind alone does not tell the type.
pub proof fn law_kinds_that_tell_no_type()
    ensures
        !is_covered(type_::Which::List),
        !is_covered(type_::Which::Struct),
{
}

/// Different kinds tell different types.
pub proof fn law_types_tell_kinds_apart(a: type_::Which, b: type_::Which, ty: TypeVariant)
    requires
        is_covered(a),
        is_covered(b),
        is_type_of_kind(a, ty),
        is_type_of_kind(b, ty),
    ensures
        a == b,
{
}

/// A constant of a type that is held by value, or is a text or data, has the variant
/// of the same name as its type. Constants of other types are not covered.
pub proof fn law_constants_have_their_types(which: type_::Which)
    ensures
        const_type(which) is None <==> which is List || which is Enum || which is Struct
            || which is Interface || which is AnyPointer,
        const_type(which) matches Some(ty) ==> is_variant_of(which, ty),
{
}

/// The type of a slot is told where it can be read and is no list and no struct, and
/// is the variant of the same name as the declared kind.
pub proof fn law_slots_tell_their_types(
    f: field::Reader,
    slot: field::Slot,
    declared: type_::Reader,
    which: type_::Which,
    ty: TypeVariant,
)
    requires
        f.which == Ok::<field::Which, Error>(field::Which::Slot(slot)),
        slot.type_ == Ok::<type_::Reader, Error>(declared),
        declared.which == Ok::<type_::Which, Error>(which),
    ensures
        has_slot_type(f) <==> !(which is List) && !(which is Struct),
        has_slot_type(f) && is_slot_type(f, ty) ==> is_variant_of(which, ty),
        is_variant_of(which, ty) && has_slot_type(f) && !(ty is Enum) && !(ty is Capability)
            ==> is_slot_type(f, ty),
{
}

/// A group, and a slot that cannot be read, tells no type.
pub proof fn law_other_fields_tell_no_type(f: field::Reader)
    requires
        f.which is Err || f.which->Ok_0 is Group,
    ensures
        !has_slot_type(f),
{
}

/// A node may be a struct where its kind is that, or cannot be read; its fields are
/// those of the struct, or the first error on the way to them.
pub proof fn law_struct_fields(n: node::Reader)
    ensures
        may_be_struct(n) <==> match n.which {
            Err(_) => true,
            Ok(node::Which::Struct(_)) => true,
            Ok(_) => false,
        },
        n.which matches Err(e) ==> fields_of(n) == Err::<Seq<field::Reader>, Error>(e),
        n.which matches Ok(node::Which::Struct(st)) ==> match st.fields {
            Ok(fields) => fields_of(n) == Ok::<Seq<field::Reader>, Error>(fields@),
            Err(e) => fields_of(n) == Err::<Seq<field::Reader>, Error>(e),
        },
{
}

/// A field with a readable name either has a given name or another one; it has the one
/// that its text decodes to.
pub proof fn law_field_names(f: field::Reader, name: Seq<char>)
    ensures
        f.name is Err ==> !is_named(f, name) && !is_other(f, name),
        f.name matches Ok(t) ==> {
            &&& is_named(f, name) <==> t.decoded() == Ok::<
                Seq<char>,
                crate::error::ErrorView,
            >(name)
            &&& is_other(f, name) <==> !is_named(f, name)
        },
{
    if let Ok(t) = f.name {
        text::law_text_equality(t, name);
    }
}

/// The union's fields of a struct are those that its schema lists.
pub proof fn law_struct_members<'a>(schema: StructSchema<'a>)
    ensures
        schema.members() == schema.raw().generic.members_by_discriminant@,
{
}

/// The type of a field is known where its struct's table has an entry for it, or, where
/// there is no table, where the struct can be read and the field's own slot tells it.
pub proof fn law_known_field_types<'a>(f: Field<'a>)
    ensures
        *f.parent().raw().field_types matches crate::introspect::FieldTypes::Table(table) ==> (
        f.has_type() <==> f.index() < table@.len()),
        *f.parent().raw().field_types is Dynamic ==> (f.has_type() <==> {
            &&& may_be_struct(f.parent().proto())
            &&& fields_of(f.parent().proto()) matches Ok(fields)
            &&& f.index() < fields.len() as u16
            &&& has_slot_type(fields[f.index() as int])
        }),
{
}

/// A field is the one at an index of a struct where it has that index and struct.
pub proof fn law_fields_have_places<'a>(f: Field<'a>, parent: StructSchema<'a>, index: u16)
    ensures
        f.is_field(parent, index) <==> f.parent() == parent && f.index() == index,
{
}

/// Walking a list of fields gives the field at each place, with that place.
pub proof fn law_walks_give_fields<'a>(list: FieldList<'a>, index: u16, f: Field<'a>)
    ensures
        list.index_ok(index) <==> index < list@.len(),
        list.is_at(index, f) <==> {
            &&& f.proto() == list@[index as int]
            &&& f.index() == index
            &&& f.parent() == list.parent()
        },
{
}

/// Walking a subset of fields gives, at each place, the field whose place the subset
/// lists there.
pub proof fn law_walks_give_listed_fields<'a>(subset: FieldSubset<'a>, index: u16, f: Field<'a>)
    ensures
        subset.index_ok(index) <==> index < subset.indices().len() && subset.indices()[index as int]
            < subset.fields().len(),
        subset.is_at(index, f) <==> {
            &&& f.index() == subset.indices()[index as int]
            &&& f.proto() == subset.fields()[f.index() as int]
            &&& f.parent() == subset.parent()
        },
{
}

/// Walking a list of enumerants gives the enumerant at each place, with that ordinal.
pub proof fn law_walks_give_enumerants<'a>(
    list: EnumerantList<'a>,
    index: u16,
    e: Enumerant<'a>,
)
    ensures
        list.index_ok(index) <==> index < list@.len(),
        list.is_at(index, e) <==> {
            &&& e.proto() == list@[index as int]
            &&& e.ordinal() == index
            &&& e.parent() == list.parent()
        },
{
}

/// Walking a list of annotations gives the annotation at each place, with its type.
pub proof fn law_walks_give_annotations<'a>(
    list: AnnotationList<'a>,
    index: u32,
    a: Annotation<'a>,
)
    ensures
        list.index_ok(index) <==> index < list@.len() && list.has_type(index),
        list.is_at(index, a) <==> a.proto() == list@[index as int] && list.is_type_at(
            index,
            a.ty(),
        ),
{
}

/// A node may be an enum where its kind is that, or cannot be read; its enumerants are
/// those of the enum, or the first error on the way to them.
pub proof fn law_enumerants(n: node::Reader)
    ensures
        may_be_enum(n) <==> match n.which {
            Err(_) => true,
            Ok(node::Which::Enum(_)) => true,
            Ok(_) => false,
        },
        n.which matches Err(e) ==> enumerants_of(n) == Err::<Seq<enumerant::Reader>, Error>(e),
        n.which matches Ok(node::Which::Enum(en)) ==> match en.enumerants {
            Ok(list) => enumerants_of(n) == Ok::<Seq<enumerant::Reader>, Error>(list@),
            Err(e) => enumerants_of(n) == Err::<Seq<enumerant::Reader>, Error>(e),
        },
{
}

/// The node of an enum and of an interface is the one that its schema holds.
pub proof fn law_nodes_of_schemas<'a>(e: EnumSchema<'a>, c: CapabilitySchema<'a>)
    ensures
        e.has_proto() <==> e.raw().encoded_node is Some,
        e.raw().encoded_node matches Some(n) ==> e.proto() == *n,
        c.has_proto() <==> c.raw().encoded_node is Some,
        c.raw().encoded_node matches Some(n) ==> c.proto() == *n,
{
}

/// The kind of a value is the one of the same name.
pub proof fn law_value_kinds(which: value::Which)
    ensures
        ({
            let kind = kind_of_value(which);
            &&& which is Void <==> kind is Void
            &&& which is Bool <==> kind is Bool
            &&& which is Int8 <==> kind is Int8
            &&& which is Int16 <==> kind is Int16
            &&& which is Int32 <==> kind is Int32
            &&& which is Int64 <==> kind is Int64
            &&& which is Uint8 <==> kind is Uint8
            &&& which is Uint16 <==> kind is Uint16
            &&& which is Uint32 <==> kind is Uint32
            &&& which is Uint64 <==> kind is Uint64
            &&& which is Float32 <==> kind is Float32
            &&& which is Float64 <==> kind is Float64
            &&& which is Text <==> kind is Text
            &&& which is Data <==> kind is Data
            &&& which is List <==> kind is List
            &&& which is Enum <==> kind is Enum
            &&& which is Struct <==> kind is Struct
            &&& which is Interface <==> kind is Interface
            &&& which is AnyPointer <==> kind is AnyPointer
        }),
{
}

/// Where there is no table of types, an annotation whose value can be read has the type
/// of that value: the variant of the same name. Only of a list and of a struct it is not
/// known.
pub proof fn law_annotations_have_the_types_of_their_values<'a>(
    list: AnnotationList<'a>,
    index: u32,
    v: value::Reader,
    which: value::Which,
    ty: Type,
)
    requires
        list.types() is Dynamic,
        index < list@.len(),
        list@[index as int].value == Ok::<value::Reader, Error>(v),
        v.which == Ok::<value::Which, Error>(which),
    ensures
        list.has_type(index) <==> !(which is List) && !(which is Struct),
        list.has_type(index) && list.is_type_at(index, ty) ==> {
            &&& which is Void <==> ty.variant is Void
            &&& which is Bool <==> ty.variant is Bool
            &&& which is Int8 <==> ty.variant is Int8
            &&& which is Int16 <==> ty.variant is Int16
            &&& which is Int32 <==> ty.variant is Int32
            &&& which is Int64 <==> ty.variant is Int64
            &&& which is Uint8 <==> ty.variant is UInt8
            &&& which is Uint16 <==> ty.variant is UInt16
            &&& which is Uint32 <==> ty.variant is UInt32
            &&& which is Uint64 <==> ty.variant is UInt64
            &&& which is Float32 <==> ty.variant is Float32
            &&& which is Float64 <==> ty.variant is Float64
            &&& which is Text <==> ty.variant is Text
            &&& which is Data <==> ty.variant is Data
            &&& which is Enum <==> ty.variant is Enum
            &&& which is Interface <==> ty.variant is Capability
            &&& which is AnyPointer <==> ty.variant is AnyPointer
        },
{
}

/// Where there is a table of types, an annotation has the type of the first entry for
/// its place, and for its child where it annotates one; it has one just where there is
/// such an entry.
pub proof fn law_annotations_have_the_types_of_their_table<'a>(
    list: AnnotationList<'a>,
    index: u32,
    k: int,
    ty: Type,
)
    requires
        list.types() is Table,
        0 <= k < list.types()->Table_0@.len(),
        list.types()->Table_0@[k].child_index == list.child_index(),
        list.types()->Table_0@[k].index == index,
        forall|j: int|
            0 <= j < k ==> (#[trigger] list.types()->Table_0@[j]).child_index != list.child_index()
                || list.types()->Table_0@[j].index != index,
    ensures
        list.has_type(index),
        list.is_type_at(index, ty) <==> ty == list.types()->Table_0@[k].ty,
{
    assert(list.is_entry(index, k));
    assert forall|e: int| list.is_entry(index, e) implies e == k by {
        if e < k {
            assert(list.types()->Table_0@[e].index == index);
        } else if k < e {
            assert(list.types()->Table_0@[k].index == index);
        }
    }
}

/// An annotation has a type from a table only where the table has an entry for it.
pub proof fn law_annotations_need_entries<'a>(list: AnnotationList<'a>, index: u32)
    requires
        list.types() is Table,
        list.has_type(index),
    ensures
        exists|k: int|
            {
                &&& 0 <= k < list.types()->Table_0@.len()
                &&& (#[trigger] list.types()->Table_0@[k]).child_index == list.child_index()
                &&& list.types()->Table_0@[k].index == index
            },
{
    let k = choose|k: int| list.is_entry(index, k);
    assert(list.types()->Table_0@[k].index == index);
}

/// The annotations of something are those that it holds, or the error that stands in
/// their place.
pub proof fn law_annotations<'a>(
    r: Result<AnnotationList<'a>, Error>,
    annotations: Result<struct_list::Reader<annotation::Reader>, Error>,
    child_index: Option<u16>,
    types: AnnotationTypes,
)
    requires
        is_annotations(r, annotations, child_index, types),
    ensures
        r is Ok <==> annotations is Ok,
        r matches Ok(list) ==> {
            &&& list@ == annotations->Ok_0@
            &&& list.child_index() == child_index
            &&& list.types() == types
        },
        annotations matches Err(e) ==> r == Err::<AnnotationList<'a>, Error>(e),
{
}

/// A value that cannot be read gives the error that stands in its place, and any other
/// gives none.
pub proof fn law_stored_errors(v: value::Reader)
    ensures
        v.which matches Err(e) ==> stored_error(v) == Some(e),
        v.which matches Ok(value::Which::Text(t)) ==> (t matches Err(e) ==> stored_error(v) == Some(
            e,
        )) && (t is Ok ==> stored_error(v) is None),
        v.which matches Ok(value::Which::Data(d)) ==> (d matches Err(e) ==> stored_error(v) == Some(
            e,
        )) && (d is Ok ==> stored_error(v) is None),
        v.which is Ok && !(v.which->Ok_0 is Text) && !(v.which->Ok_0 is Data) ==> stored_error(
            v,
        ) is None,
{
}

} // verus!
