//! What one node of a request adds to a run-time schema.
use crate::error::{read, Error, ErrorView};
use crate::introspect::{
    AnnotationTypes, FieldTypes, RawBrandedStructSchema, RawCapabilitySchema, RawEnumSchema,
    RawStructSchema, TypeVariant,
};
use crate::registry::{DynamicSchemaToken, TypeTable};
use crate::schema::members::{get_indexes, members_by_discriminant, nonunion_members};
use crate::schema::scopes::Scopes;
use crate::schema_capnp::{node, type_};
use crate::struct_list;
use std::collections::HashMap;
use std::sync::Arc;
use vstd::prelude::*;

verus! {

/// Why a request gives no schema: an error in what it holds, or something that
/// run-time schemas do not cover (a struct without readable fields, a constant
/// of a pointer or enum type).
pub enum Stop<E> {
    Error(E),
    Unsupported,
}

impl Stop<Error> {
    /// The mathematical value of a reason.
    pub open spec fn reason(self) -> Stop<ErrorView> {
        match self {
            Stop::Error(e) => Stop::Error(e@),
            Stop::Unsupported => Stop::Unsupported,
        }
    }
}

/// The marker of a struct whose field types are read from its schema node.
pub fn dynamic_field_marker() -> (r: FieldTypes)
    ensures
        r == FieldTypes::Dynamic,
{
    FieldTypes::Dynamic
}

/// The marker of a node whose annotation types are read from the annotations'
/// values.
pub fn dynamic_annotation_marker() -> (r: AnnotationTypes)
    ensures
        r == AnnotationTypes::Dynamic,
{
    AnnotationTypes::Dynamic
}

/// How many of the first `n` nested nodes come before the first one whose name
/// is unreadable.
pub open spec fn readable_names(nested: Seq<node::NestedNode>, n: int) -> int
    decreases n,
{
    if n <= 0 {
        0
    } else {
        let before = readable_names(nested, n - 1);
        if before == n - 1 && node::name_chars(nested[n - 1].name) is Ok {
            n
        } else {
            before
        }
    }
}

/// The names once the first `n` nested nodes of node `id` are declared.
pub open spec fn nested_declared(
    scopes: Map<(u64, Seq<char>), u64>,
    id: u64,
    nested: Seq<node::NestedNode>,
    n: int,
) -> Map<(u64, Seq<char>), u64>
    decreases n,
{
    if n <= 0 {
        scopes
    } else {
        nested_declared(scopes, id, nested, n - 1).insert(
            (id, node::name_chars(nested[n - 1].name)->Ok_0),
            nested[n - 1].id,
        )
    }
}

/// The names once node `id` has declared its nested nodes, up to the first
/// unreadable name.
pub open spec fn node_declared(
    scopes: Map<(u64, Seq<char>), u64>,
    id: u64,
    node: node::Reader,
) -> Map<(u64, Seq<char>), u64> {
    match node.nested_nodes {
        Err(_) => scopes,
        Ok(nested) => nested_declared(
            scopes,
            id,
            nested@,
            readable_names(nested@, nested@.len() as int),
        ),
    }
}

/// The type of a constant, where run-time schemas cover it.
pub open spec fn const_type(which: type_::Which) -> Option<TypeVariant> {
    match which {
        type_::Which::Void => Some(TypeVariant::Void),
        type_::Which::Bool => Some(TypeVariant::Bool),
        type_::Which::Int8 => Some(TypeVariant::Int8),
        type_::Which::Int16 => Some(TypeVariant::Int16),
        type_::Which::Int32 => Some(TypeVariant::Int32),
        type_::Which::Int64 => Some(TypeVariant::Int64),
        type_::Which::Uint8 => Some(TypeVariant::UInt8),
        type_::Which::Uint16 => Some(TypeVariant::UInt16),
        type_::Which::Uint32 => Some(TypeVariant::UInt32),
        type_::Which::Uint64 => Some(TypeVariant::UInt64),
        type_::Which::Float32 => Some(TypeVariant::Float32),
        type_::Which::Float64 => Some(TypeVariant::Float64),
        type_::Which::Text => Some(TypeVariant::Text),
        type_::Which::Data => Some(TypeVariant::Data),
        type_::Which::List => None,
        type_::Which::Enum => None,
        type_::Which::Struct => None,
        type_::Which::Interface => None,
        type_::Which::AnyPointer => None,
    }
}

/// Whether a chunk of its own can be made of a node, or the error that stands
/// in the way.
pub open spec fn chunk_outcome(node: node::Reader) -> Result<(), Stop<ErrorView>> {
    match node.total_size {
        Err(e) => Err(Stop::Error(e@)),
        Ok(_) => match node.copy {
            Err(e) => Err(Stop::Error(e@)),
            Ok(_) => Ok(()),
        },
    }
}

/// What a node's kind gives: whether it declares a type, or why the request
/// gives no schema.
pub open spec fn kind_outcome(node: node::Reader) -> Result<bool, Stop<ErrorView>> {
    match node.which {
        Err(e) => Err(Stop::Error(e@)),
        Ok(node::Which::File) => Ok(false),
        Ok(node::Which::Annotation) => Ok(false),
        Ok(node::Which::Struct(st)) => match chunk_outcome(node) {
            Err(s) => Err(s),
            Ok(_) => if st.fields is Ok {
                Ok(true)
            } else {
                Err(Stop::Unsupported)
            },
        },
        Ok(node::Which::Const(c)) => match c.type_ {
            Err(e) => Err(Stop::Error(e@)),
            Ok(t) => match t.which {
                Err(e) => Err(Stop::Error(e@)),
                Ok(which) => if const_type(which) is Some {
                    Ok(true)
                } else {
                    Err(Stop::Unsupported)
                },
            },
        },
        Ok(node::Which::Enum(_)) | Ok(node::Which::Interface(_)) => match chunk_outcome(node) {
            Err(s) => Err(s),
            Ok(_) => Ok(true),
        },
    }
}

/// What a node gives: whether it declares a type, or why the request gives no
/// schema. Its nested nodes are read before its kind.
pub open spec fn node_outcome(node: node::Reader) -> Result<bool, Stop<ErrorView>> {
    match node.nested_nodes {
        Err(e) => Err(Stop::Error(e@)),
        Ok(nested) => {
            let k = readable_names(nested@, nested@.len() as int);
            if k < nested@.len() {
                Err(Stop::Error(node::name_chars(nested@[k].name)->Err_0))
            } else {
                kind_outcome(node)
            }
        },
    }
}

/// Whether `ty` is the type that `node` declares in the schema of `token`.
pub open spec fn declares(
    node: Arc<node::Reader>,
    ty: TypeVariant,
    token: DynamicSchemaToken,
) -> bool {
    match node.which {
        Ok(node::Which::Struct(st)) => {
            &&& ty matches TypeVariant::Struct(s)
            &&& s.generic.encoded_node == node
            &&& st.fields is Ok
            &&& s.generic.nonunion_members@ == nonunion_members(st.fields->Ok_0@)
            &&& s.generic.members_by_discriminant@ == members_by_discriminant(st.fields->Ok_0@)
            &&& *s.field_types == FieldTypes::Dynamic
            &&& *s.annotation_types == AnnotationTypes::Dynamic
            &&& s.dynamic_schema == Some(token)
        },
        Ok(node::Which::Const(c)) => {
            &&& c.type_ matches Ok(t)
            &&& t.which matches Ok(which)
            &&& const_type(which) == Some(ty)
        },
        Ok(node::Which::Enum(_)) => {
            &&& ty matches TypeVariant::Enum(e)
            &&& e.encoded_node == Some(node)
            &&& *e.annotation_types == AnnotationTypes::Dynamic
        },
        Ok(node::Which::Interface(_)) => {
            &&& ty matches TypeVariant::Capability(c)
            &&& c.encoded_node == Some(node)
        },
        _ => false,
    }
}

/// Before the first unreadable name, every name is readable; that one is not.
proof fn lemma_readable_names(nested: Seq<node::NestedNode>, n: int)
    requires
        0 <= n <= nested.len(),
    ensures
        0 <= readable_names(nested, n) <= n,
        readable_names(nested, n) < n ==> node::name_chars(
            nested[readable_names(nested, n)].name,
        ) is Err,
    decreases n,
{
    if n > 0 {
        lemma_readable_names(nested, n - 1);
    }
}

/// From the first unreadable name on, further nested nodes change nothing.
proof fn lemma_names_end(nested: Seq<node::NestedNode>, i: int, n: int)
    requires
        0 <= i < n <= nested.len(),
        readable_names(nested, i) == i,
        node::name_chars(nested[i].name) is Err,
    ensures
        readable_names(nested, n) == i,
    decreases n,
{
    if n > i + 1 {
        lemma_names_end(nested, i, n - 1);
    }
}

/// Declares the nested nodes of node `id`.
fn declare_nested(
    scopes: &mut Scopes,
    id: u64,
    nested: &struct_list::Reader<node::NestedNode>,
) -> (r: Result<(), Error>)
    ensures
        ({
            let k = readable_names(nested@, nested@.len() as int);
            &&& final(scopes)@ == nested_declared(old(scopes)@, id, nested@, k)
            &&& match r {
                Ok(_) => k == nested@.len(),
                Err(e) => k < nested@.len() && node::name_chars(nested@[k].name) == Err::<
                    Seq<char>,
                    ErrorView,
                >(e@),
            }
        }),
{
    let count: u32 = nested.len();
    let mut i: u32 = 0;
    while i < count
        invariant
            count == nested@.len(),
            0 <= i <= count,
            readable_names(nested@, i as int) == i,
            scopes@ == nested_declared(old(scopes)@, id, nested@, i as int),
        decreases count - i,
    {
        let n = nested.get(i);
        match node::name_string(&n.name) {
            Ok(name) => {
                scopes.insert(id, name, n.id);
            },
            Err(e) => {
                proof {
                    lemma_names_end(nested@, i as int, count as int);
                }
                return Err(e);
            },
        }
        i += 1;
    }
    Ok(())
}

/// A chunk that holds the node alone and lives as long as anything refers to
/// it.
fn leak_chunk(node: &Arc<node::Reader>) -> (r: Result<Arc<node::Reader>, Stop<Error>>)
    ensures
        match r {
            Ok(chunk) => chunk_outcome(**node) is Ok && chunk == *node,
            Err(s) => chunk_outcome(**node) == Err::<(), Stop<ErrorView>>(s.reason()),
        },
{
    if let Err(e) = &node.total_size {
        return Err(Stop::Error(e.clone()));
    }
    if let Err(e) = &node.copy {
        return Err(Stop::Error(e.clone()));
    }
    Ok(node.clone())
}

/// The type of a constant, where run-time schemas cover it.
pub(crate) fn type_of_const(which: &type_::Which) -> (r: Option<TypeVariant>)
    ensures
        r == const_type(*which),
{
    match which {
        type_::Which::Void => Some(TypeVariant::Void),
        type_::Which::Bool => Some(TypeVariant::Bool),
        type_::Which::Int8 => Some(TypeVariant::Int8),
        type_::Which::Int16 => Some(TypeVariant::Int16),
        type_::Which::Int32 => Some(TypeVariant::Int32),
        type_::Which::Int64 => Some(TypeVariant::Int64),
        type_::Which::Uint8 => Some(TypeVariant::UInt8),
        type_::Which::Uint16 => Some(TypeVariant::UInt16),
        type_::Which::Uint32 => Some(TypeVariant::UInt32),
        type_::Which::Uint64 => Some(TypeVariant::UInt64),
        type_::Which::Float32 => Some(TypeVariant::Float32),
        type_::Which::Float64 => Some(TypeVariant::Float64),
        type_::Which::Text => Some(TypeVariant::Text),
        type_::Which::Data => Some(TypeVariant::Data),
        type_::Which::List => None,
        type_::Which::Enum => None,
        type_::Which::Struct => None,
        type_::Which::Interface => None,
        type_::Which::AnyPointer => None,
    }
}

/// The type that a node declares, if it declares one.
fn declared_type(node: &Arc<node::Reader>, token: DynamicSchemaToken) -> (r: Result<
    Option<TypeVariant>,
    Stop<Error>,
>)
    ensures
        match r {
            Ok(Some(ty)) => kind_outcome(**node) == Ok::<bool, Stop<ErrorView>>(true) && declares(
                *node,
                ty,
                token,
            ),
            Ok(None) => kind_outcome(**node) == Ok::<bool, Stop<ErrorView>>(false),
            Err(s) => kind_outcome(**node) == Err::<bool, Stop<ErrorView>>(s.reason()),
        },
{
    match &node.which {
        Err(e) => Err(Stop::Error(e.clone())),
        Ok(node::Which::File) => Ok(None),
        Ok(node::Which::Struct(st)) => {
            let chunk = match leak_chunk(node) {
                Ok(chunk) => chunk,
                Err(s) => return Err(s),
            };
            let fields = match &st.fields {
                Ok(fields) => fields,
                Err(_) => return Err(Stop::Unsupported),
            };
            let (nonunion_members, members_by_discriminant) = get_indexes(fields);
            let raw = RawStructSchema {
                encoded_node: chunk,
                nonunion_members,
                members_by_discriminant,
            };
            Ok(
                Some(
                    TypeVariant::Struct(
                        RawBrandedStructSchema {
                            generic: Arc::new(raw),
                            field_types: Arc::new(dynamic_field_marker()),
                            annotation_types: Arc::new(dynamic_annotation_marker()),
                            dynamic_schema: Some(token),
                        },
                    ),
                ),
            )
        },
        Ok(node::Which::Const(c)) => {
            let ty = match &c.type_ {
                Ok(ty) => ty,
                Err(e) => return Err(Stop::Error(e.clone())),
            };
            let which = match &ty.which {
                Ok(which) => which,
                Err(e) => return Err(Stop::Error(e.clone())),
            };
            match type_of_const(which) {
                Some(ty) => Ok(Some(ty)),
                None => Err(Stop::Unsupported),
            }
        },
        // An annotation adds no type: lists of annotations read all but the
        // type from the annotated node itself.
        Ok(node::Which::Annotation) => Ok(None),
        Ok(node::Which::Enum(_)) => {
            match leak_chunk(node) {
                Ok(chunk) => Ok(
                    Some(
                        TypeVariant::Enum(
                            RawEnumSchema {
                                encoded_node: Some(chunk),
                                annotation_types: Arc::new(dynamic_annotation_marker()),
                            },
                        ),
                    ),
                ),
                Err(s) => Err(s),
            }
        },
        Ok(node::Which::Interface(_)) => {
            match leak_chunk(node) {
                Ok(chunk) => Ok(
                    Some(
                        TypeVariant::Capability(RawCapabilitySchema { encoded_node: Some(chunk) }),
                    ),
                ),
                Err(s) => Err(s),
            }
        },
    }
}

/// Adds what node `id` declares: the names of its nested nodes, and its type.
pub(crate) fn process_node(
    nodes: &mut TypeTable,
    id: u64,
    scopes: &mut Scopes,
    node_map: &HashMap<u64, Arc<node::Reader>>,
    token: DynamicSchemaToken,
) -> (r: Result<(), Stop<Error>>)
    requires
        node_map@.contains_key(id),
    ensures
        final(scopes)@ == node_declared(old(scopes)@, id, *node_map@[id]),
        match node_outcome(*node_map@[id]) {
            Ok(true) => {
                &&& r is Ok
                &&& final(nodes)@.contains_key(id)
                &&& declares(node_map@[id], final(nodes)@[id], token)
                &&& final(nodes)@ == old(nodes)@.insert(id, final(nodes)@[id])
            },
            Ok(false) => r is Ok && final(nodes)@ == old(nodes)@,
            Err(s) => {
                &&& r matches Err(stop)
                &&& stop.reason() == s
                &&& final(nodes)@ == old(nodes)@
            },
        },
{
    let node = match node_map.get(&id) {
        Some(node) => node,
        None => {
            assert(false);
            return Err(Stop::Unsupported);
        },
    };
    let nested = match read(&node.nested_nodes) {
        Ok(nested) => nested,
        Err(e) => return Err(Stop::Error(e)),
    };
    proof {
        lemma_readable_names(nested@, nested@.len() as int);
    }
    match declare_nested(scopes, id, nested) {
        Ok(_) => {},
        Err(e) => return Err(Stop::Error(e)),
    }
    match declared_type(node, token) {
        Ok(Some(ty)) => {
            nodes.insert(id, ty);
            assert(nodes@ =~= old(nodes)@.insert(id, nodes@[id]));
            Ok(())
        },
        Ok(None) => Ok(()),
        Err(s) => Err(s),
    }
}

} // verus!
