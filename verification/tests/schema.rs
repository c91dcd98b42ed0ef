use capnp::error::{Error, ErrorKind};
use capnp::introspect::{
    AnnotationType, AnnotationTypes, FieldTypes, RawBrandedStructSchema, RawCapabilitySchema,
    RawEnumSchema, RawStructSchema, Type, TypeVariant,
};
use capnp::schema::nodes::Stop;
use capnp::schema::{
    CapabilitySchema, DynamicSchema, DynamicSchemaRegistry, EnumSchema, StructSchema,
};
use capnp::schema_capnp::code_generator_request::{Import, Message, Reader, RequestedFile};
use capnp::schema_capnp::{annotation, enumerant, field, node, type_, value};
use capnp::{struct_list, text};
use std::sync::Arc;

fn list<T>(items: Vec<T>) -> Result<struct_list::Reader<T>, Error> {
    Ok(struct_list::Reader::from_vec(items))
}

fn name(s: &str) -> Result<text::Reader, Error> {
    Ok(text::Reader::new(s))
}

fn nested(s: &str, id: u64) -> node::NestedNode {
    node::NestedNode { name: name(s), id }
}

fn node_of(
    id: u64,
    scope_id: u64,
    nested_nodes: Vec<node::NestedNode>,
    which: node::Which,
) -> node::Reader {
    node::Reader {
        id,
        scope_id,
        nested_nodes: list(nested_nodes),
        annotations: list(vec![]),
        total_size: Ok(node::MessageSize { word_count: 4, cap_count: 0 }),
        copy: Ok(()),
        which: Ok(which),
    }
}

fn slot(s: &str, discriminant_value: u16, which: type_::Which) -> field::Reader {
    field::Reader {
        name: name(s),
        discriminant_value,
        annotations: list(vec![]),
        which: Ok(field::Which::Slot(field::Slot {
            type_: Ok(type_::Reader { which: Ok(which) }),
        })),
    }
}

fn struct_of(fields: Vec<field::Reader>) -> node::Which {
    node::Which::Struct(node::Struct { fields: list(fields) })
}

fn const_of(which: type_::Which) -> node::Which {
    node::Which::Const(node::Const { type_: Ok(type_::Reader { which: Ok(which) }) })
}

fn enum_of(names: Vec<&str>) -> node::Which {
    let enumerants: Vec<enumerant::Reader> = names
        .into_iter()
        .map(|n| enumerant::Reader { name: name(n), annotations: list(vec![]) })
        .collect();
    node::Which::Enum(node::Enum { enumerants: list(enumerants) })
}

fn interface_of(methods: Vec<(u64, u64)>) -> node::Which {
    let methods: Vec<node::Method> = methods
        .into_iter()
        .map(|(p, r)| node::Method { param_struct_type: p, result_struct_type: r })
        .collect();
    node::Which::Interface(node::Interface { methods: list(methods) })
}

fn message(nodes: Vec<node::Reader>, files: Vec<RequestedFile>) -> Message {
    Message {
        root: Ok(Reader {
            nodes: list(nodes.into_iter().map(Arc::new).collect()),
            requested_files: list(files),
        }),
    }
}

/// A file that declares a struct with a union, an enum, an interface with an
/// anonymous struct, and a constant, and imports another file.
fn sample() -> Message {
    let fields = vec![
        slot("one", 1, type_::Which::Text),
        slot("plain", field::NO_DISCRIMINANT, type_::Which::Uint32),
        slot("zero", 0, type_::Which::Void),
        slot("color", field::NO_DISCRIMINANT, type_::Which::Enum),
    ];
    message(
        vec![
            node_of(
                1,
                0,
                vec![nested("Foo", 2), nested("Color", 3), nested("Api", 4), nested("limit", 6)],
                node::Which::File,
            ),
            node_of(2, 1, vec![nested("Inner", 8)], struct_of(fields)),
            node_of(3, 1, vec![], enum_of(vec!["red", "green"])),
            node_of(4, 1, vec![], interface_of(vec![(5, 2)])),
            node_of(5, 0, vec![], struct_of(vec![])),
            node_of(6, 1, vec![], const_of(type_::Which::Uint16)),
            node_of(7, 0, vec![nested("Far", 9)], node::Which::File),
            node_of(8, 2, vec![], enum_of(vec![])),
            node_of(9, 7, vec![], struct_of(vec![])),
            node_of(10, 1, vec![], node::Which::Annotation),
        ],
        vec![RequestedFile { id: 1, imports: list(vec![Import { id: 7, name: name("other") }]) }],
    )
}

fn path(names: &[&str]) -> Vec<String> {
    names.iter().map(|s| s.to_string()).collect()
}

fn must_build(msg: Message, registry: &mut DynamicSchemaRegistry) -> DynamicSchema {
    match DynamicSchema::build(msg, registry) {
        Ok(schema) => schema,
        Err(Stop::Error(e)) => panic!("{:?}", e),
        Err(Stop::Unsupported) => panic!("unsupported"),
    }
}

fn stop_of(msg: Message) -> Option<Error> {
    let mut registry = DynamicSchemaRegistry::new();
    match DynamicSchema::build(msg, &mut registry) {
        Ok(_) => panic!("a schema was built"),
        Err(Stop::Error(e)) => Some(e),
        Err(Stop::Unsupported) => None,
    }
}

#[test]
fn types_are_found_by_id() {
    let mut registry = DynamicSchemaRegistry::new();
    let schema = must_build(sample(), &mut registry);
    assert!(matches!(schema.get_type_by_id(2), Some(TypeVariant::Struct(_))));
    assert!(matches!(schema.get_type_by_id(3), Some(TypeVariant::Enum(_))));
    assert!(matches!(schema.get_type_by_id(4), Some(TypeVariant::Capability(_))));
    assert!(matches!(schema.get_type_by_id(6), Some(TypeVariant::UInt16)));
    assert!(schema.get_type_by_id(1).is_none());
    assert!(schema.get_type_by_id(7).is_none());
    assert!(schema.get_type_by_id(10).is_none());
    assert!(schema.get_type_by_id(99).is_none());
}

#[test]
fn types_are_found_by_scope() {
    let mut registry = DynamicSchemaRegistry::new();
    let schema = must_build(sample(), &mut registry);
    assert!(matches!(
        schema.get_type_by_scope(path(&["Foo"])),
        Some(TypeVariant::Struct(_))
    ));
    assert!(matches!(
        schema.get_type_by_scope(path(&["Foo", "Inner"])),
        Some(TypeVariant::Enum(_))
    ));
    assert!(matches!(
        schema.get_type_by_scope(path(&["limit"])),
        Some(TypeVariant::UInt16)
    ));
    assert!(matches!(
        schema.get_type_by_scope(path(&["other", "Far"])),
        Some(TypeVariant::Struct(_))
    ));
    assert!(schema.get_type_by_scope(path(&["other"])).is_none());
    assert!(schema.get_type_by_scope(path(&["Nothing"])).is_none());
    assert!(schema.get_type_by_scope(path(&["Foo", "Nothing"])).is_none());
    assert!(schema.get_type_by_scope(path(&[])).is_none());
}

#[test]
fn last_node_and_last_name_count() {
    let mut registry = DynamicSchemaRegistry::new();
    let schema = must_build(
        message(
            vec![
                node_of(1, 0, vec![nested("x", 2), nested("x", 3)], node::Which::File),
                node_of(2, 1, vec![], const_of(type_::Which::Bool)),
                node_of(3, 1, vec![], const_of(type_::Which::Int8)),
                node_of(2, 1, vec![], const_of(type_::Which::Data)),
            ],
            vec![],
        ),
        &mut registry,
    );
    assert!(matches!(schema.get_type_by_id(2), Some(TypeVariant::Data)));
    assert!(matches!(schema.get_type_by_scope(path(&["x"])), Some(TypeVariant::Int8)));
}

#[test]
fn nested_names_come_before_imports() {
    let mut registry = DynamicSchemaRegistry::new();
    let schema = must_build(
        message(
            vec![
                node_of(1, 0, vec![nested("x", 2)], node::Which::File),
                node_of(2, 1, vec![], const_of(type_::Which::Bool)),
                node_of(3, 0, vec![nested("deep", 5)], node::Which::File),
                node_of(4, 0, vec![nested("deep", 2)], node::Which::File),
                node_of(5, 3, vec![], const_of(type_::Which::Text)),
            ],
            vec![
                RequestedFile {
                    id: 1,
                    imports: list(vec![
                        Import { id: 3, name: name("x") },
                        Import { id: 4, name: name("y") },
                    ]),
                },
                RequestedFile { id: 1, imports: list(vec![Import { id: 3, name: name("y") }]) },
            ],
        ),
        &mut registry,
    );
    // The nested node has the name `x`, and the last import the name `y`.
    assert!(matches!(schema.get_type_by_scope(path(&["x"])), Some(TypeVariant::Bool)));
    assert!(schema.get_type_by_scope(path(&["y"])).is_none());
    assert!(matches!(schema.get_type_by_scope(path(&["y", "deep"])), Some(TypeVariant::Text)));
}

#[test]
fn constants_have_their_types() {
    let cases = vec![
        type_::Which::Void,
        type_::Which::Bool,
        type_::Which::Int8,
        type_::Which::Int16,
        type_::Which::Int32,
        type_::Which::Int64,
        type_::Which::Uint8,
        type_::Which::Uint16,
        type_::Which::Uint32,
        type_::Which::Uint64,
        type_::Which::Float32,
        type_::Which::Float64,
        type_::Which::Text,
        type_::Which::Data,
    ];
    for which in cases {
        let mut registry = DynamicSchemaRegistry::new();
        let schema =
            must_build(message(vec![node_of(1, 0, vec![], const_of(which))], vec![]), &mut registry);
        let ty = schema.get_type_by_id(1).unwrap();
        let same = match which {
            type_::Which::Void => matches!(ty, TypeVariant::Void),
            type_::Which::Bool => matches!(ty, TypeVariant::Bool),
            type_::Which::Int8 => matches!(ty, TypeVariant::Int8),
            type_::Which::Int16 => matches!(ty, TypeVariant::Int16),
            type_::Which::Int32 => matches!(ty, TypeVariant::Int32),
            type_::Which::Int64 => matches!(ty, TypeVariant::Int64),
            type_::Which::Uint8 => matches!(ty, TypeVariant::UInt8),
            type_::Which::Uint16 => matches!(ty, TypeVariant::UInt16),
            type_::Which::Uint32 => matches!(ty, TypeVariant::UInt32),
            type_::Which::Uint64 => matches!(ty, TypeVariant::UInt64),
            type_::Which::Float32 => matches!(ty, TypeVariant::Float32),
            type_::Which::Float64 => matches!(ty, TypeVariant::Float64),
            type_::Which::Text => matches!(ty, TypeVariant::Text),
            _ => matches!(ty, TypeVariant::Data),
        };
        assert!(same);
    }
    for which in [
        type_::Which::List,
        type_::Which::Enum,
        type_::Which::Struct,
        type_::Which::Interface,
        type_::Which::AnyPointer,
    ] {
        assert!(stop_of(message(vec![node_of(1, 0, vec![], const_of(which))], vec![])).is_none());
    }
}

#[test]
fn two_roots_are_refused() {
    let msg = message(
        vec![
            node_of(1, 0, vec![], node::Which::File),
            node_of(2, 0, vec![], node::Which::File),
        ],
        vec![],
    );
    let e = stop_of(msg).unwrap();
    assert_eq!(e.kind, ErrorKind::MessageIsTooDeeplyNestedOrContainsCycles);
    assert_eq!(e.extra, "");
}

#[test]
fn anonymous_structs_belong_to_their_interface() {
    // Without the interface, the two structs would be roots.
    let msg = message(
        vec![
            node_of(1, 0, vec![nested("Api", 2)], node::Which::File),
            node_of(2, 1, vec![], interface_of(vec![(3, 4)])),
            node_of(3, 0, vec![], struct_of(vec![])),
            node_of(4, 0, vec![], struct_of(vec![])),
        ],
        vec![],
    );
    let mut registry = DynamicSchemaRegistry::new();
    let schema = must_build(msg, &mut registry);
    assert!(schema.get_type_by_id(3).is_some());
    assert!(schema.get_type_by_id(4).is_some());
}

#[test]
fn unreadable_parts_are_errors() {
    let broken = || Error::failed("broken".to_string());
    assert_eq!(stop_of(Message { root: Err(broken()) }).unwrap(), broken());
    assert_eq!(
        stop_of(Message {
            root: Ok(Reader { nodes: Err(broken()), requested_files: list(vec![]) })
        })
        .unwrap(),
        broken()
    );
    assert_eq!(
        stop_of(Message {
            root: Ok(Reader { nodes: list(vec![]), requested_files: Err(broken()) })
        })
        .unwrap(),
        broken()
    );
    let interface =
        node_of(1, 0, vec![], node::Which::Interface(node::Interface { methods: Err(broken()) }));
    assert_eq!(stop_of(message(vec![interface], vec![])).unwrap(), broken());
    let files = vec![RequestedFile { id: 1, imports: Err(broken()) }];
    assert_eq!(stop_of(message(vec![], files)).unwrap(), broken());
    let files =
        vec![RequestedFile { id: 1, imports: list(vec![Import { id: 2, name: Err(broken()) }]) }];
    assert_eq!(stop_of(message(vec![], files)).unwrap(), broken());
    let mut n = node_of(1, 0, vec![], node::Which::File);
    n.which = Err(broken());
    assert_eq!(stop_of(message(vec![n], vec![])).unwrap(), broken());
    let mut n = node_of(1, 0, vec![], node::Which::File);
    n.nested_nodes = Err(broken());
    assert_eq!(stop_of(message(vec![n], vec![])).unwrap(), broken());
    let mut n = node_of(1, 0, vec![], struct_of(vec![]));
    n.total_size = Err(broken());
    assert_eq!(stop_of(message(vec![n], vec![])).unwrap(), broken());
    let mut n = node_of(1, 0, vec![], enum_of(vec![]));
    n.copy = Err(broken());
    assert_eq!(stop_of(message(vec![n], vec![])).unwrap(), broken());
    let n = node_of(1, 0, vec![], node::Which::Const(node::Const { type_: Err(broken()) }));
    assert_eq!(stop_of(message(vec![n], vec![])).unwrap(), broken());
    let n = node_of(1, 0, vec![], node::Which::Struct(node::Struct { fields: Err(broken()) }));
    assert!(stop_of(message(vec![n], vec![])).is_none());
}

#[test]
fn names_have_to_be_utf8() {
    let bad = node::NestedNode { name: Ok(text::Reader { bytes: vec![0xff, 0xfe] }), id: 2 };
    let msg = message(vec![node_of(1, 0, vec![bad], node::Which::File)], vec![]);
    assert_eq!(stop_of(msg).unwrap().kind, ErrorKind::TextContainsNonUtf8Data);
}

#[test]
fn new_builds_what_is_covered() {
    let mut registry = DynamicSchemaRegistry::new();
    assert!(DynamicSchema::new(sample(), &mut registry).is_ok());
    let e = DynamicSchema::new(
        Message { root: Err(Error::disconnected("gone".to_string())) },
        &mut registry,
    )
    .err()
    .unwrap();
    assert_eq!(e.kind, ErrorKind::Disconnected);
    assert_eq!(e.extra, "gone");
}

#[test]
fn tokens_name_schemas_as_long_as_they_live() {
    let mut registry = DynamicSchemaRegistry::new();
    assert!(registry.has_room());
    let first = must_build(sample(), &mut registry);
    let second = must_build(
        message(vec![node_of(1, 0, vec![], const_of(type_::Which::Text))], vec![]),
        &mut registry,
    );
    let (a, b) = (first.get_token(), second.get_token());
    assert_ne!(a, b);
    assert!(a < b);
    assert!(matches!(
        a.try_as_ref(&registry).unwrap().as_ref().get(&6),
        Some(TypeVariant::UInt16)
    ));
    assert_eq!(a.try_as_ref(&registry).unwrap().as_ref().len(), 7);
    assert_eq!(b.try_as_ref(&registry).unwrap().as_ref().len(), 1);
    first.drop(&mut registry);
    assert!(a.try_as_ref(&registry).is_none());
    assert!(b.try_as_ref(&registry).is_some());
    let third = must_build(sample(), &mut registry);
    assert_ne!(third.get_token(), a);
    assert!(a.try_as_ref(&registry).is_none());
}

#[test]
fn structs_carry_the_token_of_their_schema() {
    let mut registry = DynamicSchemaRegistry::new();
    let schema = must_build(sample(), &mut registry);
    if let Some(TypeVariant::Struct(raw)) = schema.get_type_by_id(2) {
        assert_eq!(raw.dynamic_schema, Some(schema.get_token()));
        assert_eq!(raw.generic.members_by_discriminant, vec![2, 0]);
        assert_eq!(raw.generic.nonunion_members, vec![1, 3]);
    } else {
        panic!("no struct");
    }
}

fn field_name(f: &capnp::schema::Field) -> String {
    match &f.get_proto().name {
        Ok(text) => text.to_string().unwrap(),
        Err(e) => panic!("{:?}", e),
    }
}

#[test]
fn fields_are_found() {
    let mut registry = DynamicSchemaRegistry::new();
    let schema = must_build(sample(), &mut registry);
    let raw = match schema.get_type_by_scope(path(&["Foo"])) {
        Some(TypeVariant::Struct(raw)) => raw,
        _ => panic!("no struct"),
    };
    let foo = StructSchema::new(raw);
    assert_eq!(foo.get_proto().id, 2);
    let fields = foo.get_fields().unwrap();
    assert_eq!(fields.len(), 4);
    assert!(!fields.is_empty());
    assert_eq!(field_name(&fields.get(1)), "plain");
    let mut iter = fields.iter();
    let mut names: Vec<String> = vec![];
    while let Some(f) = iter.next() {
        names.push(field_name(&f));
    }
    assert_eq!(names, vec!["one", "plain", "zero", "color"]);

    let zero = foo.get_field_by_discriminant(0).unwrap().unwrap();
    assert_eq!(field_name(&zero), "zero");
    assert_eq!(zero.get_index(), 2);
    let one = foo.get_field_by_discriminant(1).unwrap().unwrap();
    assert_eq!(field_name(&one), "one");
    assert!(foo.get_field_by_discriminant(2).unwrap().is_none());

    let plain = foo.find_field_by_name("plain").unwrap().unwrap();
    assert_eq!(plain.get_index(), 1);
    assert!(matches!(plain.get_type().variant, TypeVariant::UInt32));
    assert!(matches!(one.get_type().variant, TypeVariant::Text));
    match foo.get_field_by_name("color").unwrap().get_type().variant {
        TypeVariant::Enum(e) => assert!(e.encoded_node.is_none()),
        _ => panic!("no enum"),
    }
    assert!(foo.find_field_by_name("missing").unwrap().is_none());
    let e = foo.get_field_by_name("missing").err().unwrap();
    assert_eq!(e.kind, ErrorKind::FieldNotFound);
    assert_eq!(e.extra, "missing");

    let union = foo.get_union_fields().unwrap();
    assert_eq!(union.len(), 2);
    assert_eq!(field_name(&union.get(0)), "zero");
    assert_eq!(field_name(&union.get(1)), "one");
    let others = foo.get_non_union_fields().unwrap();
    assert_eq!(others.len(), 2);
    assert!(!others.is_empty());
    let mut iter = others.iter();
    assert_eq!(field_name(&iter.next().unwrap()), "plain");
    assert_eq!(field_name(&iter.next().unwrap()), "color");
    assert!(iter.next().is_none());
    assert!(foo.get_annotations().unwrap().is_empty());
    assert!(plain.get_annotations().unwrap().is_empty());
}

#[test]
fn unreadable_fields_are_errors() {
    let broken = || Error::failed("broken".to_string());
    let mut n = node_of(1, 0, vec![], node::Which::File);
    n.which = Err(broken());
    let raw = raw_struct(n, FieldTypes::Dynamic, AnnotationTypes::Dynamic);
    let schema = StructSchema::new(&raw);
    assert_eq!(schema.get_fields().err().unwrap(), broken());
    assert_eq!(schema.get_union_fields().err().unwrap(), broken());
    assert_eq!(schema.get_non_union_fields().err().unwrap(), broken());
    assert_eq!(schema.find_field_by_name("x").err().unwrap(), broken());
    assert_eq!(schema.get_field_by_name("x").err().unwrap(), broken());
    assert!(schema.get_field_by_discriminant(0).unwrap().is_none());

    let mut first = slot("a", field::NO_DISCRIMINANT, type_::Which::Void);
    first.name = Err(broken());
    let fields = vec![first, slot("b", field::NO_DISCRIMINANT, type_::Which::Void)];
    let raw = raw_struct(
        node_of(1, 0, vec![], struct_of(fields)),
        FieldTypes::Dynamic,
        AnnotationTypes::Dynamic,
    );
    let schema = StructSchema::new(&raw);
    assert_eq!(schema.find_field_by_name("b").err().unwrap(), broken());
    assert_eq!(schema.get_field_by_name("b").err().unwrap(), broken());
}

fn raw_struct(
    n: node::Reader,
    field_types: FieldTypes,
    annotation_types: AnnotationTypes,
) -> RawBrandedStructSchema {
    RawBrandedStructSchema {
        generic: Arc::new(RawStructSchema {
            encoded_node: Arc::new(n),
            nonunion_members: vec![],
            members_by_discriminant: vec![],
        }),
        field_types: Arc::new(field_types),
        annotation_types: Arc::new(annotation_types),
        dynamic_schema: None,
    }
}

#[test]
fn compiled_in_types_come_from_their_table() {
    let fields = vec![slot("a", field::NO_DISCRIMINANT, type_::Which::Void)];
    let int_list = Type {
        variant: TypeVariant::List(Arc::new(Type::from(TypeVariant::Int64))),
    };
    let raw = raw_struct(
        node_of(1, 0, vec![], struct_of(fields)),
        FieldTypes::Table(vec![int_list]),
        AnnotationTypes::Dynamic,
    );
    let schema = StructSchema::from(&raw);
    match schema.get_fields().unwrap().get(0).get_type().variant {
        TypeVariant::List(element) => assert!(matches!(element.variant, TypeVariant::Int64)),
        _ => panic!("no list"),
    }
}

fn annotation_of(id: u64, which: value::Which) -> annotation::Reader {
    annotation::Reader { id, value: Ok(value::Reader { which: Ok(which) }) }
}

#[test]
fn annotations_tell_their_types() {
    let mut n = node_of(1, 0, vec![], struct_of(vec![]));
    n.annotations = list(vec![
        annotation_of(100, value::Which::Uint32(17)),
        annotation_of(200, value::Which::Text(name("first"))),
        annotation_of(200, value::Which::Bool(true)),
        annotation_of(300, value::Which::Enum(2)),
        annotation_of(400, value::Which::Interface),
        annotation_of(500, value::Which::AnyPointer),
    ]);
    let raw = raw_struct(n, FieldTypes::Dynamic, AnnotationTypes::Dynamic);
    let annotations = StructSchema::new(&raw).get_annotations().unwrap();
    assert_eq!(annotations.len(), 6);
    assert!(matches!(annotations.get(0).get_type().variant, TypeVariant::UInt32));
    let found = annotations.find(200).unwrap();
    assert_eq!(found.get_id(), 200);
    assert!(matches!(found.get_type().variant, TypeVariant::Text));
    match annotations.get(3).get_type().variant {
        TypeVariant::Enum(e) => assert!(e.encoded_node.is_none()),
        _ => panic!("no enum"),
    }
    match annotations.get(4).get_type().variant {
        TypeVariant::Capability(c) => assert!(c.encoded_node.is_none()),
        _ => panic!("no interface"),
    }
    assert!(matches!(annotations.get(5).get_type().variant, TypeVariant::AnyPointer));
    assert!(annotations.find(999).is_none());
    let read = annotations.get(0).get_value().unwrap();
    assert!(matches!(read.value.which, Ok(value::Which::Uint32(17))));
    assert!(matches!(read.ty.variant, TypeVariant::UInt32));
    let mut iter = annotations.iter();
    let mut ids: Vec<u64> = vec![];
    while let Some(a) = iter.next() {
        ids.push(a.get_id());
    }
    assert_eq!(ids, vec![100, 200, 200, 300, 400, 500]);
}

#[test]
fn annotation_types_come_from_their_table() {
    let mut f = slot("a", field::NO_DISCRIMINANT, type_::Which::Void);
    f.annotations = list(vec![annotation_of(5, value::Which::Struct)]);
    let table = vec![
        AnnotationType { child_index: None, index: 0, ty: Type::from(TypeVariant::Bool) },
        AnnotationType { child_index: Some(0), index: 0, ty: Type::from(TypeVariant::Data) },
    ];
    let mut n = node_of(1, 0, vec![], struct_of(vec![f]));
    n.annotations = list(vec![annotation_of(6, value::Which::List)]);
    let raw = raw_struct(n, FieldTypes::Dynamic, AnnotationTypes::Table(table));
    let schema = StructSchema::new(&raw);
    let of_struct = schema.get_annotations().unwrap().get(0);
    assert!(matches!(of_struct.get_type().variant, TypeVariant::Bool));
    let of_field = schema.get_fields().unwrap().get(0).get_annotations().unwrap().get(0);
    assert!(matches!(of_field.get_type().variant, TypeVariant::Data));
}

#[test]
fn unreadable_annotations_are_errors() {
    let broken = || Error::failed("broken".to_string());
    let mut n = node_of(1, 0, vec![], struct_of(vec![]));
    n.annotations = Err(broken());
    let raw = raw_struct(n, FieldTypes::Dynamic, AnnotationTypes::Dynamic);
    assert_eq!(StructSchema::new(&raw).get_annotations().err().unwrap(), broken());
}

#[test]
fn unreadable_values_are_errors() {
    let broken = || Error::failed("broken".to_string());
    let mut n = node_of(1, 0, vec![], struct_of(vec![]));
    n.annotations = list(vec![
        annotation_of(1, value::Which::Text(Err(broken()))),
        annotation_of(2, value::Which::Data(Err(broken()))),
        annotation_of(3, value::Which::Data(Ok(vec![1]))),
        annotation::Reader { id: 4, value: Err(broken()) },
        annotation::Reader { id: 5, value: Ok(value::Reader { which: Err(broken()) }) },
    ]);
    let table = (0..5)
        .map(|index| AnnotationType {
            child_index: None,
            index,
            ty: Type::from(TypeVariant::Data),
        })
        .collect();
    let raw = raw_struct(n, FieldTypes::Dynamic, AnnotationTypes::Table(table));
    let annotations = StructSchema::new(&raw).get_annotations().unwrap();
    for index in [0, 1, 3, 4] {
        assert_eq!(annotations.get(index).get_value().err().unwrap(), broken());
    }
    assert!(annotations.get(2).get_value().is_ok());
}

#[test]
fn enumerants_are_listed() {
    let mut registry = DynamicSchemaRegistry::new();
    let schema = must_build(sample(), &mut registry);
    let raw: &RawEnumSchema = match schema.get_type_by_id(3) {
        Some(TypeVariant::Enum(raw)) => raw,
        _ => panic!("no enum"),
    };
    assert_eq!(EnumSchema::from(raw).get_proto().id, 3);
    let color = EnumSchema::new(raw);
    assert_eq!(color.get_proto().id, 3);
    assert!(color.get_annotations().unwrap().is_empty());
    let enumerants = color.get_enumerants().unwrap();
    assert_eq!(enumerants.len(), 2);
    assert!(!enumerants.is_empty());
    let green = enumerants.get(1);
    assert_eq!(green.get_ordinal(), 1);
    assert_eq!(green.get_containing_enum().get_proto().id, 3);
    assert!(green.get_annotations().unwrap().is_empty());
    match &green.get_proto().name {
        Ok(text) => assert_eq!(text.to_string().unwrap(), "green"),
        Err(e) => panic!("{:?}", e),
    }
    let mut iter = enumerants.iter();
    assert_eq!(iter.next().unwrap().get_ordinal(), 0);
    assert_eq!(iter.next().unwrap().get_ordinal(), 1);
    assert!(iter.next().is_none());
}

#[test]
fn interfaces_have_their_node() {
    let mut registry = DynamicSchemaRegistry::new();
    let schema = must_build(sample(), &mut registry);
    let raw: &RawCapabilitySchema = match schema.get_type_by_id(4) {
        Some(TypeVariant::Capability(raw)) => raw,
        _ => panic!("no interface"),
    };
    assert_eq!(CapabilitySchema::new(raw).get_proto().id, 4);
    assert_eq!(CapabilitySchema::from(raw).get_proto().id, 4);
}

#[test]
fn members_are_ordered_by_discriminant() {
    let fields = vec![
        slot("c", 2, type_::Which::Void),
        slot("x", field::NO_DISCRIMINANT, type_::Which::Void),
        slot("a", 0, type_::Which::Void),
        slot("b", 1, type_::Which::Void),
        slot("a2", 0, type_::Which::Void),
    ];
    let (nonunion, union) =
        capnp::schema::members::get_indexes(&struct_list::Reader::from_vec(fields));
    assert_eq!(nonunion, vec![1]);
    assert_eq!(union, vec![2, 4, 3, 0]);
}

#[test]
fn texts_are_compared_by_their_bytes() {
    let t = text::Reader::new("h\u{e9}llo");
    assert!(t.eq_str("h\u{e9}llo"));
    assert!(!t.eq_str("hello"));
    assert_eq!(t.bytes.len(), 6);
    assert_eq!(t.to_string().unwrap(), "h\u{e9}llo");
    let bad = text::Reader { bytes: vec![0xc3] };
    assert_eq!(bad.to_string().unwrap_err().kind, ErrorKind::TextContainsNonUtf8Data);
}
