//! Which requests give a schema, why others give none, and what the schema holds.
use crate::error::{Error, ErrorKind, ErrorView};
use crate::introspect::{AnnotationTypes, FieldTypes, TypeVariant};
use crate::schema::dynamic::{
    first_stop, resolve, root_among, schema_outcome, DynamicSchema, SchemaModel,
};
use crate::schema::laws::{
    files_of, imports_of, is_last_with_id, law_last_node_counts, links_of, nodes_of,
};
use crate::schema::members::{members_by_discriminant, nonunion_members};
use crate::schema::nodes::{declares, node_outcome, readable_names, Stop};
use crate::schema::parents::{
    declared_parents, files_linked, imports_linked, interfaces_adopted, methods_adopted,
    nodes_by_id, Links,
};
use crate::schema::type_laws::is_variant_of;
use crate::schema_capnp::code_generator_request::{Import, Message, RequestedFile};
use crate::schema_capnp::{node, type_};
use crate::text;
use std::sync::Arc;
use vstd::prelude::*;
use vstd::utf8::*;

verus! {

/// Whether a method of an interface node takes or gives the struct `id`.
pub open spec fn mentions(n: node::Reader, id: u64) -> bool {
    &&& n.which matches Ok(node::Which::Interface(interface))
    &&& interface.methods matches Ok(methods)
    &&& exists|j: int|
        0 <= j < methods@.len() && ((#[trigger] methods@[j]).param_struct_type == id
            || methods@[j].result_struct_type == id)
}

/// Whether the node at `i` is an interface that can take in the struct `id`.
pub open spec fn is_adopter(nodes: Seq<Arc<node::Reader>>, i: int, id: u64) -> bool {
    &&& 0 <= i < nodes.len()
    &&& nodes[i].id != 0
    &&& mentions(*nodes[i], id)
}

/// Whether the file at `f` can take in the file `id`, which it imports.
pub open spec fn is_importer(files: Seq<RequestedFile>, f: int, id: u64) -> bool {
    &&& 0 <= f < files.len()
    &&& files[f].id != 0
    &&& files[f].imports is Ok
    &&& exists|j: int|
        0 <= j < imports_of(files[f]).len() && (#[trigger] imports_of(files[f])[j]).id == id
}

/// Whether a node is an interface whose methods cannot be read.
pub open spec fn has_unreadable_methods(n: Arc<node::Reader>) -> bool {
    n.which matches Ok(node::Which::Interface(interface)) && interface.methods is Err
}

/// Whether a file's imports and their names can be read.
pub open spec fn has_readable_imports(file: RequestedFile) -> bool {
    &&& file.imports is Ok
    &&& forall|j: int|
        0 <= j < imports_of(file).len() ==> node::name_chars(
            (#[trigger] imports_of(file)[j]).name,
        ) is Ok
}

/// Whether all of a request but its single nodes can be read.
pub open spec fn is_readable(msg: Message) -> bool {
    &&& msg.root is Ok
    &&& msg.root->Ok_0.nodes is Ok
    &&& msg.root->Ok_0.requested_files is Ok
    &&& forall|i: int|
        0 <= i < nodes_of(msg).len() ==> !has_unreadable_methods(#[trigger] nodes_of(msg)[i])
    &&& forall|f: int|
        0 <= f < files_of(msg).len() ==> has_readable_imports(#[trigger] files_of(msg)[f])
}

/// Whether a node has no parent: it names none, no interface takes it in, and no file.
pub open spec fn has_no_parent(msg: Message, id: u64) -> bool {
    &&& forall|i: int| #[trigger]
        is_last_with_id(nodes_of(msg), i) && nodes_of(msg)[i].id == id ==> nodes_of(msg)[i].scope_id
            == 0
    &&& forall|i: int| !#[trigger] is_adopter(nodes_of(msg), i, id)
    &&& forall|f: int| !#[trigger] is_importer(files_of(msg), f, id)
}

/// Whether the node at a place in the list has no parent.
pub open spec fn is_orphan(msg: Message, i: int) -> bool {
    0 <= i < nodes_of(msg).len() && has_no_parent(msg, nodes_of(msg)[i].id)
}

/// Whether two places in the list are both those of a root.
pub open spec fn roots_clash(msg: Message, i: int, j: int) -> bool {
    i < j && is_orphan(msg, i) && is_orphan(msg, j) && nodes_of(msg)[i].id != 0
}

/// Whether a node can be read, and is of a kind that run-time schemas cover.
pub open spec fn is_supported(n: node::Reader) -> bool {
    &&& n.nested_nodes matches Ok(nested)
    &&& forall|j: int|
        0 <= j < nested@.len() ==> node::name_chars((#[trigger] nested@[j]).name) is Ok
    &&& n.which matches Ok(which)
    &&& which is Struct || which is Enum || which is Interface ==> n.total_size is Ok && n.copy is Ok
    &&& which matches node::Which::Struct(st) ==> st.fields is Ok
    &&& which matches node::Which::Const(c) ==> {
        &&& c.type_ matches Ok(t)
        &&& t.which matches Ok(kind)
        &&& !(kind is List || kind is Enum || kind is Struct || kind is Interface
            || kind is AnyPointer)
    }
}

/// A name is read as the characters that its bytes encode, or as the error that stands
/// in its place, or as the error of a text that is no UTF-8.
pub proof fn law_names(name: Result<text::Reader, Error>)
    ensures
        name matches Err(e) ==> node::name_chars(name) == Err::<Seq<char>, ErrorView>(e@),
        name matches Ok(t) ==> {
            &&& node::name_chars(name) is Ok <==> valid_utf8(t.bytes@)
            &&& node::name_chars(name) matches Ok(chars) ==> encode_utf8(chars) == t.bytes@
            &&& node::name_chars(name) matches Err(e) ==> e.kind
                == ErrorKind::TextContainsNonUtf8Data
        },
{
    if let Ok(t) = name {
        text::law_decoding(t);
    }
}

proof fn lemma_names_readable(nested: Seq<node::NestedNode>, n: int)
    requires
        0 <= n <= nested.len(),
        forall|j: int| 0 <= j < n ==> node::name_chars((#[trigger] nested[j]).name) is Ok,
    ensures
        readable_names(nested, n) == n,
    decreases n,
{
    if n > 0 {
        lemma_names_readable(nested, n - 1);
    }
}

proof fn lemma_names_up_to(nested: Seq<node::NestedNode>, k: int, n: int)
    requires
        0 <= k < n <= nested.len(),
        forall|j: int| 0 <= j < k ==> node::name_chars((#[trigger] nested[j]).name) is Ok,
        node::name_chars(nested[k].name) is Err,
    ensures
        readable_names(nested, n) == k,
    decreases n,
{
    if n == k + 1 {
        lemma_names_readable(nested, k);
    } else {
        lemma_names_up_to(nested, k, n - 1);
    }
}

/// A node whose nested nodes cannot be read, or the first name among them that cannot,
/// stops the request with that error.
pub proof fn law_unreadable_names_stop(n: node::Reader, k: int)
    ensures
        n.nested_nodes matches Err(e) ==> node_outcome(n) == Err::<bool, Stop<ErrorView>>(
            Stop::Error(e@),
        ),
        n.nested_nodes matches Ok(nested) ==> {
            let name = node::name_chars(nested@[k].name);
            0 <= k < nested@.len() && name is Err && (forall|j: int|
                0 <= j < k ==> node::name_chars((#[trigger] nested@[j]).name) is Ok)
                ==> node_outcome(n) == Err::<bool, Stop<ErrorView>>(Stop::Error(name->Err_0))
        },
{
    if let Ok(nested) = n.nested_nodes {
        if 0 <= k < nested@.len() && node::name_chars(nested@[k].name) is Err && (forall|j: int|
            0 <= j < k ==> node::name_chars((#[trigger] nested@[j]).name) is Ok) {
            lemma_names_up_to(nested@, k, nested@.len() as int);
        }
    }
}

/// A node whose names can be read gives what its kind gives: an error where something of
/// it cannot be read, nothing where it is a file or an annotation, and else a type, where
/// run-time schemas cover it.
pub proof fn law_kinds_of_nodes(n: node::Reader)
    requires
        n.nested_nodes is Ok,
        forall|j: int|
            0 <= j < n.nested_nodes->Ok_0@.len() ==> node::name_chars(
                (#[trigger] n.nested_nodes->Ok_0@[j]).name,
            ) is Ok,
    ensures
        n.which matches Err(e) ==> node_outcome(n) == Err::<bool, Stop<ErrorView>>(
            Stop::Error(e@),
        ),
        n.which matches Ok(which) ==> {
            &&& which is File || which is Annotation ==> node_outcome(n) == Ok::<
                bool,
                Stop<ErrorView>,
            >(false)
            &&& which is Struct || which is Enum || which is Interface ==> {
                &&& n.total_size matches Err(e) ==> node_outcome(n) == Err::<
                    bool,
                    Stop<ErrorView>,
                >(Stop::Error(e@))
                &&& n.total_size is Ok ==> (n.copy matches Err(e) ==> node_outcome(n) == Err::<
                    bool,
                    Stop<ErrorView>,
                >(Stop::Error(e@)))
            }
            &&& (which is Enum || which is Interface) && n.total_size is Ok && n.copy is Ok
                ==> node_outcome(n) == Ok::<bool, Stop<ErrorView>>(true)
            &&& which matches node::Which::Struct(st) ==> (n.total_size is Ok && n.copy is Ok
                ==> node_outcome(n) == if st.fields is Ok {
                Ok::<bool, Stop<ErrorView>>(true)
            } else {
                Err(Stop::Unsupported)
            })
            &&& which matches node::Which::Const(c) ==> match c.type_ {
                Err(e) => node_outcome(n) == Err::<bool, Stop<ErrorView>>(Stop::Error(e@)),
                Ok(t) => match t.which {
                    Err(e) => node_outcome(n) == Err::<bool, Stop<ErrorView>>(Stop::Error(e@)),
                    Ok(kind) => node_outcome(n) == if kind is List || kind is Enum || kind is Struct
                        || kind is Interface || kind is AnyPointer {
                        Err::<bool, Stop<ErrorView>>(Stop::Unsupported)
                    } else {
                        Ok(true)
                    },
                },
            }
        },
{
    let nested = n.nested_nodes->Ok_0@;
    lemma_names_readable(nested, nested.len() as int);
}

proof fn lemma_supported(n: Arc<node::Reader>)
    requires
        is_supported(*n),
    ensures
        node_outcome(*n) is Ok,
{
    let nested = n.nested_nodes->Ok_0@;
    lemma_names_readable(nested, nested.len() as int);
}

/// The methods of an interface take in the structs that they mention and that have no
/// parent, and nothing else changes.
proof fn lemma_methods(
    parents: Map<u64, u64>,
    methods: Seq<node::Method>,
    n: int,
    interface: u64,
    id: u64,
)
    requires
        0 <= n <= methods.len(),
        parents.contains_key(id),
    ensures
        ({
            let after = methods_adopted(parents, methods, n, interface);
            &&& after.contains_key(id)
            &&& after[id] == if parents[id] == 0 && exists|j: int|
                0 <= j < n && ((#[trigger] methods[j]).param_struct_type == id
                    || methods[j].result_struct_type == id) {
                interface
            } else {
                parents[id]
            }
        }),
    decreases n,
{
    if n > 0 {
        lemma_methods(parents, methods, n - 1, interface, id);
        let m = methods[n - 1];
        if m.param_struct_type == id || m.result_struct_type == id {
            assert(methods[n - 1].param_struct_type == id || methods[n - 1].result_struct_type
                == id);
        } else {
            assert((exists|j: int|
                0 <= j < n && ((#[trigger] methods[j]).param_struct_type == id
                    || methods[j].result_struct_type == id)) ==> exists|j: int|
                0 <= j < n - 1 && ((#[trigger] methods[j]).param_struct_type == id
                    || methods[j].result_struct_type == id));
        }
    }
}

/// What the first `n` nodes make of a struct's parent.
spec fn interfaces_say(
    parents: Map<u64, u64>,
    nodes: Seq<Arc<node::Reader>>,
    n: int,
    id: u64,
) -> bool {
    let r = interfaces_adopted(parents, nodes, n);
    &&& r is Ok
    &&& r->Ok_0.contains_key(id)
    &&& parents[id] != 0 ==> r->Ok_0[id] == parents[id]
    &&& parents[id] == 0 ==> forall|a: int|
        a < n && #[trigger] is_adopter(nodes, a, id) && (forall|b: int|
            b < a ==> !#[trigger] is_adopter(nodes, b, id)) ==> r->Ok_0[id] == nodes[a].id
    &&& parents[id] == 0 && (forall|a: int| a < n ==> !#[trigger] is_adopter(nodes, a, id))
        ==> r->Ok_0[id] == 0
    &&& parents[id] == 0 && r->Ok_0[id] == 0 ==> forall|a: int|
        a < n ==> !#[trigger] is_adopter(nodes, a, id)
}

proof fn lemma_interfaces(
    parents: Map<u64, u64>,
    nodes: Seq<Arc<node::Reader>>,
    n: int,
    id: u64,
)
    requires
        0 <= n <= nodes.len(),
        parents.contains_key(id),
        forall|i: int| 0 <= i < n ==> !has_unreadable_methods(#[trigger] nodes[i]),
    ensures
        interfaces_say(parents, nodes, n, id),
    decreases n,
{
    if n > 0 {
        lemma_interfaces(parents, nodes, n - 1, id);
        let before = interfaces_adopted(parents, nodes, n - 1)->Ok_0;
        assert(!has_unreadable_methods(nodes[n - 1]));
        if let Ok(node::Which::Interface(interface)) = nodes[n - 1].which {
            if let Ok(methods) = interface.methods {
                lemma_methods(before, methods@, methods@.len() as int, nodes[n - 1].id, id);
                let after = interfaces_adopted(parents, nodes, n)->Ok_0;
                assert(after == methods_adopted(
                    before,
                    methods@,
                    methods@.len() as int,
                    nodes[n - 1].id,
                ));
                assert(mentions(*nodes[n - 1], id) <==> exists|j: int|
                    0 <= j < methods@.len() && ((#[trigger] methods@[j]).param_struct_type == id
                        || methods@[j].result_struct_type == id));
                assert(after[id] == if before[id] == 0 && mentions(*nodes[n - 1], id) {
                    nodes[n - 1].id
                } else {
                    before[id]
                });
            }
        } else {
            assert(!mentions(*nodes[n - 1], id));
        }
        let after = interfaces_adopted(parents, nodes, n)->Ok_0;
        if parents[id] == 0 {
            assert forall|a: int|
                a < n && #[trigger] is_adopter(nodes, a, id) && (forall|b: int|
                    b < a ==> !#[trigger] is_adopter(nodes, b, id)) implies after[id]
                == nodes[a].id by {
                if a == n - 1 {
                    assert(forall|b: int| b < n - 1 ==> !#[trigger] is_adopter(nodes, b, id));
                } else {
                    assert(before[id] == nodes[a].id);
                }
            }
            if after[id] == 0 {
                assert forall|a: int| a < n implies !#[trigger] is_adopter(nodes, a, id) by {
                    if a == n - 1 && is_adopter(nodes, a, id) {
                        assert(before[id] != 0 || after[id] == nodes[n - 1].id);
                    }
                }
            }
            if forall|a: int| a < n ==> !#[trigger] is_adopter(nodes, a, id) {
                assert(before[id] == 0);
                assert(!is_adopter(nodes, n - 1, id));
            }
        }
    } else {
        assert(forall|a: int| a < 0 ==> !#[trigger] is_adopter(nodes, a, id));
    }
}

/// The imports of a file take in the files that have no parent, and nothing else changes.
proof fn lemma_imports(links: Links, file: u64, imports: Seq<Import>, n: int, id: u64)
    requires
        0 <= n <= imports.len(),
        links.parents.contains_key(id),
        forall|j: int| 0 <= j < n ==> node::name_chars((#[trigger] imports[j]).name) is Ok,
    ensures
        ({
            let r = imports_linked(links, file, imports, n);
            &&& r is Ok
            &&& r->Ok_0.parents.contains_key(id)
            &&& r->Ok_0.parents[id] == if links.parents[id] == 0 && exists|j: int|
                0 <= j < n && (#[trigger] imports[j]).id == id {
                file
            } else {
                links.parents[id]
            }
        }),
    decreases n,
{
    if n > 0 {
        lemma_imports(links, file, imports, n - 1, id);
        assert(node::name_chars(imports[n - 1].name) is Ok);
        if imports[n - 1].id == id {
            assert(imports[n - 1].id == id);
        } else {
            assert((exists|j: int| 0 <= j < n && (#[trigger] imports[j]).id == id) ==> exists|j: int|
                0 <= j < n - 1 && (#[trigger] imports[j]).id == id);
        }
    }
}

/// What the first `n` files make of a file's parent.
spec fn files_say(links: Links, files: Seq<RequestedFile>, n: int, id: u64) -> bool {
    let r = files_linked(links, files, n);
    let before = links.parents[id];
    &&& r is Ok
    &&& r->Ok_0.parents.contains_key(id)
    &&& before != 0 ==> r->Ok_0.parents[id] == before
    &&& before == 0 ==> forall|a: int|
        a < n && #[trigger] is_importer(files, a, id) && (forall|b: int|
            b < a ==> !#[trigger] is_importer(files, b, id)) ==> r->Ok_0.parents[id] == files[a].id
    &&& before == 0 && (forall|a: int| a < n ==> !#[trigger] is_importer(files, a, id))
        ==> r->Ok_0.parents[id] == 0
    &&& before == 0 && r->Ok_0.parents[id] == 0 ==> forall|a: int|
        a < n ==> !#[trigger] is_importer(files, a, id)
}

proof fn lemma_files(links: Links, files: Seq<RequestedFile>, n: int, id: u64)
    requires
        0 <= n <= files.len(),
        links.parents.contains_key(id),
        forall|f: int| 0 <= f < n ==> has_readable_imports(#[trigger] files[f]),
    ensures
        files_say(links, files, n, id),
    decreases n,
{
    if n > 0 {
        lemma_files(links, files, n - 1, id);
        let before = files_linked(links, files, n - 1)->Ok_0;
        let file = files[n - 1];
        assert(has_readable_imports(files[n - 1]));
        let imports = imports_of(file);
        lemma_imports(before, file.id, imports, imports.len() as int, id);
        let after = files_linked(links, files, n)->Ok_0;
        let v = before.parents[id];
        let w = after.parents[id];
        let named = exists|j: int| 0 <= j < imports.len() && (#[trigger] imports[j]).id == id;
        assert(w == if v == 0 && named {
            file.id
        } else {
            v
        });
        assert(is_importer(files, n - 1, id) <==> file.id != 0 && named);
        if links.parents[id] == 0 {
            assert forall|a: int|
                a < n && #[trigger] is_importer(files, a, id) && (forall|b: int|
                    b < a ==> !#[trigger] is_importer(files, b, id)) implies w == files[a].id by {
                if a == n - 1 {
                    assert(forall|b: int| b < n - 1 ==> !#[trigger] is_importer(files, b, id));
                } else {
                    assert(v == files[a].id);
                }
            }
            if w == 0 {
                assert forall|a: int| a < n implies !#[trigger] is_importer(files, a, id) by {}
            }
            if forall|a: int| a < n ==> !#[trigger] is_importer(files, a, id) {
                assert(v == 0);
                assert(!is_importer(files, n - 1, id));
            }
        }
    } else {
        assert(forall|a: int| a < 0 ==> !#[trigger] is_importer(files, a, id));
    }
}

/// The scope that a node names is that of the last node with its ID.
pub proof fn law_declared_scopes(nodes: Seq<Arc<node::Reader>>, i: int)
    requires
        is_last_with_id(nodes, i),
    ensures
        declared_parents(nodes, nodes.len() as int).contains_key(nodes[i].id),
        declared_parents(nodes, nodes.len() as int)[nodes[i].id] == nodes[i].scope_id,
{
    lemma_declared(nodes, i, nodes.len() as int);
}

proof fn lemma_declared(nodes: Seq<Arc<node::Reader>>, i: int, n: int)
    requires
        is_last_with_id(nodes, i),
        i < n <= nodes.len(),
    ensures
        declared_parents(nodes, n).contains_key(nodes[i].id),
        declared_parents(nodes, n)[nodes[i].id] == nodes[i].scope_id,
    decreases n,
{
    if n > i + 1 {
        lemma_declared(nodes, i, n - 1);
        assert(nodes[n - 1].id != nodes[i].id);
    }
}

/// Every node's ID has a last node.
proof fn lemma_last_exists(nodes: Seq<Arc<node::Reader>>, i: int) -> (last: int)
    requires
        0 <= i < nodes.len(),
    ensures
        is_last_with_id(nodes, last),
        nodes[last].id == nodes[i].id,
    decreases nodes.len() - i,
{
    if is_last_with_id(nodes, i) {
        i
    } else {
        let j = choose|j: int| i < j < nodes.len() && (#[trigger] nodes[j]).id == nodes[i].id;
        lemma_last_exists(nodes, j)
    }
}

proof fn lemma_only_last(nodes: Seq<Arc<node::Reader>>, i: int, j: int)
    requires
        is_last_with_id(nodes, i),
        is_last_with_id(nodes, j),
        nodes[i].id == nodes[j].id,
    ensures
        i == j,
{
    if i < j {
        assert(nodes[j].id != nodes[i].id);
    } else if j < i {
        assert(nodes[i].id != nodes[j].id);
    }
}

/// In a readable request, the links are made, and the parents are as they should be.
proof fn lemma_links(msg: Message, i: int)
    requires
        is_readable(msg),
        is_last_with_id(nodes_of(msg), i),
    ensures
        ({
            let nodes = nodes_of(msg);
            let n = nodes.len() as int;
            let files = files_of(msg);
            let id = nodes[i].id;
            let adopted = interfaces_adopted(declared_parents(nodes, n), nodes, n);
            let start = Links { parents: adopted->Ok_0, scopes: Map::empty() };
            &&& adopted is Ok
            &&& files_linked(start, files, files.len() as int) is Ok
            &&& interfaces_say(declared_parents(nodes, n), nodes, n, id)
            &&& files_say(start, files, files.len() as int, id)
            &&& declared_parents(nodes, n)[id] == nodes[i].scope_id
            &&& links_of(msg).parents.contains_key(id)
            &&& links_of(msg).parents[id] == 0 <==> has_no_parent(msg, id)
        }),
{
    let nodes = nodes_of(msg);
    let n = nodes.len() as int;
    let files = files_of(msg);
    let id = nodes[i].id;
    law_declared_scopes(nodes, i);
    let declared = declared_parents(nodes, n);
    lemma_interfaces(declared, nodes, n, id);
    let adopted = interfaces_adopted(declared, nodes, n)->Ok_0;
    let start = Links { parents: adopted, scopes: Map::empty() };
    lemma_files(start, files, files.len() as int, id);
    let parents = links_of(msg).parents;
    if parents[id] == 0 {
        assert(adopted[id] == 0);
        assert(declared[id] == 0);
        assert forall|k: int| #[trigger] is_last_with_id(nodes, k) && nodes[k].id
            == id implies nodes[k].scope_id == 0 by {
            lemma_only_last(nodes, i, k);
        }
        assert forall|a: int| !#[trigger] is_adopter(nodes, a, id) by {
            if a < n {
            }
        }
        assert forall|f: int| !#[trigger] is_importer(files, f, id) by {
            if f < files.len() {
            }
        }
    }
    if has_no_parent(msg, id) {
        assert(is_last_with_id(nodes, i));
        assert(declared[id] == 0);
        assert(adopted[id] == 0);
    }
}

/// The parent of a node is the scope that it names; where it names none, the first
/// interface whose methods take or give it; where there is none, the first file that
/// imports it; and where there is none of these, it has no parent.
pub proof fn law_parents(msg: Message, model: SchemaModel, i: int)
    requires
        schema_outcome(msg) == Ok::<SchemaModel, Stop<ErrorView>>(model),
        is_last_with_id(nodes_of(msg), i),
    ensures
        ({
            let nodes = nodes_of(msg);
            let files = files_of(msg);
            let id = nodes[i].id;
            &&& model.parents.contains_key(id)
            &&& nodes[i].scope_id != 0 ==> model.parents[id] == nodes[i].scope_id
            &&& nodes[i].scope_id == 0 ==> forall|a: int| #[trigger]
                is_adopter(nodes, a, id) && (forall|b: int|
                    b < a ==> !#[trigger] is_adopter(nodes, b, id)) ==> model.parents[id]
                    == nodes[a].id
            &&& nodes[i].scope_id == 0 && (forall|a: int| !#[trigger] is_adopter(nodes, a, id))
                ==> forall|f: int| #[trigger]
                is_importer(files, f, id) && (forall|g: int|
                    g < f ==> !#[trigger] is_importer(files, g, id)) ==> model.parents[id]
                    == files[f].id
            &&& model.parents[id] == 0 <==> has_no_parent(msg, id)
        }),
{
    lemma_readable(msg);
    lemma_links(msg, i);
    let nodes = nodes_of(msg);
    let n = nodes.len() as int;
    let id = nodes[i].id;
    let adopted = interfaces_adopted(declared_parents(nodes, n), nodes, n)->Ok_0;
    assert(model.parents == links_of(msg).parents);
    if nodes[i].scope_id == 0 {
        assert forall|a: int| #[trigger]
            is_adopter(nodes, a, id) && (forall|b: int|
                b < a ==> !#[trigger] is_adopter(nodes, b, id)) implies model.parents[id]
            == nodes[a].id by {
            assert(adopted[id] == nodes[a].id);
        }
    }
}

/// A request that gives a schema can be read.
proof fn lemma_readable(msg: Message)
    requires
        schema_outcome(msg) is Ok,
    ensures
        is_readable(msg),
{
    let nodes = nodes_of(msg);
    let n = nodes.len() as int;
    let files = files_of(msg);
    let declared = declared_parents(nodes, n);
    assert forall|i: int| 0 <= i < n implies !has_unreadable_methods(#[trigger] nodes[i]) by {
        lemma_interfaces_ok(declared, nodes, i, n);
    }
    let start = Links {
        parents: interfaces_adopted(declared, nodes, n)->Ok_0,
        scopes: Map::empty(),
    };
    assert forall|f: int| 0 <= f < files.len() implies has_readable_imports(
        #[trigger] files[f],
    ) by {
        lemma_files_ok(start, files, f, files.len() as int);
    }
}

proof fn lemma_interfaces_ok(
    parents: Map<u64, u64>,
    nodes: Seq<Arc<node::Reader>>,
    i: int,
    n: int,
)
    requires
        0 <= i < n <= nodes.len(),
        interfaces_adopted(parents, nodes, n) is Ok,
    ensures
        !has_unreadable_methods(nodes[i]),
    decreases n,
{
    if i < n - 1 {
        lemma_interfaces_ok(parents, nodes, i, n - 1);
    }
}

proof fn lemma_imports_ok(links: Links, file: u64, imports: Seq<Import>, j: int, n: int)
    requires
        0 <= j < n <= imports.len(),
        imports_linked(links, file, imports, n) is Ok,
    ensures
        node::name_chars(imports[j].name) is Ok,
    decreases n,
{
    if j < n - 1 {
        lemma_imports_ok(links, file, imports, j, n - 1);
    }
}

proof fn lemma_files_ok(links: Links, files: Seq<RequestedFile>, f: int, n: int)
    requires
        0 <= f < n <= files.len(),
        files_linked(links, files, n) is Ok,
    ensures
        has_readable_imports(files[f]),
    decreases n,
{
    if f < n - 1 {
        lemma_files_ok(links, files, f, n - 1);
    } else {
        let before = files_linked(links, files, n - 1)->Ok_0;
        let imports = imports_of(files[f]);
        assert forall|j: int| 0 <= j < imports.len() implies node::name_chars(
            (#[trigger] imports[j]).name,
        ) is Ok by {
            lemma_imports_ok(before, files[f].id, imports, j, imports.len() as int);
        }
    }
}

/// In the first `n` nodes, the root is that of the last node without a parent, as long as
/// no two clash.
proof fn lemma_root(nodes: Seq<Arc<node::Reader>>, parents: Map<u64, u64>, n: int)
    requires
        0 <= n <= nodes.len(),
    ensures
        root_among(nodes, parents, n) is Some <==> !exists|i: int, j: int|
            {
                &&& 0 <= i < j < n
                &&& parents[(#[trigger] nodes[i]).id] == 0
                &&& parents[(#[trigger] nodes[j]).id] == 0
                &&& nodes[i].id != 0
            },
        root_among(nodes, parents, n) matches Some(root) ==> {
            &&& root != 0 ==> exists|k: int|
                0 <= k < n && (#[trigger] nodes[k]).id == root && parents[root] == 0
            &&& root == 0 ==> forall|k: int|
                0 <= k < n && parents[(#[trigger] nodes[k]).id] == 0 ==> nodes[k].id == 0
            &&& forall|k: int|
                0 <= k < n && parents[(#[trigger] nodes[k]).id] == 0 && (forall|l: int|
                    k < l < n ==> parents[(#[trigger] nodes[l]).id] != 0) ==> nodes[k].id == root
        },
    decreases n,
{
    if n > 0 {
        lemma_root(nodes, parents, n - 1);
        let here = nodes[n - 1].id;
        match root_among(nodes, parents, n - 1) {
            None => {
                let (i, j) = choose|i: int, j: int|
                    {
                        &&& 0 <= i < j < n - 1
                        &&& parents[(#[trigger] nodes[i]).id] == 0
                        &&& parents[(#[trigger] nodes[j]).id] == 0
                        &&& nodes[i].id != 0
                    };
                assert(parents[nodes[i].id] == 0 && parents[nodes[j].id] == 0);
            },
            Some(root) => {
                if parents[here] == 0 && root != 0 {
                    let k = choose|k: int|
                        0 <= k < n - 1 && (#[trigger] nodes[k]).id == root && parents[root] == 0;
                    assert(parents[nodes[k].id] == 0 && parents[nodes[n - 1].id] == 0
                        && nodes[k].id != 0);
                } else if parents[here] == 0 {
                    assert(nodes[n - 1].id == here);
                } else if root != 0 {
                    let k = choose|k: int|
                        0 <= k < n - 1 && (#[trigger] nodes[k]).id == root && parents[root] == 0;
                    assert(nodes[k].id == root);
                }
            },
        }
    }
}

proof fn lemma_first_stop_at(nodes: Seq<Arc<node::Reader>>, parents: Map<u64, u64>, k: int, n: int)
    requires
        0 <= k <= n <= nodes.len(),
        forall|i: int|
            0 <= i < k ==> node_outcome(
                *nodes_by_id(nodes, nodes.len() as int)[(#[trigger] nodes[i]).id],
            ) is Ok,
        forall|i: int| 0 <= i <= k ==> (#[trigger] root_among(nodes, parents, i)) is Some,
    ensures
        first_stop(nodes, parents, k) is None,
        k < n && root_among(nodes, parents, k + 1) is None ==> first_stop(nodes, parents, n) == Some(
            Stop::Error(crate::error::bare(ErrorKind::MessageIsTooDeeplyNestedOrContainsCycles)),
        ),
        k < n && root_among(nodes, parents, k + 1) is Some ==> (node_outcome(
            *nodes_by_id(nodes, nodes.len() as int)[nodes[k].id],
        ) matches Err(s) ==> first_stop(nodes, parents, n) == Some(s)),
    decreases k,
{
    if k > 0 {
        lemma_first_stop_at(nodes, parents, k - 1, k - 1);
        assert(root_among(nodes, parents, k) is Some);
        assert(node_outcome(*nodes_by_id(nodes, nodes.len() as int)[nodes[k - 1].id]) is Ok);
    }
    if k < n {
        lemma_stop_stays(nodes, parents, k + 1, n);
    }
}

proof fn lemma_stop_stays(nodes: Seq<Arc<node::Reader>>, parents: Map<u64, u64>, i: int, n: int)
    requires
        0 <= i <= n,
    ensures
        first_stop(nodes, parents, i) is Some ==> first_stop(nodes, parents, n) == first_stop(
            nodes,
            parents,
            i,
        ),
    decreases n - i,
{
    if i < n {
        lemma_stop_stays(nodes, parents, i, n - 1);
    }
}

/// Where no two roots clash among the first `k` nodes, there is one root at most there.
proof fn lemma_one_root(msg: Message, k: int)
    requires
        is_readable(msg),
        0 <= k <= nodes_of(msg).len(),
    ensures
        root_among(nodes_of(msg), links_of(msg).parents, k) is Some <==> !exists|i: int, j: int|
            j < k && #[trigger] roots_clash(msg, i, j),
        forall|i: int|
            0 <= i < nodes_of(msg).len() ==> (links_of(msg).parents[(#[trigger] nodes_of(msg)[i]).id]
                == 0 <==> is_orphan(msg, i)),
{
    let nodes = nodes_of(msg);
    let parents = links_of(msg).parents;
    assert forall|i: int| 0 <= i < nodes.len() implies (parents[(#[trigger] nodes[i]).id] == 0
        <==> is_orphan(msg, i)) by {
        let last = lemma_last_exists(nodes, i);
        lemma_links(msg, last);
    }
    lemma_root(nodes, parents, k);
    if exists|i: int, j: int| j < k && #[trigger] roots_clash(msg, i, j) {
        let (i, j) = choose|i: int, j: int| j < k && #[trigger] roots_clash(msg, i, j);
        assert(parents[nodes[i].id] == 0 && parents[nodes[j].id] == 0);
    }
    if root_among(nodes, parents, k) is None {
        let (i, j) = choose|i: int, j: int|
            {
                &&& 0 <= i < j < k
                &&& parents[(#[trigger] nodes[i]).id] == 0
                &&& parents[(#[trigger] nodes[j]).id] == 0
                &&& nodes[i].id != 0
            };
        assert(roots_clash(msg, i, j));
    }
}

proof fn lemma_outcome(msg: Message)
    requires
        is_readable(msg),
    ensures
        ({
            let nodes = nodes_of(msg);
            let n = nodes.len() as int;
            match first_stop(nodes, links_of(msg).parents, n) {
                Some(s) => schema_outcome(msg) == Err::<SchemaModel, Stop<ErrorView>>(s),
                None => {
                    &&& schema_outcome(msg) matches Ok(model)
                    &&& model.parents == links_of(msg).parents
                    &&& Some(model.root) == root_among(nodes, links_of(msg).parents, n)
                },
            }
        }),
{
    let nodes = nodes_of(msg);
    let n = nodes.len() as int;
    let files = files_of(msg);
    let declared = declared_parents(nodes, n);
    lemma_interfaces_are_ok(declared, nodes, n);
    let start = Links {
        parents: interfaces_adopted(declared, nodes, n)->Ok_0,
        scopes: Map::empty(),
    };
    lemma_files_are_ok(start, files, files.len() as int);
    lemma_one_root(msg, n);
    if first_stop(nodes, links_of(msg).parents, n) is None {
        if n > 0 {
            assert(root_among(nodes, links_of(msg).parents, n) is Some);
        }
    }
}

proof fn lemma_interfaces_are_ok(parents: Map<u64, u64>, nodes: Seq<Arc<node::Reader>>, n: int)
    requires
        0 <= n <= nodes.len(),
        forall|i: int| 0 <= i < n ==> !has_unreadable_methods(#[trigger] nodes[i]),
    ensures
        interfaces_adopted(parents, nodes, n) is Ok,
    decreases n,
{
    if n > 0 {
        lemma_interfaces_are_ok(parents, nodes, n - 1);
        assert(!has_unreadable_methods(nodes[n - 1]));
    }
}

proof fn lemma_imports_are_ok(links: Links, file: u64, imports: Seq<Import>, n: int)
    requires
        0 <= n <= imports.len(),
        forall|j: int| 0 <= j < n ==> node::name_chars((#[trigger] imports[j]).name) is Ok,
    ensures
        imports_linked(links, file, imports, n) is Ok,
    decreases n,
{
    if n > 0 {
        lemma_imports_are_ok(links, file, imports, n - 1);
        assert(node::name_chars(imports[n - 1].name) is Ok);
    }
}

proof fn lemma_files_are_ok(links: Links, files: Seq<RequestedFile>, n: int)
    requires
        0 <= n <= files.len(),
        forall|f: int| 0 <= f < n ==> has_readable_imports(#[trigger] files[f]),
    ensures
        files_linked(links, files, n) is Ok,
    decreases n,
{
    if n > 0 {
        lemma_files_are_ok(links, files, n - 1);
        assert(has_readable_imports(files[n - 1]));
        let before = files_linked(links, files, n - 1)->Ok_0;
        let imports = imports_of(files[n - 1]);
        lemma_imports_are_ok(before, files[n - 1].id, imports, imports.len() as int);
    }
}

/// A request that can be read, whose nodes are all of a supported kind, and in which at
/// most one place in the list of nodes is that of a node without a parent, gives a schema:
/// wherever in the list that node stands. (The ID 0 stands for no node: a node with it is
/// no root.)
pub proof fn law_readable_requests_give_schemas(msg: Message)
    requires
        is_readable(msg),
        forall|i: int| 0 <= i < nodes_of(msg).len() ==> is_supported(*#[trigger] nodes_of(msg)[i]),
        forall|i: int, j: int| !#[trigger] roots_clash(msg, i, j),
    ensures
        schema_outcome(msg) is Ok,
{
    let nodes = nodes_of(msg);
    let n = nodes.len() as int;
    let parents = links_of(msg).parents;
    lemma_all_supported(msg);
    assert forall|i: int| 0 <= i <= n implies (#[trigger] root_among(nodes, parents, i)) is Some by {
        lemma_one_root(msg, i);
    }
    lemma_first_stop_at(nodes, parents, n, n);
    lemma_outcome(msg);
}

proof fn lemma_all_supported(msg: Message)
    requires
        forall|i: int| 0 <= i < nodes_of(msg).len() ==> is_supported(*#[trigger] nodes_of(msg)[i]),
    ensures
        forall|i: int|
            0 <= i < nodes_of(msg).len() ==> node_outcome(
                *nodes_by_id(nodes_of(msg), nodes_of(msg).len() as int)[(
                #[trigger] nodes_of(msg)[i]).id],
            ) is Ok,
{
    let nodes = nodes_of(msg);
    let n = nodes.len() as int;
    assert forall|i: int| 0 <= i < n implies node_outcome(
        *nodes_by_id(nodes, n)[(#[trigger] nodes[i]).id],
    ) is Ok by {
        let last = lemma_last_exists(nodes, i);
        law_last_node_counts(nodes, nodes[i].id);
        assert(is_last_with_id(nodes, last));
        assert(nodes_by_id(nodes, n)[nodes[i].id] == nodes[last]);
        assert(is_supported(*nodes[last]));
        lemma_supported(nodes[last]);
    }
}

/// A request that can be read, and whose nodes are all of a supported kind, is refused
/// just where two different places in the list are those of nodes without a parent, the
/// first of them a root; and then for that.
pub proof fn law_two_roots_are_refused(msg: Message)
    requires
        is_readable(msg),
        forall|i: int| 0 <= i < nodes_of(msg).len() ==> is_supported(*#[trigger] nodes_of(msg)[i]),
    ensures
        schema_outcome(msg) is Err <==> exists|i: int, j: int| #[trigger] roots_clash(msg, i, j),
        schema_outcome(msg) matches Err(stop) ==> {
            &&& stop matches Stop::Error(e)
            &&& e.kind == ErrorKind::MessageIsTooDeeplyNestedOrContainsCycles
            &&& e.extra.len() == 0
        },
{
    let nodes = nodes_of(msg);
    let n = nodes.len() as int;
    let parents = links_of(msg).parents;
    if forall|i: int, j: int| !#[trigger] roots_clash(msg, i, j) {
        law_readable_requests_give_schemas(msg);
    } else {
        let (i, j) = choose|i: int, j: int| #[trigger] roots_clash(msg, i, j);
        lemma_all_supported(msg);
        lemma_one_root(msg, n);
        assert(j < n && roots_clash(msg, i, j));
        assert(root_among(nodes, parents, n) is None);
        let k = lemma_first_clash(nodes, parents, n);
        assert(forall|m: int| 0 <= m <= k ==> (#[trigger] root_among(nodes, parents, m)) is Some);
        lemma_first_stop_at(nodes, parents, k, n);
        lemma_outcome(msg);
    }
}

/// Where there is more than one root, there is a first node at which that shows.
proof fn lemma_first_clash(nodes: Seq<Arc<node::Reader>>, parents: Map<u64, u64>, n: int) -> (k: int)
    requires
        0 <= n,
        root_among(nodes, parents, n) is None,
    ensures
        0 <= k < n,
        root_among(nodes, parents, k + 1) is None,
        forall|m: int| 0 <= m <= k ==> (#[trigger] root_among(nodes, parents, m)) is Some,
    decreases n,
{
    if root_among(nodes, parents, n - 1) is None {
        lemma_first_clash(nodes, parents, n - 1)
    } else {
        lemma_some_before(nodes, parents, n - 1);
        n - 1
    }
}

proof fn lemma_some_before(nodes: Seq<Arc<node::Reader>>, parents: Map<u64, u64>, n: int)
    requires
        root_among(nodes, parents, n) is Some,
    ensures
        forall|m: int| 0 <= m <= n ==> (#[trigger] root_among(nodes, parents, m)) is Some,
    decreases n,
{
    if n > 0 {
        lemma_some_before(nodes, parents, n - 1);
    }
}

/// A request that can be read is refused at the first node that stands in the way: with
/// that node's own reason, or because it is a second root.
pub proof fn law_first_trouble_decides(msg: Message, k: int, last: int)
    requires
        is_readable(msg),
        0 <= k < nodes_of(msg).len(),
        is_last_with_id(nodes_of(msg), last),
        nodes_of(msg)[last].id == nodes_of(msg)[k].id,
        forall|i: int, l: int|
            0 <= i < k && #[trigger] is_last_with_id(nodes_of(msg), l) && nodes_of(msg)[l].id == (
            #[trigger] nodes_of(msg)[i]).id ==> node_outcome(*nodes_of(msg)[l]) is Ok,
        forall|i: int, j: int| j < k ==> !#[trigger] roots_clash(msg, i, j),
    ensures
        (exists|i: int| #[trigger] roots_clash(msg, i, k)) ==> {
            &&& schema_outcome(msg) matches Err(Stop::Error(e))
            &&& e.kind == ErrorKind::MessageIsTooDeeplyNestedOrContainsCycles
            &&& e.extra.len() == 0
        },
        (forall|i: int| !#[trigger] roots_clash(msg, i, k)) ==> (node_outcome(
            *nodes_of(msg)[last],
        ) matches Err(s) ==> schema_outcome(msg) == Err::<SchemaModel, Stop<ErrorView>>(s)),
{
    let nodes = nodes_of(msg);
    let n = nodes.len() as int;
    let parents = links_of(msg).parents;
    assert forall|i: int| 0 <= i < k implies node_outcome(
        *nodes_by_id(nodes, n)[(#[trigger] nodes[i]).id],
    ) is Ok by {
        let l = lemma_last_exists(nodes, i);
        law_last_node_counts(nodes, nodes[i].id);
        assert(is_last_with_id(nodes, l) && nodes[l].id == nodes[i].id);
        assert(nodes_by_id(nodes, n)[nodes[i].id] == nodes[l]);
    }
    assert forall|i: int| 0 <= i <= k implies (#[trigger] root_among(nodes, parents, i)) is Some by {
        lemma_one_root(msg, i);
    }
    lemma_one_root(msg, k + 1);
    law_last_node_counts(nodes, nodes[k].id);
    assert(is_last_with_id(nodes, last));
    assert(nodes_by_id(nodes, n)[nodes[k].id] == nodes[last]);
    lemma_first_stop_at(nodes, parents, k, n);
    lemma_outcome(msg);
    if exists|i: int| #[trigger] roots_clash(msg, i, k) {
        let i = choose|i: int| #[trigger] roots_clash(msg, i, k);
        assert(k < k + 1 && roots_clash(msg, i, k));
    } else if root_among(nodes, parents, k + 1) is None {
        let (i, j) = choose|i: int, j: int| j < k + 1 && #[trigger] roots_clash(msg, i, j);
        assert(j == k);
    }
}

/// The root of a schema is the last node in the list without a parent; 0 where every node
/// has one.
pub proof fn law_root(msg: Message, model: SchemaModel, k: int)
    requires
        schema_outcome(msg) == Ok::<SchemaModel, Stop<ErrorView>>(model),
    ensures
        is_orphan(msg, k) && (forall|l: int| k < l ==> !#[trigger] is_orphan(msg, l)) ==> model.root
            == nodes_of(msg)[k].id,
        (forall|l: int| !#[trigger] is_orphan(msg, l)) ==> model.root == 0,
{
    lemma_readable(msg);
    lemma_outcome(msg);
    let nodes = nodes_of(msg);
    let n = nodes.len() as int;
    lemma_one_root(msg, n);
    lemma_root(nodes, links_of(msg).parents, n);
    if forall|l: int| !#[trigger] is_orphan(msg, l) {
        assert forall|i: int| 0 <= i < n implies links_of(msg).parents[(#[trigger] nodes[i]).id]
            != 0 by {
            assert(!is_orphan(msg, i));
        }
    }
    if is_orphan(msg, k) && (forall|l: int| k < l ==> !#[trigger] is_orphan(msg, l)) {
        assert forall|l: int| k < l < n implies links_of(msg).parents[(#[trigger] nodes[l]).id]
            != 0 by {
            assert(!is_orphan(msg, l));
        }
        assert(links_of(msg).parents[nodes[k].id] == 0);
    }
}

/// A request without a readable root, or without readable nodes, gives that error.
pub proof fn law_unreadable_requests(msg: Message)
    ensures
        msg.root matches Err(e) ==> schema_outcome(msg) == Err::<SchemaModel, Stop<ErrorView>>(
            Stop::Error(e@),
        ),
        msg.root matches Ok(request) ==> (request.nodes matches Err(e) ==> schema_outcome(msg)
            == Err::<SchemaModel, Stop<ErrorView>>(Stop::Error(e@))),
{
}

/// The first interface whose methods cannot be read stops the request with that error;
/// where there is none, requested files that cannot be read do.
pub proof fn law_unreadable_methods(msg: Message, i: int)
    requires
        msg.root is Ok,
        msg.root->Ok_0.nodes is Ok,
    ensures
        0 <= i < nodes_of(msg).len() && has_unreadable_methods(nodes_of(msg)[i]) && (forall|j: int|
            0 <= j < i ==> !has_unreadable_methods(#[trigger] nodes_of(msg)[j])) ==> schema_outcome(
            msg,
        ) == Err::<SchemaModel, Stop<ErrorView>>(
            Stop::Error(nodes_of(msg)[i].which->Ok_0->Interface_0.methods->Err_0@),
        ),
        (forall|j: int|
            0 <= j < nodes_of(msg).len() ==> !has_unreadable_methods(#[trigger] nodes_of(msg)[j]))
            ==> (msg.root->Ok_0.requested_files matches Err(e) ==> schema_outcome(msg) == Err::<
            SchemaModel,
            Stop<ErrorView>,
        >(Stop::Error(e@))),
{
    let nodes = nodes_of(msg);
    let n = nodes.len() as int;
    let declared = declared_parents(nodes, n);
    if 0 <= i < n && has_unreadable_methods(nodes[i]) && (forall|j: int|
        0 <= j < i ==> !has_unreadable_methods(#[trigger] nodes[j])) {
        lemma_interfaces_are_ok(declared, nodes, i);
        lemma_interfaces_fail(declared, nodes, i, n);
    }
    if forall|j: int| 0 <= j < n ==> !has_unreadable_methods(#[trigger] nodes[j]) {
        lemma_interfaces_are_ok(declared, nodes, n);
    }
}

proof fn lemma_interfaces_fail(
    parents: Map<u64, u64>,
    nodes: Seq<Arc<node::Reader>>,
    i: int,
    n: int,
)
    requires
        0 <= i < n <= nodes.len(),
        interfaces_adopted(parents, nodes, i) is Ok,
        has_unreadable_methods(nodes[i]),
    ensures
        interfaces_adopted(parents, nodes, n) == Err::<Map<u64, u64>, ErrorView>(
            nodes[i].which->Ok_0->Interface_0.methods->Err_0@,
        ),
    decreases n,
{
    if n > i + 1 {
        lemma_interfaces_fail(parents, nodes, i, n - 1);
    }
}

/// The first file whose imports cannot be read, or the first of its imports whose name
/// cannot, stops the request with that error.
pub proof fn law_unreadable_imports(msg: Message, f: int, j: int)
    requires
        msg.root is Ok,
        msg.root->Ok_0.nodes is Ok,
        msg.root->Ok_0.requested_files is Ok,
        forall|i: int|
            0 <= i < nodes_of(msg).len() ==> !has_unreadable_methods(#[trigger] nodes_of(msg)[i]),
        0 <= f < files_of(msg).len(),
        forall|g: int| 0 <= g < f ==> has_readable_imports(#[trigger] files_of(msg)[g]),
    ensures
        files_of(msg)[f].imports matches Err(e) ==> schema_outcome(msg) == Err::<
            SchemaModel,
            Stop<ErrorView>,
        >(Stop::Error(e@)),
        files_of(msg)[f].imports is Ok && 0 <= j < imports_of(files_of(msg)[f]).len() && (
        forall|k: int|
            0 <= k < j ==> node::name_chars(
                (#[trigger] imports_of(files_of(msg)[f])[k]).name,
            ) is Ok) ==> (node::name_chars(imports_of(files_of(msg)[f])[j].name) matches Err(e)
            ==> schema_outcome(msg) == Err::<SchemaModel, Stop<ErrorView>>(Stop::Error(e))),
{
    let nodes = nodes_of(msg);
    let n = nodes.len() as int;
    let files = files_of(msg);
    let declared = declared_parents(nodes, n);
    lemma_interfaces_are_ok(declared, nodes, n);
    let start = Links {
        parents: interfaces_adopted(declared, nodes, n)->Ok_0,
        scopes: Map::empty(),
    };
    lemma_files_are_ok(start, files, f);
    let before = files_linked(start, files, f)->Ok_0;
    if files[f].imports is Err {
        lemma_files_fail(start, files, f, files.len() as int);
    } else {
        let imports = imports_of(files[f]);
        if 0 <= j < imports.len() && (forall|k: int|
            0 <= k < j ==> node::name_chars((#[trigger] imports[k]).name) is Ok)
            && node::name_chars(imports[j].name) is Err {
            lemma_imports_are_ok(before, files[f].id, imports, j);
            lemma_imports_fail(before, files[f].id, imports, j, imports.len() as int);
            lemma_files_fail(start, files, f, files.len() as int);
        }
    }
}

proof fn lemma_imports_fail(links: Links, file: u64, imports: Seq<Import>, j: int, n: int)
    requires
        0 <= j < n <= imports.len(),
        imports_linked(links, file, imports, j) is Ok,
        node::name_chars(imports[j].name) is Err,
    ensures
        imports_linked(links, file, imports, n) == Err::<Links, ErrorView>(
            node::name_chars(imports[j].name)->Err_0,
        ),
    decreases n,
{
    if n > j + 1 {
        lemma_imports_fail(links, file, imports, j, n - 1);
    }
}

proof fn lemma_files_fail(links: Links, files: Seq<RequestedFile>, f: int, n: int)
    requires
        0 <= f < n <= files.len(),
        files_linked(links, files, f) is Ok,
        files_linked(links, files, f + 1) is Err,
    ensures
        files_linked(links, files, n) == files_linked(links, files, f + 1),
    decreases n,
{
    if n > f + 1 {
        lemma_files_fail(links, files, f, n - 1);
    }
}

/// What a schema holds of a request: its names, its parents and its root are those of the
/// request, and under the ID of each node is its type, and nothing else.
pub proof fn law_schemas_hold_their_request(
    schema: DynamicSchema,
    msg: Message,
    model: SchemaModel,
    i: int,
)
    requires
        schema_outcome(msg) == Ok::<SchemaModel, Stop<ErrorView>>(model),
        schema.is_schema_of(model),
        is_last_with_id(nodes_of(msg), i),
    ensures
        schema.scopes() == model.scopes,
        schema.parents() == model.parents,
        schema.root() == model.root,
        nodes_of(msg)[i].which is Ok,
        ({
            let n = nodes_of(msg)[i];
            let types = schema.types();
            match n.which->Ok_0 {
                node::Which::File => !types.contains_key(n.id),
                node::Which::Annotation => !types.contains_key(n.id),
                node::Which::Struct(st) => {
                    &&& types.contains_key(n.id)
                    &&& types[n.id] matches TypeVariant::Struct(s)
                    &&& s.generic.encoded_node == n
                    &&& s.generic.nonunion_members@ == nonunion_members(st.fields->Ok_0@)
                    &&& s.generic.members_by_discriminant@ == members_by_discriminant(
                        st.fields->Ok_0@,
                    )
                    &&& *s.field_types == FieldTypes::Dynamic
                    &&& *s.annotation_types == AnnotationTypes::Dynamic
                    &&& s.dynamic_schema == Some(schema.token())
                },
                node::Which::Enum(_) => {
                    &&& types.contains_key(n.id)
                    &&& types[n.id] matches TypeVariant::Enum(e)
                    &&& e.encoded_node == Some(n)
                    &&& *e.annotation_types == AnnotationTypes::Dynamic
                },
                node::Which::Interface(_) => {
                    &&& types.contains_key(n.id)
                    &&& types[n.id] matches TypeVariant::Capability(c)
                    &&& c.encoded_node == Some(n)
                },
                node::Which::Const(c) => {
                    &&& types.contains_key(n.id)
                    &&& c.type_ matches Ok(t)
                    &&& t.which matches Ok(kind)
                    &&& is_variant_of(kind, types[n.id])
                },
            }
        }),
{
    crate::schema::laws::law_which_nodes_have_types(msg, model, i);
    let n = nodes_of(msg)[i];
    if model.declaring.contains_key(n.id) {
        assert(schema.types().dom().contains(n.id));
        assert(schema.types().contains_key(n.id));
        assert(declares(model.declaring[n.id], schema.types()[n.id], schema.token()));
    } else {
        assert(!schema.types().dom().contains(n.id));
    }
}

/// A schema holds no type under an ID that no node has.
pub proof fn law_schemas_hold_no_other_types(
    schema: DynamicSchema,
    msg: Message,
    model: SchemaModel,
    id: u64,
)
    requires
        schema_outcome(msg) == Ok::<SchemaModel, Stop<ErrorView>>(model),
        schema.is_schema_of(model),
        forall|i: int| 0 <= i < nodes_of(msg).len() ==> (#[trigger] nodes_of(msg)[i]).id != id,
    ensures
        !schema.types().contains_key(id),
{
    if schema.types().contains_key(id) {
        assert(schema.types().dom().contains(id));
        crate::schema::laws::law_types_belong_to_nodes(msg, model, id);
        let i = choose|i: int| #[trigger]
            is_last_with_id(nodes_of(msg), i) && nodes_of(msg)[i].id == id && model.declaring[id]
                == nodes_of(msg)[i];
        assert(nodes_of(msg)[i].id == id);
    }
}

/// An empty path leads nowhere else.
pub proof fn law_empty_paths(scopes: Map<(u64, Seq<char>), u64>, from: u64)
    ensures
        resolve(scopes, from, Seq::empty()) == Some(from),
{
}

/// The reason why a request gives no schema is the error that it met, or that something
/// is not covered.
pub proof fn law_reasons(e: Error)
    ensures
        Stop::Error(e).reason() == Stop::Error(e@),
        Stop::<Error>::Unsupported.reason() == Stop::<ErrorView>::Unsupported,
        e@.kind == e.kind,
        e@.extra == e.extra@,
{
}

} // verus!
