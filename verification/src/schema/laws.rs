//! What holds of every schema that is built at run time.
use crate::error::ErrorView;
use crate::introspect::{RawBrandedStructSchema, TypeVariant};
use crate::registry::DynamicSchemaToken;
use crate::schema::dynamic::{
    first_stop, nodes_declared, resolve, root_among, schema_outcome, table_declares, SchemaModel,
};
use crate::schema::members::{
    has_contiguous_union, law_member_has_its_discriminant, law_members_are_fields,
    members_by_discriminant, nonunion_members,
};
use crate::schema::nodes::{declares, nested_declared, node_outcome, readable_names, Stop};
use crate::schema::parents::{
    declared_parents, files_linked, imports_linked, interfaces_adopted, methods_adopted,
    nodes_by_id, Links,
};
use crate::schema::structs::{fields_of, may_be_struct};
use crate::schema_capnp::code_generator_request::{Import, Message, RequestedFile};
use crate::schema_capnp::{field, node};
use std::sync::Arc;
use vstd::prelude::*;

verus! {

/// The nodes of a message that gives a schema.
pub open spec fn nodes_of(msg: Message) -> Seq<Arc<node::Reader>> {
    msg.root->Ok_0.nodes->Ok_0@
}

/// The requested files of a message that gives a schema.
pub open spec fn files_of(msg: Message) -> Seq<RequestedFile> {
    msg.root->Ok_0.requested_files->Ok_0@
}

/// Whether the node at `i` is the last one with its ID.
pub open spec fn is_last_with_id(nodes: Seq<Arc<node::Reader>>, i: int) -> bool {
    &&& 0 <= i < nodes.len()
    &&& forall|j: int| i < j < nodes.len() ==> (#[trigger] nodes[j]).id != nodes[i].id
}

/// Of several nodes with one ID, the last one counts.
pub proof fn law_last_node_counts(nodes: Seq<Arc<node::Reader>>, id: u64)
    ensures
        nodes_by_id(nodes, nodes.len() as int).contains_key(id) <==> exists|i: int|
            is_last_with_id(nodes, i) && nodes[i].id == id,
        forall|i: int| #[trigger]
            is_last_with_id(nodes, i) && nodes[i].id == id ==> nodes_by_id(
                nodes,
                nodes.len() as int,
            )[id] == nodes[i],
{
    lemma_last_node(nodes, nodes.len() as int, id);
    let by_id = nodes_by_id(nodes, nodes.len() as int);
    if by_id.contains_key(id) {
        let i = choose|i: int|
            {
                &&& 0 <= i < nodes.len()
                &&& (#[trigger] nodes[i]).id == id
                &&& nodes[i] == by_id[id]
                &&& forall|j: int| i < j < nodes.len() ==> (#[trigger] nodes[j]).id != id
            };
        assert(is_last_with_id(nodes, i));
        assert forall|k: int| #[trigger]
            is_last_with_id(nodes, k) && nodes[k].id == id implies by_id[id] == nodes[k] by {
            if k < i {
                assert(nodes[i].id != nodes[k].id);
            } else if i < k {
                assert(nodes[k].id != id);
            }
        }
    }
}

proof fn lemma_last_node(nodes: Seq<Arc<node::Reader>>, n: int, id: u64)
    requires
        0 <= n <= nodes.len(),
    ensures
        nodes_by_id(nodes, n).contains_key(id) ==> exists|i: int|
            {
                &&& 0 <= i < n
                &&& (#[trigger] nodes[i]).id == id
                &&& nodes[i] == nodes_by_id(nodes, n)[id]
                &&& forall|j: int| i < j < n ==> (#[trigger] nodes[j]).id != id
            },
        forall|i: int|
            0 <= i < n && (#[trigger] nodes[i]).id == id ==> nodes_by_id(nodes, n).contains_key(id),
    decreases n,
{
    if n > 0 {
        lemma_last_node(nodes, n - 1, id);
        if nodes[n - 1].id == id {
            assert(nodes[n - 1] == nodes_by_id(nodes, n)[id]);
        }
    }
}

/// Where no node stops the request, every node reads well and there is one root
/// at most.
proof fn lemma_no_stop(nodes: Seq<Arc<node::Reader>>, parents: Map<u64, u64>, i: int, n: int)
    requires
        0 <= i < n,
        first_stop(nodes, parents, n) is None,
    ensures
        node_outcome(*nodes_by_id(nodes, nodes.len() as int)[nodes[i].id]) is Ok,
        root_among(nodes, parents, i + 1) is Some,
    decreases n,
{
    if i < n - 1 {
        lemma_no_stop(nodes, parents, i, n - 1);
    }
}

/// A schema holds a type for a node just where that node is a struct, an enum,
/// an interface or a constant.
pub proof fn law_which_nodes_have_types(msg: Message, model: SchemaModel, i: int)
    requires
        schema_outcome(msg) == Ok::<SchemaModel, Stop<ErrorView>>(model),
        is_last_with_id(nodes_of(msg), i),
    ensures
        nodes_of(msg)[i].which is Ok,
        model.declaring.contains_key(nodes_of(msg)[i].id) <==> {
            let which = nodes_of(msg)[i].which->Ok_0;
            which is Struct || which is Enum || which is Interface || which is Const
        },
        model.declaring.contains_key(nodes_of(msg)[i].id) ==> model.declaring[nodes_of(msg)[i].id]
            == nodes_of(msg)[i],
{
    let nodes = nodes_of(msg);
    let n = nodes.len() as int;
    law_last_node_counts(nodes, nodes[i].id);
    assert(nodes_by_id(nodes, n)[nodes[i].id] == nodes[i]);
    lemma_no_stop(nodes, model.parents, i, n);
}

/// A schema's types are under the IDs of its nodes, and under no others.
pub proof fn law_types_belong_to_nodes(msg: Message, model: SchemaModel, id: u64)
    requires
        schema_outcome(msg) == Ok::<SchemaModel, Stop<ErrorView>>(model),
        model.declaring.contains_key(id),
    ensures
        exists|i: int| #[trigger]
            is_last_with_id(nodes_of(msg), i) && nodes_of(msg)[i].id == id
                && model.declaring[id] == nodes_of(msg)[i],
{
    law_last_node_counts(nodes_of(msg), id);
    let i = choose|i: int| is_last_with_id(nodes_of(msg), i) && nodes_of(msg)[i].id == id;
    assert(is_last_with_id(nodes_of(msg), i));
}

/// No type of a run-time schema is a list or an untyped pointer.
pub proof fn law_no_lists(
    table: Map<u64, TypeVariant>,
    declaring: Map<u64, Arc<node::Reader>>,
    token: DynamicSchemaToken,
    id: u64,
)
    requires
        table_declares(table, declaring, token),
        table.contains_key(id),
    ensures
        !(table[id] is List),
        !(table[id] is AnyPointer),
{
    assert(declares(declaring[id], table[id], token));
}

/// A schema has one root: every node without a parent is the root, and a root
/// has no parent. Nodes with the ID 0 aside, which stands for no node.
pub proof fn law_one_root(msg: Message, model: SchemaModel)
    requires
        schema_outcome(msg) == Ok::<SchemaModel, Stop<ErrorView>>(model),
    ensures
        forall|i: int|
            0 <= i < nodes_of(msg).len() && model.parents[(#[trigger] nodes_of(msg)[i]).id] == 0
                ==> nodes_of(msg)[i].id == model.root || nodes_of(msg)[i].id == 0,
        model.root != 0 ==> exists|i: int|
            0 <= i < nodes_of(msg).len() && (#[trigger] nodes_of(msg)[i]).id == model.root
                && model.parents[model.root] == 0,
{
    let nodes = nodes_of(msg);
    let n = nodes.len() as int;
    if n > 0 {
        lemma_no_stop(nodes, model.parents, n - 1, n);
    }
    lemma_one_root(nodes, model.parents, n);
}

proof fn lemma_one_root(nodes: Seq<Arc<node::Reader>>, parents: Map<u64, u64>, n: int)
    requires
        0 <= n <= nodes.len(),
        root_among(nodes, parents, n) is Some,
    ensures
        ({
            let root = root_among(nodes, parents, n)->Some_0;
            &&& forall|i: int|
                0 <= i < n && parents[(#[trigger] nodes[i]).id] == 0 ==> nodes[i].id == root
                    || nodes[i].id == 0
            &&& root != 0 ==> exists|i: int|
                0 <= i < n && (#[trigger] nodes[i]).id == root && parents[root] == 0
        }),
    decreases n,
{
    if n > 0 {
        lemma_one_root(nodes, parents, n - 1);
        let before = root_among(nodes, parents, n - 1)->Some_0;
        if parents[nodes[n - 1].id] == 0 {
            assert(nodes[n - 1].id == root_among(nodes, parents, n)->Some_0);
        } else if before != 0 {
            let i = choose|i: int|
                0 <= i < n - 1 && (#[trigger] nodes[i]).id == before && parents[before] == 0;
            assert(nodes[i].id == before);
        }
    }
}

/// Following two paths one after the other is following the longer path that
/// they make.
pub proof fn law_paths_compose(
    scopes: Map<(u64, Seq<char>), u64>,
    from: u64,
    first: Seq<Seq<char>>,
    second: Seq<Seq<char>>,
)
    ensures
        resolve(scopes, from, first + second) == match resolve(scopes, from, first) {
            Some(middle) => resolve(scopes, middle, second),
            None => None,
        },
    decreases first.len(),
{
    if first.len() == 0 {
        assert(first + second =~= second);
    } else {
        assert((first + second)[0] == first[0]);
        assert((first + second).drop_first() =~= first.drop_first() + second);
        if scopes.contains_key((from, first[0])) {
            law_paths_compose(scopes, scopes[(from, first[0])], first.drop_first(), second);
        }
    }
}

/// Whether the nested node at `j` is the last one with its name.
pub open spec fn is_last_with_name(nested: Seq<node::NestedNode>, j: int) -> bool {
    &&& 0 <= j < nested.len()
    &&& forall|k: int|
        j < k < nested.len() ==> node::name_chars((#[trigger] nested[k]).name)->Ok_0
            != node::name_chars(nested[j].name)->Ok_0
}

proof fn lemma_nested_declared(
    scopes: Map<(u64, Seq<char>), u64>,
    id: u64,
    nested: Seq<node::NestedNode>,
    n: int,
)
    requires
        0 <= n <= nested.len(),
    ensures
        ({
            let after = nested_declared(scopes, id, nested, n);
            &&& forall|key: (u64, Seq<char>)|
                key.0 != id ==> (#[trigger] after.contains_key(key) <==> scopes.contains_key(key))
            &&& forall|key: (u64, Seq<char>)|
                key.0 != id && scopes.contains_key(key) ==> #[trigger] after[key] == scopes[key]
            &&& forall|key: (u64, Seq<char>)| #[trigger]
                scopes.contains_key(key) ==> after.contains_key(key)
            &&& forall|j: int|
                {
                    &&& 0 <= j < n
                    &&& forall|k: int|
                        j < k < n ==> node::name_chars((#[trigger] nested[k]).name)->Ok_0
                            != node::name_chars(nested[j].name)->Ok_0
                } ==> {
                    let key = (id, node::name_chars((#[trigger] nested[j]).name)->Ok_0);
                    after.contains_key(key) && after[key] == nested[j].id
                }
            &&& forall|key: (u64, Seq<char>)| #[trigger]
                after.contains_key(key) ==> (scopes.contains_key(key) && after[key] == scopes[key])
                    || exists|j: int|
                    0 <= j < n && key == (id, node::name_chars((#[trigger] nested[j]).name)->Ok_0)
                        && after[key] == nested[j].id
        }),
    decreases n,
{
    if n > 0 {
        lemma_nested_declared(scopes, id, nested, n - 1);
        let before = nested_declared(scopes, id, nested, n - 1);
        let after = nested_declared(scopes, id, nested, n);
        let name = node::name_chars(nested[n - 1].name)->Ok_0;
        assert(after == before.insert((id, name), nested[n - 1].id));
        assert forall|key: (u64, Seq<char>)| #[trigger] after.contains_key(key) implies (
        scopes.contains_key(key) && after[key] == scopes[key]) || exists|j: int|
            0 <= j < n && key == (id, node::name_chars((#[trigger] nested[j]).name)->Ok_0)
                && after[key] == nested[j].id by {
            if key == (id, name) {
                assert(after[key] == nested[n - 1].id);
            } else {
                assert(before.contains_key(key));
                if !(scopes.contains_key(key) && before[key] == scopes[key]) {
                    let j = choose|j: int|
                        0 <= j < n - 1 && key == (id, node::name_chars(
                            (#[trigger] nested[j]).name,
                        )->Ok_0) && before[key] == nested[j].id;
                    assert(after[key] == nested[j].id);
                }
            }
        }
    }
}

proof fn lemma_nodes_declared(
    scopes: Map<(u64, Seq<char>), u64>,
    nodes: Seq<Arc<node::Reader>>,
    i: int,
    j: int,
    n: int,
)
    requires
        is_last_with_id(nodes, i),
        i < n <= nodes.len(),
        forall|k: int|
            0 <= k < nodes.len() ==> node_outcome(
                *nodes_by_id(nodes, nodes.len() as int)[(#[trigger] nodes[k]).id],
            ) is Ok,
        is_last_with_name(nodes[i].nested_nodes->Ok_0@, j),
    ensures
        ({
            let nested = nodes[i].nested_nodes->Ok_0@[j];
            let key = (nodes[i].id, node::name_chars(nested.name)->Ok_0);
            let after = nodes_declared(scopes, nodes, n);
            after.contains_key(key) && after[key] == nested.id
        }),
    decreases n,
{
    let by_id = nodes_by_id(nodes, nodes.len() as int);
    let id = nodes[n - 1].id;
    let node = by_id[id];
    law_last_node_counts(nodes, nodes[i].id);
    law_last_node_counts(nodes, id);
    assert(node_outcome(*by_id[nodes[n - 1].id]) is Ok);
    lemma_reads(node);
    let nested = node.nested_nodes->Ok_0@;
    let before = nodes_declared(scopes, nodes, n - 1);
    lemma_nested_declared(before, id, nested, nested.len() as int);
    if id != nodes[i].id {
        lemma_nodes_declared(scopes, nodes, i, j, n - 1);
    } else {
        assert(is_last_with_id(nodes, i));
        assert(by_id[id] == nodes[i]);
    }
}

/// A node that reads well has readable names only.
proof fn lemma_reads(node: Arc<node::Reader>)
    requires
        node_outcome(*node) is Ok,
    ensures
        node.nested_nodes is Ok,
        readable_names(node.nested_nodes->Ok_0@, node.nested_nodes->Ok_0@.len() as int)
            == node.nested_nodes->Ok_0@.len(),
        forall|k: int|
            0 <= k < node.nested_nodes->Ok_0@.len() ==> node::name_chars(
                (#[trigger] node.nested_nodes->Ok_0@[k]).name,
            ) is Ok,
{
    let nested = node.nested_nodes->Ok_0@;
    lemma_readable(nested, nested.len() as int);
}

proof fn lemma_readable(nested: Seq<node::NestedNode>, n: int)
    requires
        0 <= n <= nested.len(),
    ensures
        0 <= readable_names(nested, n) <= n,
        readable_names(nested, n) == n ==> forall|k: int|
            0 <= k < n ==> node::name_chars((#[trigger] nested[k]).name) is Ok,
    decreases n,
{
    if n > 0 {
        lemma_readable(nested, n - 1);
    }
}

/// In a schema, the name of a nested node leads from the node that it is nested
/// in to the nested node.
pub proof fn law_nested_names_lead_to_nodes(msg: Message, model: SchemaModel, i: int, j: int)
    requires
        schema_outcome(msg) == Ok::<SchemaModel, Stop<ErrorView>>(model),
        is_last_with_id(nodes_of(msg), i),
        is_last_with_name(nodes_of(msg)[i].nested_nodes->Ok_0@, j),
    ensures
        ({
            let nested = nodes_of(msg)[i].nested_nodes->Ok_0@[j];
            &&& node::name_chars(nested.name) matches Ok(name)
            &&& resolve(model.scopes, nodes_of(msg)[i].id, seq![name]) == Some(nested.id)
        }),
{
    let nodes = nodes_of(msg);
    let n = nodes.len() as int;
    assert forall|k: int| 0 <= k < n implies node_outcome(
        *nodes_by_id(nodes, n)[(#[trigger] nodes[k]).id],
    ) is Ok by {
        lemma_no_stop(nodes, model.parents, k, n);
    }
    let scopes = links_of(msg).scopes;
    lemma_nodes_declared(scopes, nodes, i, j, n);
    law_last_node_counts(nodes, nodes[i].id);
    assert(node_outcome(*nodes_by_id(nodes, n)[nodes[i].id]) is Ok);
    lemma_reads(nodes[i]);
    let nested = nodes[i].nested_nodes->Ok_0@[j];
    let name = node::name_chars(nested.name)->Ok_0;
    let path = seq![name];
    assert(path.drop_first() =~= Seq::<Seq<char>>::empty());
    assert(resolve(model.scopes, nested.id, path.drop_first()) == Some(nested.id));
}

/// The links that the files of a message make.
pub open spec fn links_of(msg: Message) -> Links {
    let nodes = nodes_of(msg);
    let n = nodes.len() as int;
    let parents = interfaces_adopted(declared_parents(nodes, n), nodes, n)->Ok_0;
    files_linked(
        Links { parents, scopes: Map::empty() },
        files_of(msg),
        files_of(msg).len() as int,
    )->Ok_0
}

/// Whether some file imports `id` under a name.
pub open spec fn is_imported(files: Seq<RequestedFile>, key: (u64, Seq<char>), id: u64) -> bool {
    exists|f: int, j: int|
        {
            &&& 0 <= f < files.len()
            &&& files[f].id == key.0
            &&& 0 <= j < files[f].imports->Ok_0@.len()
            &&& node::name_chars((#[trigger] files[f].imports->Ok_0@[j]).name) == Ok::<
                Seq<char>,
                ErrorView,
            >(key.1)
            &&& files[f].imports->Ok_0@[j].id == id
        }
}

/// Whether `id` is nested in some node under a name.
pub open spec fn is_nested(nodes: Seq<Arc<node::Reader>>, key: (u64, Seq<char>), id: u64) -> bool {
    exists|i: int, j: int|
        {
            &&& is_last_with_id(nodes, i)
            &&& nodes[i].id == key.0
            &&& 0 <= j < nodes[i].nested_nodes->Ok_0@.len()
            &&& node::name_chars((#[trigger] nodes[i].nested_nodes->Ok_0@[j]).name) == Ok::<
                Seq<char>,
                ErrorView,
            >(key.1)
            &&& nodes[i].nested_nodes->Ok_0@[j].id == id
        }
}

proof fn lemma_imported(links: Links, files: Seq<RequestedFile>, n: int, key: (u64, Seq<char>))
    requires
        0 <= n <= files.len(),
        links.scopes == Map::<(u64, Seq<char>), u64>::empty(),
    ensures
        files_linked(links, files, n) matches Ok(l) ==> (l.scopes.contains_key(key)
            ==> is_imported(files, key, l.scopes[key])),
    decreases n,
{
    if n > 0 {
        lemma_imported(links, files, n - 1, key);
        if let Ok(before) = files_linked(links, files, n - 1) {
            if let Ok(imports) = files[n - 1].imports {
                lemma_imported_by(before, files, n - 1, imports@.len() as int, key);
            }
        }
    }
}

proof fn lemma_imported_by(
    links: Links,
    files: Seq<RequestedFile>,
    f: int,
    n: int,
    key: (u64, Seq<char>),
)
    requires
        0 <= f < files.len(),
        files[f].imports is Ok,
        0 <= n <= files[f].imports->Ok_0@.len(),
        links.scopes.contains_key(key) ==> is_imported(files, key, links.scopes[key]),
    ensures
        imports_linked(links, files[f].id, files[f].imports->Ok_0@, n) matches Ok(l) ==> (
        l.scopes.contains_key(key) ==> is_imported(files, key, l.scopes[key])),
    decreases n,
{
    let imports = files[f].imports->Ok_0@;
    if n > 0 {
        lemma_imported_by(links, files, f, n - 1, key);
        if let Ok(after) = imports_linked(links, files[f].id, imports, n) {
            let name = node::name_chars(imports[n - 1].name)->Ok_0;
            if key == (files[f].id, name) {
                assert(node::name_chars(files[f].imports->Ok_0@[n - 1].name) == Ok::<
                    Seq<char>,
                    ErrorView,
                >(key.1));
                assert(is_imported(files, key, after.scopes[key]));
            }
        }
    }
}

proof fn lemma_names_come_from(
    scopes: Map<(u64, Seq<char>), u64>,
    nodes: Seq<Arc<node::Reader>>,
    n: int,
    key: (u64, Seq<char>),
)
    requires
        0 <= n <= nodes.len(),
        forall|k: int|
            0 <= k < nodes.len() ==> node_outcome(
                *nodes_by_id(nodes, nodes.len() as int)[(#[trigger] nodes[k]).id],
            ) is Ok,
        nodes_declared(scopes, nodes, n).contains_key(key),
    ensures
        ({
            let id = nodes_declared(scopes, nodes, n)[key];
            (scopes.contains_key(key) && scopes[key] == id) || is_nested(nodes, key, id)
        }),
    decreases n,
{
    if n > 0 {
        let by_id = nodes_by_id(nodes, nodes.len() as int);
        let id = nodes[n - 1].id;
        let node = by_id[id];
        assert(node_outcome(*by_id[nodes[n - 1].id]) is Ok);
        lemma_reads(node);
        let nested = node.nested_nodes->Ok_0@;
        let before = nodes_declared(scopes, nodes, n - 1);
        let after = nodes_declared(scopes, nodes, n);
        lemma_nested_declared(before, id, nested, nested.len() as int);
        if before.contains_key(key) && after[key] == before[key] {
            lemma_names_come_from(scopes, nodes, n - 1, key);
        } else {
            let j = choose|j: int|
                0 <= j < nested.len() && key == (id, node::name_chars(
                    (#[trigger] nested[j]).name,
                )->Ok_0) && after[key] == nested[j].id;
            law_last_node_counts(nodes, id);
            lemma_last_node(nodes, nodes.len() as int, id);
            assert(nodes[n - 1].id == id);
            let i = choose|i: int| is_last_with_id(nodes, i) && nodes[i].id == id;
            assert(is_last_with_id(nodes, i) && by_id[id] == nodes[i]);
            assert(node::name_chars(nodes[i].nested_nodes->Ok_0@[j].name) == Ok::<
                Seq<char>,
                ErrorView,
            >(key.1));
        }
    }
}

/// Every name in a schema is that of a nested node or of an import.
pub proof fn law_names_come_from_nodes_and_imports(
    msg: Message,
    model: SchemaModel,
    key: (u64, Seq<char>),
)
    requires
        schema_outcome(msg) == Ok::<SchemaModel, Stop<ErrorView>>(model),
        model.scopes.contains_key(key),
    ensures
        is_nested(nodes_of(msg), key, model.scopes[key]) || is_imported(
            files_of(msg),
            key,
            model.scopes[key],
        ),
{
    let nodes = nodes_of(msg);
    let n = nodes.len() as int;
    assert forall|k: int| 0 <= k < n implies node_outcome(
        *nodes_by_id(nodes, n)[(#[trigger] nodes[k]).id],
    ) is Ok by {
        lemma_no_stop(nodes, model.parents, k, n);
    }
    let parents = interfaces_adopted(declared_parents(nodes, n), nodes, n)->Ok_0;
    let start = Links { parents, scopes: Map::empty() };
    lemma_imported(start, files_of(msg), files_of(msg).len() as int, key);
    lemma_names_come_from(links_of(msg).scopes, nodes, n, key);
}

/// The imports of a requested file.
pub open spec fn imports_of(file: RequestedFile) -> Seq<Import> {
    file.imports->Ok_0@
}

/// Whether an import gives a name in a file.
pub open spec fn is_import_of(
    files: Seq<RequestedFile>,
    f: int,
    j: int,
    key: (u64, Seq<char>),
) -> bool {
    &&& 0 <= f < files.len()
    &&& files[f].id == key.0
    &&& 0 <= j < imports_of(files[f]).len()
    &&& node::name_chars(imports_of(files[f])[j].name) == Ok::<Seq<char>, ErrorView>(key.1)
}

/// Whether the import at `j` of the file at `f` is the last one of its name in
/// that file.
pub open spec fn is_last_import_of(
    files: Seq<RequestedFile>,
    f: int,
    j: int,
    key: (u64, Seq<char>),
) -> bool {
    &&& is_import_of(files, f, j, key)
    &&& forall|g: int, k: int|
        (f < g || (f == g && j < k)) ==> !#[trigger] is_import_of(files, g, k, key)
}

/// Whether a nested node has a name in its node.
pub open spec fn is_nested_as(
    nodes: Seq<Arc<node::Reader>>,
    i: int,
    j: int,
    key: (u64, Seq<char>),
) -> bool {
    &&& is_last_with_id(nodes, i)
    &&& nodes[i].id == key.0
    &&& 0 <= j < nodes[i].nested_nodes->Ok_0@.len()
    &&& node::name_chars(nodes[i].nested_nodes->Ok_0@[j].name) == Ok::<Seq<char>, ErrorView>(key.1)
}

/// Whether a name in a node stands for the node `id`: it is the last nested node
/// of that name, or, where none has the name, the last import of that name.
pub open spec fn stands_for(msg: Message, key: (u64, Seq<char>), id: u64) -> bool {
    ||| exists|i: int, j: int|
        {
            &&& #[trigger] is_nested_as(nodes_of(msg), i, j, key)
            &&& is_last_with_name(nodes_of(msg)[i].nested_nodes->Ok_0@, j)
            &&& nodes_of(msg)[i].nested_nodes->Ok_0@[j].id == id
        }
    ||| {
        &&& forall|i: int, j: int| !#[trigger] is_nested_as(nodes_of(msg), i, j, key)
        &&& exists|f: int, j: int| #[trigger]
            is_last_import_of(files_of(msg), f, j, key) && imports_of(files_of(msg)[f])[j].id == id
    }
}

/// Whether the imports of the first `n` files, and the first `m` of the next one,
/// have given the name in `key` to the import at `j` of the file at `f`.
spec fn is_last_among(
    files: Seq<RequestedFile>,
    f: int,
    j: int,
    key: (u64, Seq<char>),
    n: int,
    m: int,
) -> bool {
    &&& is_import_of(files, f, j, key)
    &&& f < n || (f == n && j < m)
    &&& forall|g: int, k: int|
        (f < g || (f == g && j < k)) && (g < n || (g == n && k < m)) ==> !#[trigger] is_import_of(
            files,
            g,
            k,
            key,
        )
}

/// What the names say once some imports are linked.
spec fn imports_say(
    scopes: Map<(u64, Seq<char>), u64>,
    files: Seq<RequestedFile>,
    key: (u64, Seq<char>),
    n: int,
    m: int,
) -> bool {
    &&& forall|f: int, j: int| #[trigger]
        is_last_among(files, f, j, key, n, m) ==> scopes.contains_key(key) && scopes[key]
            == imports_of(files[f])[j].id
    &&& scopes.contains_key(key) ==> exists|f: int, j: int| #[trigger]
        is_last_among(files, f, j, key, n, m)
}

proof fn lemma_imports_say(
    links: Links,
    files: Seq<RequestedFile>,
    key: (u64, Seq<char>),
    n: int,
    m: int,
)
    requires
        0 <= n < files.len(),
        files[n].imports is Ok,
        0 <= m <= imports_of(files[n]).len(),
        imports_say(links.scopes, files, key, n, 0),
        imports_linked(links, files[n].id, imports_of(files[n]), m) is Ok,
    ensures
        imports_say(
            imports_linked(links, files[n].id, imports_of(files[n]), m)->Ok_0.scopes,
            files,
            key,
            n,
            m,
        ),
    decreases m,
{
    let imports = imports_of(files[n]);
    if m > 0 {
        lemma_imports_say(links, files, key, n, m - 1);
        let before = imports_linked(links, files[n].id, imports, m - 1)->Ok_0.scopes;
        let after = imports_linked(links, files[n].id, imports, m)->Ok_0.scopes;
        let name = node::name_chars(imports[m - 1].name)->Ok_0;
        assert(after == before.insert((files[n].id, name), imports[m - 1].id));
        if key == (files[n].id, name) {
            assert(is_import_of(files, n, m - 1, key));
            assert(is_last_among(files, n, m - 1, key, n, m));
            assert forall|f: int, j: int| #[trigger]
                is_last_among(files, f, j, key, n, m) implies after.contains_key(key) && after[key]
                == imports_of(files[f])[j].id by {
                if f != n || j != m - 1 {
                    assert(is_import_of(files, n, m - 1, key));
                }
            }
        } else {
            assert(!is_import_of(files, n, m - 1, key));
            assert forall|f: int, j: int| #[trigger]
                is_last_among(files, f, j, key, n, m) implies is_last_among(
                files,
                f,
                j,
                key,
                n,
                m - 1,
            ) by {}
            if before.contains_key(key) {
                let (f, j) = choose|f: int, j: int| #[trigger]
                    is_last_among(files, f, j, key, n, m - 1);
                assert(is_last_among(files, f, j, key, n, m)) by {
                    assert forall|g: int, k: int|
                        (f < g || (f == g && j < k)) && (g < n || (g == n && k
                            < m)) implies !#[trigger] is_import_of(files, g, k, key) by {
                        if g == n && k == m - 1 {
                            assert(!is_import_of(files, n, m - 1, key));
                        }
                    }
                }
            }
        }
    }
}

proof fn lemma_files_say(links: Links, files: Seq<RequestedFile>, key: (u64, Seq<char>), n: int)
    requires
        0 <= n <= files.len(),
        links.scopes == Map::<(u64, Seq<char>), u64>::empty(),
        files_linked(links, files, n) is Ok,
    ensures
        imports_say(files_linked(links, files, n)->Ok_0.scopes, files, key, n, 0),
    decreases n,
{
    if n > 0 {
        lemma_files_say(links, files, key, n - 1);
        let before = files_linked(links, files, n - 1)->Ok_0;
        let count = imports_of(files[n - 1]).len() as int;
        lemma_imports_say(before, files, key, n - 1, count);
        let after = files_linked(links, files, n)->Ok_0.scopes;
        assert forall|f: int, j: int| #[trigger]
            is_last_among(files, f, j, key, n, 0) implies is_last_among(
            files,
            f,
            j,
            key,
            n - 1,
            count,
        ) by {}
        if after.contains_key(key) {
            let (f, j) = choose|f: int, j: int| #[trigger]
                is_last_among(files, f, j, key, n - 1, count);
            assert(is_last_among(files, f, j, key, n, 0));
        }
    } else {
        assert forall|f: int, j: int| !#[trigger] is_last_among(files, f, j, key, 0, 0) by {}
    }
}

/// A name that no node gives stays as it was.
proof fn lemma_names_stay(
    scopes: Map<(u64, Seq<char>), u64>,
    nodes: Seq<Arc<node::Reader>>,
    n: int,
    key: (u64, Seq<char>),
)
    requires
        0 <= n <= nodes.len(),
        forall|k: int|
            0 <= k < nodes.len() ==> node_outcome(
                *nodes_by_id(nodes, nodes.len() as int)[(#[trigger] nodes[k]).id],
            ) is Ok,
        forall|i: int, j: int| !#[trigger] is_nested_as(nodes, i, j, key),
        scopes.contains_key(key),
    ensures
        nodes_declared(scopes, nodes, n).contains_key(key),
        nodes_declared(scopes, nodes, n)[key] == scopes[key],
    decreases n,
{
    if n > 0 {
        lemma_names_stay(scopes, nodes, n - 1, key);
        let by_id = nodes_by_id(nodes, nodes.len() as int);
        let id = nodes[n - 1].id;
        let node = by_id[id];
        assert(node_outcome(*by_id[nodes[n - 1].id]) is Ok);
        lemma_reads(node);
        let nested = node.nested_nodes->Ok_0@;
        let before = nodes_declared(scopes, nodes, n - 1);
        let after = nodes_declared(scopes, nodes, n);
        lemma_nested_declared(before, id, nested, nested.len() as int);
        assert(before.contains_key(key));
        assert(after.contains_key(key));
        if after[key] != before[key] {
            let j = choose|j: int|
                0 <= j < nested.len() && key == (id, node::name_chars(
                    (#[trigger] nested[j]).name,
                )->Ok_0) && after[key] == nested[j].id;
            law_last_node_counts(nodes, id);
            lemma_last_node(nodes, nodes.len() as int, id);
            assert(nodes[n - 1].id == id);
            let i = choose|i: int| is_last_with_id(nodes, i) && nodes[i].id == id;
            assert(is_last_with_id(nodes, i) && by_id[id] == nodes[i]);
            assert(is_nested_as(nodes, i, j, key));
        }
    }
}

/// Where a nested node has a name, there is a last one of that name.
proof fn lemma_last_of_name(nested: Seq<node::NestedNode>, j: int) -> (last: int)
    requires
        0 <= j < nested.len(),
    ensures
        is_last_with_name(nested, last),
        node::name_chars(nested[last].name)->Ok_0 == node::name_chars(nested[j].name)->Ok_0,
    decreases nested.len() - j,
{
    if is_last_with_name(nested, j) {
        j
    } else {
        let k = choose|k: int|
            j < k < nested.len() && node::name_chars((#[trigger] nested[k]).name)->Ok_0
                == node::name_chars(nested[j].name)->Ok_0;
        lemma_last_of_name(nested, k)
    }
}

/// What stands for something is what the schema's names say.
proof fn lemma_stands_for(msg: Message, model: SchemaModel, key: (u64, Seq<char>), id: u64)
    requires
        schema_outcome(msg) == Ok::<SchemaModel, Stop<ErrorView>>(model),
        stands_for(msg, key, id),
    ensures
        model.scopes.contains_key(key),
        model.scopes[key] == id,
{
    let nodes = nodes_of(msg);
    let n = nodes.len() as int;
    let files = files_of(msg);
    assert forall|k: int| 0 <= k < n implies node_outcome(
        *nodes_by_id(nodes, n)[(#[trigger] nodes[k]).id],
    ) is Ok by {
        lemma_no_stop(nodes, model.parents, k, n);
    }
    let scopes = links_of(msg).scopes;
    if exists|i: int, j: int|
        {
            &&& #[trigger] is_nested_as(nodes, i, j, key)
            &&& is_last_with_name(nodes[i].nested_nodes->Ok_0@, j)
            &&& nodes[i].nested_nodes->Ok_0@[j].id == id
        } {
        let (i, j) = choose|i: int, j: int|
            {
                &&& #[trigger] is_nested_as(nodes, i, j, key)
                &&& is_last_with_name(nodes[i].nested_nodes->Ok_0@, j)
                &&& nodes[i].nested_nodes->Ok_0@[j].id == id
            };
        lemma_nodes_declared(scopes, nodes, i, j, n);
    } else {
        let (f, j) = choose|f: int, j: int| #[trigger]
            is_last_import_of(files, f, j, key) && imports_of(files[f])[j].id == id;
        let parents = interfaces_adopted(declared_parents(nodes, n), nodes, n)->Ok_0;
        let start = Links { parents, scopes: Map::empty() };
        lemma_files_say(start, files, key, files.len() as int);
        assert(is_last_among(files, f, j, key, files.len() as int, 0));
        lemma_names_stay(scopes, nodes, n, key);
    }
}

/// A name in a schema is exact: it leads from a node to the last of the nodes
/// nested in it that have the name; where none has it, from a requested file to
/// the last of its imports that have it; and nowhere else.
pub proof fn law_names_are_exact(
    msg: Message,
    model: SchemaModel,
    key: (u64, Seq<char>),
    id: u64,
)
    requires
        schema_outcome(msg) == Ok::<SchemaModel, Stop<ErrorView>>(model),
    ensures
        stands_for(msg, key, id) <==> model.scopes.contains_key(key) && model.scopes[key] == id,
        stands_for(msg, key, id) <==> resolve(model.scopes, key.0, seq![key.1]) == Some(id),
{
    let nodes = nodes_of(msg);
    let n = nodes.len() as int;
    let files = files_of(msg);
    if stands_for(msg, key, id) {
        lemma_stands_for(msg, model, key, id);
    }
    if model.scopes.contains_key(key) && model.scopes[key] == id {
        assert forall|k: int| 0 <= k < n implies node_outcome(
            *nodes_by_id(nodes, n)[(#[trigger] nodes[k]).id],
        ) is Ok by {
            lemma_no_stop(nodes, model.parents, k, n);
        }
        if exists|i: int, j: int| #[trigger] is_nested_as(nodes, i, j, key) {
            let (i, j) = choose|i: int, j: int| #[trigger] is_nested_as(nodes, i, j, key);
            let nested = nodes[i].nested_nodes->Ok_0@;
            let last = lemma_last_of_name(nested, j);
            law_last_node_counts(nodes, nodes[i].id);
            assert(node_outcome(*nodes_by_id(nodes, n)[nodes[i].id]) is Ok);
            lemma_reads(nodes[i]);
            assert(node::name_chars(nested[last].name) is Ok);
            assert(is_nested_as(nodes, i, last, key));
            assert(stands_for(msg, key, nested[last].id));
            lemma_stands_for(msg, model, key, nested[last].id);
        } else {
            let scopes = links_of(msg).scopes;
            lemma_names_come_from(scopes, nodes, n, key);
            if is_nested(nodes, key, id) {
                let (i, j) = choose|i: int, j: int|
                    {
                        &&& is_last_with_id(nodes, i)
                        &&& nodes[i].id == key.0
                        &&& 0 <= j < nodes[i].nested_nodes->Ok_0@.len()
                        &&& node::name_chars(
                            (#[trigger] nodes[i].nested_nodes->Ok_0@[j]).name,
                        ) == Ok::<Seq<char>, ErrorView>(key.1)
                        &&& nodes[i].nested_nodes->Ok_0@[j].id == id
                    };
                assert(is_nested_as(nodes, i, j, key));
            }
            assert(scopes.contains_key(key) && scopes[key] == id);
            let parents = interfaces_adopted(declared_parents(nodes, n), nodes, n)->Ok_0;
            let start = Links { parents, scopes: Map::empty() };
            lemma_files_say(start, files, key, files.len() as int);
            let (f, j) = choose|f: int, j: int| #[trigger]
                is_last_among(files, f, j, key, files.len() as int, 0);
            assert(is_last_import_of(files, f, j, key)) by {
                assert forall|g: int, k: int|
                    (f < g || (f == g && j < k)) implies !#[trigger] is_import_of(
                    files,
                    g,
                    k,
                    key,
                ) by {}
            }
            assert(imports_of(files[f])[j].id == id);
        }
    }
    let path = seq![key.1];
    assert(path.drop_first() =~= Seq::<Seq<char>>::empty());
    if model.scopes.contains_key(key) {
        assert(key == (key.0, path[0]));
        assert(resolve(model.scopes, model.scopes[key], path.drop_first()) == Some(
            model.scopes[key],
        ));
    }
}

/// A name leads on from wherever a path leads to: the step after a path is the
/// nested node, or the import, that the next name stands for.
pub proof fn law_paths_follow_names(
    msg: Message,
    model: SchemaModel,
    from: u64,
    path: Seq<Seq<char>>,
    name: Seq<char>,
    id: u64,
)
    requires
        schema_outcome(msg) == Ok::<SchemaModel, Stop<ErrorView>>(model),
    ensures
        resolve(model.scopes, from, path.push(name)) == Some(id) <==> {
            &&& resolve(model.scopes, from, path) matches Some(middle)
            &&& stands_for(msg, (middle, name), id)
        },
{
    assert(path.push(name) =~= path + seq![name]);
    law_paths_compose(model.scopes, from, path, seq![name]);
    if let Some(middle) = resolve(model.scopes, from, path) {
        law_names_are_exact(msg, model, (middle, name), id);
    }
}

/// Whether every node with a parent in `before` has the same one in `after`.
pub open spec fn keeps_parents(before: Map<u64, u64>, after: Map<u64, u64>) -> bool {
    forall|id: u64| #[trigger]
        before.contains_key(id) && before[id] != 0 ==> after.contains_key(id) && after[id]
            == before[id]
}

proof fn lemma_methods_keep(
    parents: Map<u64, u64>,
    methods: Seq<node::Method>,
    n: int,
    interface: u64,
)
    ensures
        keeps_parents(parents, methods_adopted(parents, methods, n, interface)),
    decreases n,
{
    if n > 0 {
        lemma_methods_keep(parents, methods, n - 1, interface);
    }
}

proof fn lemma_interfaces_keep(
    parents: Map<u64, u64>,
    nodes: Seq<Arc<node::Reader>>,
    i: int,
    n: int,
)
    requires
        0 <= i <= n <= nodes.len(),
        interfaces_adopted(parents, nodes, n) is Ok,
    ensures
        interfaces_adopted(parents, nodes, i) is Ok,
        keeps_parents(
            interfaces_adopted(parents, nodes, i)->Ok_0,
            interfaces_adopted(parents, nodes, n)->Ok_0,
        ),
    decreases n - i,
{
    if i < n {
        lemma_interfaces_keep(parents, nodes, i, n - 1);
        let before = interfaces_adopted(parents, nodes, n - 1)->Ok_0;
        if let Ok(node::Which::Interface(interface)) = nodes[n - 1].which {
            if let Ok(methods) = interface.methods {
                lemma_methods_keep(before, methods@, methods@.len() as int, nodes[n - 1].id);
            }
        }
    }
}

proof fn lemma_imports_keep(links: Links, file: u64, imports: Seq<Import>, i: int, n: int)
    requires
        0 <= i <= n <= imports.len(),
        imports_linked(links, file, imports, n) is Ok,
    ensures
        imports_linked(links, file, imports, i) is Ok,
        keeps_parents(
            imports_linked(links, file, imports, i)->Ok_0.parents,
            imports_linked(links, file, imports, n)->Ok_0.parents,
        ),
    decreases n - i,
{
    if i < n {
        lemma_imports_keep(links, file, imports, i, n - 1);
    }
}

proof fn lemma_files_keep(links: Links, files: Seq<RequestedFile>, i: int, n: int)
    requires
        0 <= i <= n <= files.len(),
        files_linked(links, files, n) is Ok,
    ensures
        files_linked(links, files, i) is Ok,
        keeps_parents(
            files_linked(links, files, i)->Ok_0.parents,
            files_linked(links, files, n)->Ok_0.parents,
        ),
    decreases n - i,
{
    if i < n {
        lemma_files_keep(links, files, i, n - 1);
        let before = files_linked(links, files, n - 1)->Ok_0;
        if let Ok(imports) = files[n - 1].imports {
            lemma_imports_keep(before, files[n - 1].id, imports@, 0, imports@.len() as int);
        }
    }
}

/// A node that names the scope that it is declared in stays in that scope.
pub proof fn law_declared_parents_stay(msg: Message, model: SchemaModel)
    requires
        schema_outcome(msg) == Ok::<SchemaModel, Stop<ErrorView>>(model),
    ensures
        keeps_parents(
            declared_parents(nodes_of(msg), nodes_of(msg).len() as int),
            model.parents,
        ),
{
    let nodes = nodes_of(msg);
    let n = nodes.len() as int;
    let declared = declared_parents(nodes, n);
    lemma_interfaces_keep(declared, nodes, 0, n);
    let parents = interfaces_adopted(declared, nodes, n)->Ok_0;
    let files = files_of(msg);
    lemma_files_keep(Links { parents, scopes: Map::empty() }, files, 0, files.len() as int);
    assert(keeps_parents(declared, parents));
    assert(keeps_parents(parents, model.parents));
    assert forall|id: u64| #[trigger] declared.contains_key(id) && declared[id]
        != 0 implies model.parents.contains_key(id) && model.parents[id] == declared[id] by {
        assert(parents.contains_key(id));
    }
}

proof fn lemma_method_adopts(
    parents: Map<u64, u64>,
    methods: Seq<node::Method>,
    j: int,
    n: int,
    interface: u64,
    id: u64,
)
    requires
        0 <= j < n <= methods.len(),
        id == methods[j].param_struct_type || id == methods[j].result_struct_type,
        parents.contains_key(id),
        interface != 0,
    ensures
        methods_adopted(parents, methods, n, interface).contains_key(id),
        methods_adopted(parents, methods, n, interface)[id] != 0,
    decreases n,
{
    let before = methods_adopted(parents, methods, n - 1, interface);
    lemma_methods_keep_known(parents, methods, n - 1, interface, id);
    if j < n - 1 {
        lemma_method_adopts(parents, methods, j, n - 1, interface, id);
    }
}

proof fn lemma_methods_keep_known(
    parents: Map<u64, u64>,
    methods: Seq<node::Method>,
    n: int,
    interface: u64,
    id: u64,
)
    requires
        parents.contains_key(id),
    ensures
        methods_adopted(parents, methods, n, interface).contains_key(id),
    decreases n,
{
    if n > 0 {
        lemma_methods_keep_known(parents, methods, n - 1, interface, id);
    }
}

proof fn lemma_interfaces_keep_known(
    parents: Map<u64, u64>,
    nodes: Seq<Arc<node::Reader>>,
    n: int,
    id: u64,
)
    requires
        parents.contains_key(id),
    ensures
        interfaces_adopted(parents, nodes, n) matches Ok(p) ==> p.contains_key(id),
    decreases n,
{
    if n > 0 {
        lemma_interfaces_keep_known(parents, nodes, n - 1, id);
        if let Ok(before) = interfaces_adopted(parents, nodes, n - 1) {
            if let Ok(node::Which::Interface(interface)) = nodes[n - 1].which {
                if let Ok(methods) = interface.methods {
                    lemma_methods_keep_known(
                        before,
                        methods@,
                        methods@.len() as int,
                        nodes[n - 1].id,
                        id,
                    );
                }
            }
        }
    }
}

/// The structs of the parameters and results of an interface's methods have a
/// parent: where they name none, it is an interface.
pub proof fn law_method_structs_have_parents(
    msg: Message,
    model: SchemaModel,
    i: int,
    j: int,
    id: u64,
)
    requires
        schema_outcome(msg) == Ok::<SchemaModel, Stop<ErrorView>>(model),
        0 <= i < nodes_of(msg).len(),
        nodes_of(msg)[i].which is Ok,
        nodes_of(msg)[i].which->Ok_0 is Interface,
        nodes_of(msg)[i].id != 0,
        ({
            let methods = nodes_of(msg)[i].which->Ok_0->Interface_0.methods->Ok_0@;
            &&& 0 <= j < methods.len()
            &&& id == methods[j].param_struct_type || id == methods[j].result_struct_type
        }),
        declared_parents(nodes_of(msg), nodes_of(msg).len() as int).contains_key(id),
    ensures
        model.parents.contains_key(id),
        model.parents[id] != 0,
{
    let nodes = nodes_of(msg);
    let n = nodes.len() as int;
    let declared = declared_parents(nodes, n);
    let files = files_of(msg);
    lemma_interfaces_keep(declared, nodes, i + 1, n);
    lemma_interfaces_keep(declared, nodes, i, n);
    lemma_interfaces_keep_known(declared, nodes, i, id);
    let before = interfaces_adopted(declared, nodes, i)->Ok_0;
    let methods = nodes[i].which->Ok_0->Interface_0.methods->Ok_0@;
    lemma_method_adopts(before, methods, j, methods.len() as int, nodes[i].id, id);
    let after = interfaces_adopted(declared, nodes, i + 1)->Ok_0;
    assert(after.contains_key(id) && after[id] != 0);
    let parents = interfaces_adopted(declared, nodes, n)->Ok_0;
    assert(parents.contains_key(id) && parents[id] != 0);
    lemma_files_keep(Links { parents, scopes: Map::empty() }, files, 0, files.len() as int);
}

proof fn lemma_import_adopts(links: Links, file: u64, imports: Seq<Import>, j: int, n: int)
    requires
        0 <= j < n <= imports.len(),
        imports_linked(links, file, imports, n) is Ok,
        links.parents.contains_key(imports[j].id),
        file != 0,
    ensures
        imports_linked(links, file, imports, n)->Ok_0.parents.contains_key(imports[j].id),
        imports_linked(links, file, imports, n)->Ok_0.parents[imports[j].id] != 0,
    decreases n,
{
    lemma_imports_keep_known(links, file, imports, n - 1, imports[j].id);
    if j < n - 1 {
        lemma_import_adopts(links, file, imports, j, n - 1);
    }
}

proof fn lemma_imports_keep_known(links: Links, file: u64, imports: Seq<Import>, n: int, id: u64)
    requires
        links.parents.contains_key(id),
    ensures
        imports_linked(links, file, imports, n) matches Ok(l) ==> l.parents.contains_key(id),
    decreases n,
{
    if n > 0 {
        lemma_imports_keep_known(links, file, imports, n - 1, id);
    }
}

proof fn lemma_files_keep_known(links: Links, files: Seq<RequestedFile>, n: int, id: u64)
    requires
        links.parents.contains_key(id),
    ensures
        files_linked(links, files, n) matches Ok(l) ==> l.parents.contains_key(id),
    decreases n,
{
    if n > 0 {
        lemma_files_keep_known(links, files, n - 1, id);
        if let Ok(before) = files_linked(links, files, n - 1) {
            if let Ok(imports) = files[n - 1].imports {
                lemma_imports_keep_known(
                    before,
                    files[n - 1].id,
                    imports@,
                    imports@.len() as int,
                    id,
                );
            }
        }
    }
}

/// The nodes of imported files have a parent: where they name none, it is a file
/// that imports them.
pub proof fn law_imported_files_have_parents(msg: Message, model: SchemaModel, f: int, j: int)
    requires
        schema_outcome(msg) == Ok::<SchemaModel, Stop<ErrorView>>(model),
        0 <= f < files_of(msg).len(),
        files_of(msg)[f].id != 0,
        0 <= j < files_of(msg)[f].imports->Ok_0@.len(),
        declared_parents(nodes_of(msg), nodes_of(msg).len() as int).contains_key(
            files_of(msg)[f].imports->Ok_0@[j].id,
        ),
    ensures
        model.parents.contains_key(files_of(msg)[f].imports->Ok_0@[j].id),
        model.parents[files_of(msg)[f].imports->Ok_0@[j].id] != 0,
{
    let nodes = nodes_of(msg);
    let n = nodes.len() as int;
    let files = files_of(msg);
    let imports = files[f].imports->Ok_0@;
    let id = imports[j].id;
    let declared = declared_parents(nodes, n);
    let parents = interfaces_adopted(declared, nodes, n)->Ok_0;
    let start = Links { parents, scopes: Map::empty() };
    lemma_interfaces_keep_known(declared, nodes, n, id);
    lemma_files_keep(start, files, f + 1, files.len() as int);
    lemma_files_keep(start, files, f, files.len() as int);
    lemma_files_keep_known(start, files, f, id);
    let before = files_linked(start, files, f)->Ok_0;
    assert(files_linked(start, files, f + 1) == imports_linked(
        before,
        files[f].id,
        imports,
        imports.len() as int,
    ));
    lemma_import_adopts(before, files[f].id, imports, j, imports.len() as int);
    let after = files_linked(start, files, f + 1)->Ok_0.parents;
    assert(after.contains_key(id) && after[id] != 0);
}

/// The fields of a struct of a schema.
pub open spec fn struct_fields(raw: RawBrandedStructSchema) -> Seq<field::Reader> {
    fields_of(*raw.generic.encoded_node)->Ok_0
}

/// What a schema holds for a struct can be looked up: the node is a struct with
/// readable fields, and every member is the place of a field.
pub proof fn law_declared_structs_are_readable(
    node: Arc<node::Reader>,
    raw: RawBrandedStructSchema,
    token: DynamicSchemaToken,
)
    requires
        declares(node, TypeVariant::Struct(raw), token),
    ensures
        may_be_struct(*raw.generic.encoded_node),
        ({
            &&& fields_of(*raw.generic.encoded_node) matches Ok(fields)
            &&& forall|k: int|
                0 <= k < raw.generic.members_by_discriminant@.len()
                    ==> #[trigger] raw.generic.members_by_discriminant@[k] < fields.len()
            &&& forall|k: int|
                0 <= k < raw.generic.nonunion_members@.len()
                    ==> #[trigger] raw.generic.nonunion_members@[k] < fields.len()
        }),
{
    let fields = struct_fields(raw);
    law_members_are_fields(fields);
    assert(raw.generic.members_by_discriminant@ == members_by_discriminant(fields));
    assert(raw.generic.nonunion_members@ == nonunion_members(fields));
}

/// In a struct of a schema, the field at the place `d` of the union's members is
/// the one whose discriminant is `d`, where the discriminants count from 0.
pub proof fn law_declared_structs_find_discriminants(
    node: Arc<node::Reader>,
    raw: RawBrandedStructSchema,
    token: DynamicSchemaToken,
    d: u16,
)
    requires
        declares(node, TypeVariant::Struct(raw), token),
        struct_fields(raw).len() <= 0x1_0000,
        has_contiguous_union(struct_fields(raw)),
        d < raw.generic.members_by_discriminant@.len(),
    ensures
        struct_fields(
            raw,
        )[raw.generic.members_by_discriminant@[d as int] as int].discriminant_value == d,
{
    let fields = struct_fields(raw);
    assert(raw.generic.members_by_discriminant@ == members_by_discriminant(fields));
    law_member_has_its_discriminant(fields, d);
}

} // verus!
