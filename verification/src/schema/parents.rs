//! Which node declares which: the parents of the nodes of a request.
use crate::error::{read, Error, ErrorView};
use crate::schema::scopes::Scopes;
use crate::schema_capnp::code_generator_request::{Import, RequestedFile};
use crate::schema_capnp::node;
use crate::struct_list;
use std::collections::HashMap;
use std::sync::Arc;
use vstd::prelude::*;

verus! {

/// The first `n` nodes by ID. Where an ID occurs twice, the last node has it.
pub open spec fn nodes_by_id(nodes: Seq<Arc<node::Reader>>, n: int) -> Map<u64, Arc<node::Reader>>
    decreases n,
{
    if n <= 0 {
        Map::empty()
    } else {
        nodes_by_id(nodes, n - 1).insert(nodes[n - 1].id, nodes[n - 1])
    }
}

/// The scope that each of the first `n` nodes names as its own, by node ID.
pub open spec fn declared_parents(nodes: Seq<Arc<node::Reader>>, n: int) -> Map<u64, u64>
    decreases n,
{
    if n <= 0 {
        Map::empty()
    } else {
        declared_parents(nodes, n - 1).insert(nodes[n - 1].id, nodes[n - 1].scope_id)
    }
}

/// The nodes by ID, and the scopes that they name.
pub(crate) fn collect_nodes(nodes: &struct_list::Reader<Arc<node::Reader>>) -> (r: (
    HashMap<u64, Arc<node::Reader>>,
    HashMap<u64, u64>,
))
    ensures
        r.0@ == nodes_by_id(nodes@, nodes@.len() as int),
        r.1@ == declared_parents(nodes@, nodes@.len() as int),
{
    let mut node_map: HashMap<u64, Arc<node::Reader>> = HashMap::new();
    let mut node_parents: HashMap<u64, u64> = HashMap::new();
    let count: u32 = nodes.len();
    let mut i: u32 = 0;
    while i < count
        invariant
            count == nodes@.len(),
            0 <= i <= count,
            node_map@ == nodes_by_id(nodes@, i as int),
            node_parents@ == declared_parents(nodes@, i as int),
        decreases count - i,
    {
        let node = nodes.get(i);
        node_map.insert(node.id, node.clone());
        node_parents.insert(node.id, node.scope_id);
        i += 1;
    }
    (node_map, node_parents)
}

/// A node without a parent gets one; a node that has one keeps it.
pub open spec fn adopted(parents: Map<u64, u64>, child: u64, parent: u64) -> Map<u64, u64> {
    if parents.contains_key(child) && parents[child] == 0 {
        parents.insert(child, parent)
    } else {
        parents
    }
}

/// Gives a node without a parent one.
fn adopt(parents: &mut HashMap<u64, u64>, child: u64, parent: u64)
    ensures
        final(parents)@ == adopted(old(parents)@, child, parent),
{
    let orphan = match parents.get(&child) {
        Some(p) => *p == 0,
        None => false,
    };
    if orphan {
        parents.insert(child, parent);
    }
}

/// The parents once the first `n` methods have adopted the structs of their
/// parameters and results into their interface.
pub open spec fn methods_adopted(
    parents: Map<u64, u64>,
    methods: Seq<node::Method>,
    n: int,
    interface: u64,
) -> Map<u64, u64>
    decreases n,
{
    if n <= 0 {
        parents
    } else {
        let before = methods_adopted(parents, methods, n - 1, interface);
        let method = methods[n - 1];
        adopted(
            adopted(before, method.param_struct_type, interface),
            method.result_struct_type,
            interface,
        )
    }
}

/// The parents once every interface among the first `n` nodes has adopted the
/// structs of its methods, or the error of the first interface whose methods
/// are unreadable.
pub open spec fn interfaces_adopted(
    parents: Map<u64, u64>,
    nodes: Seq<Arc<node::Reader>>,
    n: int,
) -> Result<Map<u64, u64>, ErrorView>
    decreases n,
{
    if n <= 0 {
        Ok(parents)
    } else {
        match interfaces_adopted(parents, nodes, n - 1) {
            Err(e) => Err(e),
            Ok(before) => match nodes[n - 1].which {
                Ok(node::Which::Interface(interface)) => match interface.methods {
                    Err(e) => Err(e@),
                    Ok(methods) => Ok(
                        methods_adopted(before, methods@, methods@.len() as int, nodes[n - 1].id),
                    ),
                },
                _ => Ok(before),
            },
        }
    }
}

/// Lets an interface adopt the structs of its methods.
fn adopt_methods(
    parents: &mut HashMap<u64, u64>,
    methods: &struct_list::Reader<node::Method>,
    interface: u64,
)
    ensures
        final(parents)@ == methods_adopted(
            old(parents)@,
            methods@,
            methods@.len() as int,
            interface,
        ),
{
    let count: u32 = methods.len();
    let mut i: u32 = 0;
    while i < count
        invariant
            count == methods@.len(),
            0 <= i <= count,
            parents@ == methods_adopted(old(parents)@, methods@, i as int, interface),
        decreases count - i,
    {
        let method = methods.get(i);
        adopt(parents, method.param_struct_type, interface);
        adopt(parents, method.result_struct_type, interface);
        i += 1;
    }
}

/// The structs of a method's parameters and results may be anonymous: they name
/// no scope. Their scope is the interface.
pub(crate) fn adopt_interfaces(
    parents: &mut HashMap<u64, u64>,
    nodes: &struct_list::Reader<Arc<node::Reader>>,
) -> (r: Result<(), Error>)
    ensures
        match r {
            Ok(_) => interfaces_adopted(old(parents)@, nodes@, nodes@.len() as int) == Ok::<
                Map<u64, u64>,
                ErrorView,
            >(final(parents)@),
            Err(e) => interfaces_adopted(old(parents)@, nodes@, nodes@.len() as int) == Err::<
                Map<u64, u64>,
                ErrorView,
            >(e@),
        },
{
    let count: u32 = nodes.len();
    let mut i: u32 = 0;
    while i < count
        invariant
            count == nodes@.len(),
            0 <= i <= count,
            interfaces_adopted(old(parents)@, nodes@, i as int) == Ok::<Map<u64, u64>, ErrorView>(
                parents@,
            ),
        decreases count - i,
    {
        let node = nodes.get(i);
        if let Ok(node::Which::Interface(interface)) = &node.which {
            let methods = match read(&interface.methods) {
                Ok(methods) => methods,
                Err(e) => {
                    proof {
                        lemma_interface_error(old(parents)@, nodes@, i + 1, count as int, e@);
                    }
                    return Err(e);
                },
            };
            adopt_methods(parents, methods, node.id);
        }
        i += 1;
    }
    Ok(())
}

/// An error at one interface is the error of the whole.
proof fn lemma_interface_error(
    parents: Map<u64, u64>,
    nodes: Seq<Arc<node::Reader>>,
    i: int,
    n: int,
    e: ErrorView,
)
    requires
        0 <= i <= n,
        interfaces_adopted(parents, nodes, i) == Err::<Map<u64, u64>, ErrorView>(e),
    ensures
        interfaces_adopted(parents, nodes, n) == Err::<Map<u64, u64>, ErrorView>(e),
    decreases n - i,
{
    if i < n {
        lemma_interface_error(parents, nodes, i + 1, n, e);
    }
}

/// The parents of the nodes and the names that they declare.
pub struct Links {
    pub parents: Map<u64, u64>,
    pub scopes: Map<(u64, Seq<char>), u64>,
}

/// What a file's first `n` imports add: the file adopts each, and each gets its
/// name in the file.
pub open spec fn imports_linked(links: Links, file: u64, imports: Seq<Import>, n: int) -> Result<
    Links,
    ErrorView,
>
    decreases n,
{
    if n <= 0 {
        Ok(links)
    } else {
        match imports_linked(links, file, imports, n - 1) {
            Err(e) => Err(e),
            Ok(before) => match node::name_chars(imports[n - 1].name) {
                Err(e) => Err(e),
                Ok(name) => Ok(
                    Links {
                        parents: adopted(before.parents, imports[n - 1].id, file),
                        scopes: before.scopes.insert((file, name), imports[n - 1].id),
                    },
                ),
            },
        }
    }
}

/// What the imports of the first `n` files add.
pub open spec fn files_linked(links: Links, files: Seq<RequestedFile>, n: int) -> Result<
    Links,
    ErrorView,
>
    decreases n,
{
    if n <= 0 {
        Ok(links)
    } else {
        match files_linked(links, files, n - 1) {
            Err(e) => Err(e),
            Ok(before) => match files[n - 1].imports {
                Err(e) => Err(e@),
                Ok(imports) => imports_linked(
                    before,
                    files[n - 1].id,
                    imports@,
                    imports@.len() as int,
                ),
            },
        }
    }
}

proof fn lemma_import_error(
    links: Links,
    file: u64,
    imports: Seq<Import>,
    i: int,
    n: int,
    e: ErrorView,
)
    requires
        0 <= i <= n,
        imports_linked(links, file, imports, i) == Err::<Links, ErrorView>(e),
    ensures
        imports_linked(links, file, imports, n) == Err::<Links, ErrorView>(e),
    decreases n - i,
{
    if i < n {
        lemma_import_error(links, file, imports, i + 1, n, e);
    }
}

proof fn lemma_file_error(links: Links, files: Seq<RequestedFile>, i: int, n: int, e: ErrorView)
    requires
        0 <= i <= n,
        files_linked(links, files, i) == Err::<Links, ErrorView>(e),
    ensures
        files_linked(links, files, n) == Err::<Links, ErrorView>(e),
    decreases n - i,
{
    if i < n {
        lemma_file_error(links, files, i + 1, n, e);
    }
}

/// Links the imports of one file.
fn link_imports(
    parents: &mut HashMap<u64, u64>,
    scopes: &mut Scopes,
    file: u64,
    imports: &struct_list::Reader<Import>,
) -> (r: Result<(), Error>)
    ensures
        ({
            let before = Links { parents: old(parents)@, scopes: old(scopes)@ };
            let outcome = imports_linked(before, file, imports@, imports@.len() as int);
            match r {
                Ok(_) => outcome == Ok::<Links, ErrorView>(
                    Links { parents: final(parents)@, scopes: final(scopes)@ },
                ),
                Err(e) => outcome == Err::<Links, ErrorView>(e@),
            }
        }),
{
    let ghost before = Links { parents: parents@, scopes: scopes@ };
    let count: u32 = imports.len();
    let mut i: u32 = 0;
    while i < count
        invariant
            count == imports@.len(),
            0 <= i <= count,
            before == (Links { parents: old(parents)@, scopes: old(scopes)@ }),
            imports_linked(before, file, imports@, i as int) == Ok::<Links, ErrorView>(
                Links { parents: parents@, scopes: scopes@ },
            ),
        decreases count - i,
    {
        let import = imports.get(i);
        let import_id: u64 = import.id;
        adopt(parents, import_id, file);
        let name = match node::name_string(&import.name) {
            Ok(name) => name,
            Err(e) => {
                proof {
                    lemma_import_error(before, file, imports@, i + 1, count as int, e@);
                }
                return Err(e);
            },
        };
        scopes.insert(file, name, import_id);
        i += 1;
    }
    Ok(())
}

/// Imported files name no scope. Each belongs to the first file that imports
/// it, and has in every file that imports it the name under which it is
/// imported.
pub(crate) fn link_files(
    parents: &mut HashMap<u64, u64>,
    scopes: &mut Scopes,
    files: &struct_list::Reader<RequestedFile>,
) -> (r: Result<(), Error>)
    ensures
        ({
            let before = Links { parents: old(parents)@, scopes: old(scopes)@ };
            let outcome = files_linked(before, files@, files@.len() as int);
            match r {
                Ok(_) => outcome == Ok::<Links, ErrorView>(
                    Links { parents: final(parents)@, scopes: final(scopes)@ },
                ),
                Err(e) => outcome == Err::<Links, ErrorView>(e@),
            }
        }),
{
    let ghost before = Links { parents: parents@, scopes: scopes@ };
    let count: u32 = files.len();
    let mut i: u32 = 0;
    while i < count
        invariant
            count == files@.len(),
            0 <= i <= count,
            before == (Links { parents: old(parents)@, scopes: old(scopes)@ }),
            files_linked(before, files@, i as int) == Ok::<Links, ErrorView>(
                Links { parents: parents@, scopes: scopes@ },
            ),
        decreases count - i,
    {
        let file = files.get(i);
        let imports = match read(&file.imports) {
            Ok(imports) => imports,
            Err(e) => {
                proof {
                    lemma_file_error(before, files@, i + 1, count as int, e@);
                }
                return Err(e);
            },
        };
        match link_imports(parents, scopes, file.id, imports) {
            Ok(_) => {},
            Err(e) => {
                proof {
                    lemma_file_error(before, files@, i + 1, count as int, e@);
                }
                return Err(e);
            },
        }
        i += 1;
    }
    Ok(())
}

} // verus!
